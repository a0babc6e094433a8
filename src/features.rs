//! Features over LaTeX documents that read the facts of a whole compilation
//! unit: label references, completion of user commands and environments,
//! going to a command definition, and hovering a package or class.
use vstd::prelude::*;
use crate::analysis::{arg_items, arg_items_exec, arg_key, arg_key_exec, command_is, curly_arg, curly_arg_exec, first_token_text, is_command, slice};
use crate::bibtex_features::{Hover, LocationLink, node_text_range, token_range};
use crate::database::{Database, UnitSnapshot, doc_uris, is_unit};
use crate::extras::{label_command, Extras, ExtrasView, ExplicitLinkKind, LabelV, LinkV, extras_of, label_v, labels_view, link_v, links_view, strs};
use crate::lexer::{Language, TokenKind};
use crate::syntax::{lemma_node_tokens, lemma_token_in_text};
use crate::text::{TextRange, slice_chars, slice_eq, substring};
use crate::tree::{SyntaxTree, node_ok};

verus! {

/// A place in a document.
#[derive(Debug, Clone, Copy, PartialEq, Eq, Structural)]
pub struct Location {
    pub document: usize,
    pub range: TextRange,
}

/// A completion candidate: the name to insert over `range`.
#[derive(Debug, Clone, PartialEq, Eq)]
pub struct CompletionItem {
    pub range: TextRange,
    pub name: String,
}

pub open spec fn item_v(i: CompletionItem) -> (TextRange, Seq<char>) {
    (i.range, i.name@)
}

pub open spec fn items_view(v: Seq<CompletionItem>) -> Seq<(TextRange, Seq<char>)> {
    v.map_values(|i: CompletionItem| item_v(i))
}

/// The extras of each member of the unit `u`, as the database derives them.
pub open spec fn unit_views(db: &Database, u: Seq<usize>) -> Seq<ExtrasView> {
    u.map_values(|d: usize| extras_of(db.tree_of(d as int), db@[d as int].uri, doc_uris(db@)))
}

/// The name of the first label among `labels[i..]` whose range touches `offset`.
pub open spec fn label_at(labels: Seq<LabelV>, offset: int, i: int) -> Option<Seq<char>>
    decreases labels.len() - i,
{
    if i < 0 || i >= labels.len() {
        None
    } else if labels[i].1.start <= offset <= labels[i].1.end {
        Some(labels[i].0)
    } else {
        label_at(labels, offset, i + 1)
    }
}

/// The occurrences of label `name` among `labels` of document `doc`;
/// definitions only when `with_definitions` is set.
pub open spec fn doc_label_refs(labels: Seq<LabelV>, name: Seq<char>, with_definitions: bool, doc: usize) -> Seq<Location>
    decreases labels.len(),
{
    if labels.len() == 0 {
        Seq::empty()
    } else {
        let l = labels.last();
        doc_label_refs(labels.drop_last(), name, with_definitions, doc) + if l.0 == name && (!l.2 || with_definitions) {
            seq![Location { document: doc, range: l.1 }]
        } else {
            Seq::empty()
        }
    }
}

pub open spec fn unit_label_refs(docs: Seq<usize>, views: Seq<ExtrasView>, name: Seq<char>, with_definitions: bool) -> Seq<Location>
    decreases docs.len(),
{
    if docs.len() == 0 || views.len() < docs.len() {
        Seq::empty()
    } else {
        let j = docs.len() - 1;
        unit_label_refs(docs.drop_last(), views, name, with_definitions) + doc_label_refs(views[j].label_names, name, with_definitions, docs[j])
    }
}

/// The references of the label under `offset` in the first member of the
/// unit, across all members.
pub open spec fn label_references(docs: Seq<usize>, views: Seq<ExtrasView>, tree: SyntaxTree, offset: int, with_definitions: bool) -> Seq<Location> {
    match label_cursor(views[0].label_names, tree, offset) {
        Some(name) => unit_label_refs(docs, views, name, with_definitions),
        None => Seq::empty(),
    }
}

/// The first label command at or after node `k` whose name token touches
/// `offset`; the first label it names.
pub open spec fn command_label_at(tree: SyntaxTree, offset: int, k: int) -> Option<Seq<char>>
    decreases tree.nodes@.len() - k,
{
    if k < 0 || k >= tree.nodes@.len() {
        None
    } else if is_command(tree, k) && label_command(first_token_text(tree, k)).is_some()
        && tree.tokens@[tree.nodes@[k].first as int].start <= offset <= tree.tokens@[tree.nodes@[k].first as int].end
        && arg_items(tree, k).len() > 0 {
        Some(slice(tree, arg_items(tree, k)[0]))
    } else {
        command_label_at(tree, offset, k + 1)
    }
}

/// The label under the cursor: the one whose name it touches, else the
/// first one named by the label command it touches.
pub open spec fn label_cursor(labels: Seq<LabelV>, tree: SyntaxTree, offset: int) -> Option<Seq<char>> {
    match label_at(labels, offset, 0) {
        Some(name) => Some(name),
        None => command_label_at(tree, offset, 0),
    }
}

fn command_label_at_exec(tree: &SyntaxTree, offset: usize) -> (r: Option<String>)
    requires
        tree.wf(),
    ensures
        r.is_some() == command_label_at(*tree, offset as int, 0).is_some(),
        r.is_some() ==> r.unwrap()@ == command_label_at(*tree, offset as int, 0).unwrap(),
{
    let mut k: usize = 0;
    while k < tree.nodes.len()
        invariant
            tree.wf(),
            k <= tree.nodes@.len(),
            command_label_at(*tree, offset as int, k as int) == command_label_at(*tree, offset as int, 0),
        decreases tree.nodes.len() - k,
    {
        if command_is(tree, k, "\\label") || command_is(tree, k, "\\ref") || command_is(tree, k, "\\eqref")
            || command_is(tree, k, "\\pageref") || command_is(tree, k, "\\autoref") || command_is(tree, k, "\\cref")
            || command_is(tree, k, "\\Cref") || command_is(tree, k, "\\vref") || command_is(tree, k, "\\nameref") {
            proof {
                assert(node_ok(tree.nodes@, k as int, tree.tokens@.len()));
            }
            let t = tree.tokens[tree.nodes[k].first];
            if t.start <= offset && offset <= t.end {
                let items = arg_items_exec(tree, k);
                if items.len() > 0 {
                    let (a, b) = items[0];
                    assert(arg_items(*tree, k as int)[0] == (a as int, b as int));
                    return Some(substring(&tree.text, a, b));
                }
            }
        }
        k = k + 1;
    }
    None
}

fn label_at_exec(labels: &Vec<crate::extras::LabelName>, offset: usize) -> (r: Option<String>)
    ensures
        r.is_some() == label_at(labels_view(labels@), offset as int, 0).is_some(),
        r.is_some() ==> r.unwrap()@ == label_at(labels_view(labels@), offset as int, 0).unwrap(),
{
    let ghost lv = labels_view(labels@);
    let mut i: usize = 0;
    while i < labels.len()
        invariant
            i <= labels@.len(),
            lv == labels_view(labels@),
            label_at(lv, offset as int, i as int) == label_at(lv, offset as int, 0),
        decreases labels.len() - i,
    {
        let l = &labels[i];
        assert(lv[i as int] == label_v(*l));
        if l.range.start <= offset && offset <= l.range.end {
            return Some(l.text.clone());
        }
        i = i + 1;
    }
    None
}

fn add_doc_label_refs(labels: &Vec<crate::extras::LabelName>, name: &String, with_definitions: bool, doc: usize, out: &mut Vec<Location>)
    ensures
        final(out)@ == old(out)@ + doc_label_refs(labels_view(labels@), name@, with_definitions, doc),
{
    let ghost lv = labels_view(labels@);
    let ghost start = out@;
    let mut i: usize = 0;
    while i < labels.len()
        invariant
            i <= labels@.len(),
            lv == labels_view(labels@),
            out@ == start + doc_label_refs(lv.take(i as int), name@, with_definitions, doc),
        decreases labels.len() - i,
    {
        assert(lv.take(i + 1).drop_last() =~= lv.take(i as int));
        let l = &labels[i];
        assert(lv.take(i + 1).last() == label_v(*l));
        let ghost before = out@;
        if l.text == *name && (!l.is_definition || with_definitions) {
            out.push(Location { document: doc, range: l.range });
            assert(out@ =~= before + seq![Location { document: doc, range: l.range }]);
        } else {
            assert(out@ =~= before + Seq::<Location>::empty());
        }
        assert(start + doc_label_refs(lv.take(i + 1), name@, with_definitions, doc) =~= start + doc_label_refs(lv.take(i as int), name@, with_definitions, doc) + (if label_v(*l).0 == name@ && (!label_v(*l).2 || with_definitions) {
            seq![Location { document: doc, range: l.range }]
        } else {
            Seq::<Location>::empty()
        }));
        i = i + 1;
    }
    assert(lv.take(i as int) =~= lv);
}

pub open spec fn snapshot_views(snap: &UnitSnapshot) -> Seq<ExtrasView> {
    snap.extras@.map_values(|e: Extras| e@)
}

/// The references of the label under `offset` in the unit's first member.
pub fn label_references_in(snap: &UnitSnapshot, tree: &SyntaxTree, offset: usize, with_definitions: bool) -> (r: Vec<Location>)
    requires
        snap.docs@.len() >= 1,
        snap.extras@.len() == snap.docs@.len(),
        tree.wf(),
    ensures
        r@ == label_references(snap.docs@, snapshot_views(snap), *tree, offset as int, with_definitions),
{
    let ghost views = snapshot_views(snap);
    let mut r: Vec<Location> = Vec::new();
    let name = match label_at_exec(&snap.extras[0].label_names, offset) {
        Some(n) => n,
        None => match command_label_at_exec(tree, offset) {
            Some(n) => n,
            None => return r,
        },
    };
    let mut j: usize = 0;
    while j < snap.docs.len()
        invariant
            j <= snap.docs@.len(),
            snap.extras@.len() == snap.docs@.len(),
            views == snapshot_views(snap),
            r@ == unit_label_refs(snap.docs@.take(j as int), views, name@, with_definitions),
        decreases snap.docs.len() - j,
    {
        assert(snap.docs@.take(j + 1).drop_last() =~= snap.docs@.take(j as int));
        assert(views[j as int] == snap.extras@[j as int]@);
        add_doc_label_refs(&snap.extras[j].label_names, &name, with_definitions, snap.docs[j], &mut r);
        j = j + 1;
    }
    assert(snap.docs@.take(j as int) =~= snap.docs@);
    r
}

/// Finds the references of the label under `offset` in document `doc`,
/// across its compilation unit; definitions are included when asked for.
pub fn find_label_references(db: &mut Database, doc: usize, offset: usize, with_declarations: bool) -> (r: Vec<Location>)
    requires
        old(db).wf(),
        doc < old(db)@.len(),
    ensures
        final(db).wf(),
        final(db)@ == old(db)@,
        final(db).all_fresh(),
        final(db).trees_current(),
        old(db).keeps_trees(&*final(db)),
        exists|u: Seq<usize>| #[trigger] is_unit(&*final(db), doc as int, u)
            && r@ == label_references(u, unit_views(&*final(db), u), final(db).tree_of(doc as int), offset as int, with_declarations),
{
    let snap = db.unit_snapshot(doc);
    let tree = db.tree_ref(doc);
    let r = label_references_in(&snap, tree, offset, with_declarations);
    proof {
        assert(snapshot_views(&snap) =~= unit_views(&*db, snap.docs@));
        assert(is_unit(&*db, doc as int, snap.docs@));
    }
    r
}

/// The first command-name token at or after `t` whose text ends at or after
/// `offset` and starts before it.
pub open spec fn command_at(tree: SyntaxTree, offset: int, t: int) -> Option<int>
    decreases tree.tokens@.len() - t,
{
    if t < 0 || t >= tree.tokens@.len() {
        None
    } else if tree.tokens@[t].kind == TokenKind::CommandName && tree.tokens@[t].start < offset <= tree.tokens@[t].end {
        Some(t)
    } else {
        command_at(tree, offset, t + 1)
    }
}

fn command_at_exec(tree: &SyntaxTree, offset: usize) -> (r: Option<usize>)
    requires
        tree.wf(),
    ensures
        r.is_some() == command_at(*tree, offset as int, 0).is_some(),
        r.is_some() ==> r.unwrap() as int == command_at(*tree, offset as int, 0).unwrap() && r.unwrap() < tree.tokens@.len(),
{
    let mut t: usize = 0;
    while t < tree.tokens.len()
        invariant
            t <= tree.tokens@.len(),
            command_at(*tree, offset as int, t as int) == command_at(*tree, offset as int, 0),
        decreases tree.tokens.len() - t,
    {
        let tok = tree.tokens[t];
        if tok.kind == TokenKind::CommandName && tok.start < offset && offset <= tok.end {
            return Some(t);
        }
        t = t + 1;
    }
    None
}

/// The names among `names` other than `exclude`, each to be inserted over `range`.
pub open spec fn name_items(names: Seq<Seq<char>>, exclude: Seq<char>, range: TextRange) -> Seq<(TextRange, Seq<char>)>
    decreases names.len(),
{
    if names.len() == 0 {
        Seq::empty()
    } else {
        name_items(names.drop_last(), exclude, range) + if names.last() != exclude {
            seq![(range, names.last())]
        } else {
            Seq::empty()
        }
    }
}

pub open spec fn unit_name_items(views: Seq<ExtrasView>, commands: bool, exclude: Seq<char>, range: TextRange) -> Seq<(TextRange, Seq<char>)>
    decreases views.len(),
{
    if views.len() == 0 {
        Seq::empty()
    } else {
        let v = views.last();
        unit_name_items(views.drop_last(), commands, exclude, range) + name_items(
            if commands { v.command_names } else { v.environment_names },
            exclude,
            range,
        )
    }
}

fn add_name_items(names: &Vec<String>, exclude: &String, range: TextRange, out: &mut Vec<CompletionItem>)
    ensures
        items_view(final(out)@) == items_view(old(out)@) + name_items(strs(names@), exclude@, range),
{
    let ghost nv = strs(names@);
    let ghost start = items_view(out@);
    let mut i: usize = 0;
    while i < names.len()
        invariant
            i <= names@.len(),
            nv == strs(names@),
            items_view(out@) == start + name_items(nv.take(i as int), exclude@, range),
        decreases names.len() - i,
    {
        assert(nv.take(i + 1).drop_last() =~= nv.take(i as int));
        assert(nv.take(i + 1).last() == names@[i as int]@);
        let ghost before = items_view(out@);
        if names[i] != *exclude {
            out.push(CompletionItem { range, name: names[i].clone() });
            assert(items_view(out@) =~= before + seq![(range, names@[i as int]@)]);
        } else {
            assert(items_view(out@) =~= before + Seq::<(TextRange, Seq<char>)>::empty());
        }
        i = i + 1;
    }
    assert(nv.take(i as int) =~= nv);
}

/// Completion items for the names that a unit's members declare.
fn unit_items(snap: &UnitSnapshot, commands: bool, exclude: &String, range: TextRange) -> (r: Vec<CompletionItem>)
    requires
        snap.extras@.len() == snap.docs@.len(),
    ensures
        items_view(r@) == unit_name_items(snapshot_views(snap), commands, exclude@, range),
{
    let ghost views = snapshot_views(snap);
    let mut r: Vec<CompletionItem> = Vec::new();
    assert(items_view(r@) =~= Seq::<(TextRange, Seq<char>)>::empty());
    let mut j: usize = 0;
    while j < snap.extras.len()
        invariant
            j <= snap.extras@.len(),
            views == snapshot_views(snap),
            items_view(r@) == unit_name_items(views.take(j as int), commands, exclude@, range),
        decreases snap.extras.len() - j,
    {
        assert(views.take(j + 1).drop_last() =~= views.take(j as int));
        assert(views.take(j + 1).last() == snap.extras@[j as int]@);
        if commands {
            add_name_items(&snap.extras[j].command_names, exclude, range, &mut r);
        } else {
            add_name_items(&snap.extras[j].environment_names, exclude, range, &mut r);
        }
        j = j + 1;
    }
    assert(views.take(j as int) =~= views);
    r
}

/// Completes the command name under `offset` in document `doc` with the
/// commands that the members of its compilation unit use, other than the
/// one typed. Each item replaces the name after the backslash.
pub fn complete_user_commands(db: &mut Database, doc: usize, offset: usize) -> (r: Vec<CompletionItem>)
    requires
        old(db).wf(),
        doc < old(db)@.len(),
    ensures
        final(db).wf(),
        final(db)@ == old(db)@,
        final(db).all_fresh(),
        final(db).trees_current(),
        old(db).keeps_trees(&*final(db)),
        command_at(final(db).tree_of(doc as int), offset as int, 0).is_none() ==> r@.len() == 0,
        command_at(final(db).tree_of(doc as int), offset as int, 0).is_some() ==> {
            let t = command_at(final(db).tree_of(doc as int), offset as int, 0).unwrap();
            let tree = final(db).tree_of(doc as int);
            exists|u: Seq<usize>| #[trigger] is_unit(&*final(db), doc as int, u) && items_view(r@) == unit_name_items(
                unit_views(&*final(db), u),
                true,
                tree.token_text(t),
                TextRange { start: (tree.tokens@[t].start + 1) as usize, end: tree.tokens@[t].end },
            )
        },
{
    let snap = db.unit_snapshot(doc);
    let tree = db.tree_ref(doc);
    let t = match command_at_exec(tree, offset) {
        Some(t) => t,
        None => return Vec::new(),
    };
    proof {
        lemma_token_in_text(tree, t as int);
    }
    let tok = tree.tokens[t];
    let exclude = substring(&tree.text, tok.start, tok.end);
    let range = TextRange { start: tok.start + 1, end: tok.end };
    let r = unit_items(&snap, true, &exclude, range);
    proof {
        assert(snapshot_views(&snap) =~= unit_views(&*db, snap.docs@));
        assert(is_unit(&*db, doc as int, snap.docs@));
    }
    r
}

/// The first node at or after `k` that is a `\begin` or `\end` whose name
/// touches `offset`; the name's range.
pub open spec fn environment_name_at(tree: SyntaxTree, offset: int, k: int) -> Option<(int, int)>
    decreases tree.nodes@.len() - k,
{
    if k < 0 || k >= tree.nodes@.len() {
        None
    } else if is_command(tree, k) && (first_token_text(tree, k) == "\\begin"@ || first_token_text(tree, k) == "\\end"@)
        && arg_key(tree, k, 0).is_some() && arg_key(tree, k, 0).unwrap().0 <= offset <= arg_key(tree, k, 0).unwrap().1 {
        arg_key(tree, k, 0)
    } else {
        environment_name_at(tree, offset, k + 1)
    }
}

fn environment_name_at_exec(tree: &SyntaxTree, offset: usize) -> (r: Option<(usize, usize)>)
    requires
        tree.wf(),
    ensures
        r.is_some() == environment_name_at(*tree, offset as int, 0).is_some(),
        r.is_some() ==> (r.unwrap().0 as int, r.unwrap().1 as int) == environment_name_at(*tree, offset as int, 0).unwrap()
            && r.unwrap().0 <= r.unwrap().1 <= tree.text@.len(),
{
    let mut k: usize = 0;
    while k < tree.nodes.len()
        invariant
            tree.wf(),
            k <= tree.nodes@.len(),
            environment_name_at(*tree, offset as int, k as int) == environment_name_at(*tree, offset as int, 0),
        decreases tree.nodes.len() - k,
    {
        if command_is(tree, k, "\\begin") || command_is(tree, k, "\\end") {
            match arg_key_exec(tree, k, 0) {
                Some((a, b)) => {
                    if a <= offset && offset <= b {
                        return Some((a, b));
                    }
                },
                None => {},
            }
        }
        k = k + 1;
    }
    None
}

/// Completes the environment name under `offset` (in a `\begin` or `\end`)
/// in document `doc` with the environments that the members of its
/// compilation unit use, other than the one typed.
pub fn complete_user_environments(db: &mut Database, doc: usize, offset: usize) -> (r: Vec<CompletionItem>)
    requires
        old(db).wf(),
        doc < old(db)@.len(),
    ensures
        final(db).wf(),
        final(db)@ == old(db)@,
        final(db).all_fresh(),
        final(db).trees_current(),
        old(db).keeps_trees(&*final(db)),
        environment_name_at(final(db).tree_of(doc as int), offset as int, 0).is_none() ==> r@.len() == 0,
        environment_name_at(final(db).tree_of(doc as int), offset as int, 0).is_some() ==> {
            let (a, b) = environment_name_at(final(db).tree_of(doc as int), offset as int, 0).unwrap();
            exists|u: Seq<usize>| #[trigger] is_unit(&*final(db), doc as int, u) && items_view(r@) == unit_name_items(
                unit_views(&*final(db), u),
                false,
                final(db).tree_of(doc as int).text@.subrange(a, b),
                TextRange { start: a as usize, end: b as usize },
            )
        },
{
    let snap = db.unit_snapshot(doc);
    let tree = db.tree_ref(doc);
    let (a, b) = match environment_name_at_exec(tree, offset) {
        Some(x) => x,
        None => return Vec::new(),
    };
    let exclude = substring(&tree.text, a, b);
    let r = unit_items(&snap, false, &exclude, TextRange { start: a, end: b });
    proof {
        assert(snapshot_views(&snap) =~= unit_views(&*db, snap.docs@));
        assert(is_unit(&*db, doc as int, snap.docs@));
    }
    r
}

/// The commands that define a command.
pub open spec fn defines_command(name: Seq<char>) -> bool {
    name == "\\newcommand"@ || name == "\\renewcommand"@ || name == "\\providecommand"@
        || name == "\\DeclareMathOperator"@ || name == "\\DeclareRobustCommand"@
}

/// The first command-name token among tokens `[i, stop)`.
pub open spec fn first_command_token(tree: SyntaxTree, i: int, stop: int) -> Option<int>
    decreases stop - i,
{
    if i < 0 || i >= stop || i >= tree.tokens@.len() {
        None
    } else if tree.tokens@[i].kind == TokenKind::CommandName {
        Some(i)
    } else {
        first_command_token(tree, i + 1, stop)
    }
}

/// The token that a definition node `k` (`\newcommand{\name}...`) defines.
pub open spec fn defined_name(tree: SyntaxTree, k: int) -> Option<int> {
    if is_command(tree, k) && defines_command(first_token_text(tree, k)) && curly_arg(tree, k, 0).is_some() {
        let g = curly_arg(tree, k, 0).unwrap();
        first_command_token(tree, tree.nodes@[g].first + 1, tree.nodes@[g].last as int)
    } else {
        None
    }
}

/// The first definition node at or after `k` that defines `name`, with the
/// defined token.
pub open spec fn find_definition(tree: SyntaxTree, name: Seq<char>, k: int) -> Option<(int, int)>
    decreases tree.nodes@.len() - k,
{
    if k < 0 || k >= tree.nodes@.len() {
        None
    } else if defined_name(tree, k).is_some() && tree.token_text(defined_name(tree, k).unwrap()) == name {
        Some((k, defined_name(tree, k).unwrap()))
    } else {
        find_definition(tree, name, k + 1)
    }
}

proof fn lemma_find_definition(tree: SyntaxTree, name: Seq<char>, k0: int)
    requires
        find_definition(tree, name, k0).is_some(),
    ensures
        defined_name(tree, find_definition(tree, name, k0).unwrap().0) == Some(find_definition(tree, name, k0).unwrap().1),
    decreases tree.nodes@.len() - k0,
{
    if !(defined_name(tree, k0).is_some() && tree.token_text(defined_name(tree, k0).unwrap()) == name) {
        lemma_find_definition(tree, name, k0 + 1);
    }
}

/// The first member of `u`, from the `j`-th on, that defines `name`.
pub open spec fn unit_definition(db: &Database, u: Seq<usize>, name: Seq<char>, j: int) -> Option<(int, int, int)>
    decreases u.len() - j,
{
    if j < 0 || j >= u.len() {
        None
    } else if db.tree_of(u[j] as int).language == Language::Latex && find_definition(db.tree_of(u[j] as int), name, 0).is_some() {
        let (k, t) = find_definition(db.tree_of(u[j] as int), name, 0).unwrap();
        Some((j, k, t))
    } else {
        unit_definition(db, u, name, j + 1)
    }
}

fn defined_name_exec(tree: &SyntaxTree, k: usize) -> (r: Option<usize>)
    requires
        tree.wf(),
        k < tree.nodes@.len(),
    ensures
        r.is_some() == defined_name(*tree, k as int).is_some(),
        r.is_some() ==> r.unwrap() as int == defined_name(*tree, k as int).unwrap() && r.unwrap() < tree.tokens@.len(),
{
    if !(command_is(tree, k, "\\newcommand") || command_is(tree, k, "\\renewcommand") || command_is(tree, k, "\\providecommand")
        || command_is(tree, k, "\\DeclareMathOperator") || command_is(tree, k, "\\DeclareRobustCommand")) {
        return None;
    }
    let g = match curly_arg_exec(tree, k, 0) {
        Some(g) => g,
        None => return None,
    };
    proof {
        assert(node_ok(tree.nodes@, g as int, tree.tokens@.len()));
    }
    let n = tree.nodes[g];
    if n.first >= n.last {
        return None;
    }
    let mut i = n.first + 1;
    while i < n.last
        invariant
            tree.wf(),
            k < tree.nodes@.len(),
            g < tree.nodes@.len(),
            n == tree.nodes@[g as int],
            curly_arg(*tree, k as int, 0) == Some(g as int),
            is_command(*tree, k as int) && defines_command(first_token_text(*tree, k as int)),
            n.last <= tree.tokens@.len(),
            n.first + 1 <= i,
            first_command_token(*tree, i as int, n.last as int) == first_command_token(*tree, n.first + 1, n.last as int),
        decreases n.last - i,
    {
        if tree.tokens[i].kind == TokenKind::CommandName {
            return Some(i);
        }
        i = i + 1;
    }
    None
}

fn find_definition_exec(tree: &SyntaxTree, name: &Vec<char>) -> (r: Option<(usize, usize)>)
    requires
        tree.wf(),
    ensures
        r.is_some() == find_definition(*tree, name@, 0).is_some(),
        r.is_some() ==> (r.unwrap().0 as int, r.unwrap().1 as int) == find_definition(*tree, name@, 0).unwrap()
            && r.unwrap().0 < tree.nodes@.len() && r.unwrap().1 < tree.tokens@.len(),
{
    let mut k: usize = 0;
    while k < tree.nodes.len()
        invariant
            tree.wf(),
            k <= tree.nodes@.len(),
            find_definition(*tree, name@, k as int) == find_definition(*tree, name@, 0),
        decreases tree.nodes.len() - k,
    {
        match defined_name_exec(tree, k) {
            Some(t) => {
                proof {
                    lemma_token_in_text(tree, t as int);
                }
                if slice_eq(&tree.text, tree.tokens[t].start, tree.tokens[t].end, name) {
                    return Some((k, t));
                }
            },
            None => {},
        }
        k = k + 1;
    }
    None
}

/// The go-to-definition answer for the command token `t` of `doc`, when
/// unit member `u[j]` defines it at node `k`, token `d`.
pub open spec fn definition_link(db: &Database, doc: int, t: int, u: Seq<usize>, found: (int, int, int)) -> LocationLink {
    let (j, k, d) = found;
    let target = db.tree_of(u[j] as int);
    LocationLink {
        origin_range: token_range(db.tree_of(doc), t),
        target: u[j],
        target_range: node_text_range(target, k),
        target_selection_range: token_range(target, d),
    }
}

/// Goes from the command under `offset` in document `doc` to its first
/// definition in the compilation unit, members taken in unit order.
pub fn goto_command_definition(db: &mut Database, doc: usize, offset: usize) -> (r: Option<LocationLink>)
    requires
        old(db).wf(),
        doc < old(db)@.len(),
    ensures
        final(db).wf(),
        final(db)@ == old(db)@,
        final(db).all_fresh(),
        final(db).trees_current(),
        old(db).keeps_trees(&*final(db)),
        command_at(final(db).tree_of(doc as int), offset as int, 0).is_none() ==> r.is_none(),
        command_at(final(db).tree_of(doc as int), offset as int, 0).is_some() ==> {
            let t = command_at(final(db).tree_of(doc as int), offset as int, 0).unwrap();
            let name = final(db).tree_of(doc as int).token_text(t);
            exists|u: Seq<usize>| #[trigger] is_unit(&*final(db), doc as int, u) && r == match unit_definition(&*final(db), u, name, 0) {
                Some(found) => Some(definition_link(&*final(db), doc as int, t, u, found)),
                None => None,
            }
        },
{
    let unit = db.compilation_unit(doc);
    let tree = db.tree_ref(doc);
    let t = match command_at_exec(tree, offset) {
        Some(t) => t,
        None => return None,
    };
    proof {
        lemma_token_in_text(tree, t as int);
    }
    let origin_range = TextRange { start: tree.tokens[t].start, end: tree.tokens[t].end };
    let name = slice_chars(&tree.text, tree.tokens[t].start, tree.tokens[t].end);
    let mut j: usize = 0;
    assert(is_unit(&*db, doc as int, unit@));
    while j < unit.len()
        invariant
            db.wf(),
            db@ == old(db)@,
            db.trees_current(),
            old(db).keeps_trees(&*db),
            doc < db@.len(),
            command_at(db.tree_of(doc as int), offset as int, 0) == Some(t as int),
            t < db.tree_of(doc as int).tokens@.len(),
            origin_range == token_range(db.tree_of(doc as int), t as int),
            name@ == db.tree_of(doc as int).token_text(t as int),
            is_unit(&*db, doc as int, unit@),
            j <= unit@.len(),
            forall|m: int| 0 <= m < unit@.len() ==> #[trigger] unit@[m] < db@.len(),
            forall|i: int| 0 <= i < db@.len() ==> #[trigger] db.tree_fresh(i),
            unit_definition(&*db, unit@, name@, j as int) == unit_definition(&*db, unit@, name@, 0),
        decreases unit.len() - j,
    {
        let d = unit[j];
        let target = db.tree_ref(d);
        let found = if target.language == Language::Latex { find_definition_exec(target, &name) } else { None };
        match found {
            Some((k, td)) => {
                proof {
                    lemma_find_definition(*target, name@, 0);
                    assert(defined_name(*target, k as int).is_some());
                    assert(is_command(*target, k as int));
                    lemma_node_tokens(target, k as int);
                    assert(node_ok(target.nodes@, k as int, target.tokens@.len()));
                    lemma_token_in_text(target, td as int);
                    lemma_token_in_text(target, target.nodes@[k as int].last - 1);
                }
                let n = target.nodes[k];
                let target_range = TextRange { start: target.tokens[n.first].start, end: target.tokens[n.last - 1].end };
                let target_selection_range = TextRange { start: target.tokens[td].start, end: target.tokens[td].end };
                proof {
                    assert(is_unit(&*db, doc as int, unit@));
                }
                return Some(LocationLink { origin_range, target: d, target_range, target_selection_range });
            },
            None => {},
        }
        j = j + 1;
    }
    proof {
        assert(is_unit(&*db, doc as int, unit@));
    }
    None
}

/// The first package or class link among `links[i..]` whose stem touches `offset`.
pub open spec fn component_link_at(links: Seq<LinkV>, offset: int, i: int) -> Option<LinkV>
    decreases links.len() - i,
{
    if i < 0 || i >= links.len() {
        None
    } else if (links[i].3 == ExplicitLinkKind::Package || links[i].3 == ExplicitLinkKind::Class)
        && links[i].1.start <= offset <= links[i].1.end {
        Some(links[i])
    } else {
        component_link_at(links, offset, i + 1)
    }
}

/// The documentation recorded for `name` among `(name, documentation)` pairs.
pub open spec fn documentation_of(docs: Seq<(Seq<char>, Seq<char>)>, name: Seq<char>, i: int) -> Option<Seq<char>>
    decreases docs.len() - i,
{
    if i < 0 || i >= docs.len() {
        None
    } else if docs[i].0 == name {
        Some(docs[i].1)
    } else {
        documentation_of(docs, name, i + 1)
    }
}

pub open spec fn pairs_view(v: Seq<(String, String)>) -> Seq<(Seq<char>, Seq<char>)> {
    v.map_values(|p: (String, String)| (p.0@, p.1@))
}

/// The hover over a package or class name: its stem's range and its
/// documentation, when some is known.
pub open spec fn component_hover(links: Seq<LinkV>, docs: Seq<(Seq<char>, Seq<char>)>, offset: int) -> Option<(TextRange, Seq<char>)> {
    match component_link_at(links, offset, 0) {
        Some(l) => match documentation_of(docs, l.0, 0) {
            Some(text) => Some((l.1, text)),
            None => None,
        },
        None => None,
    }
}

pub fn component_hover_in(extras: &Extras, documentation: &Vec<(String, String)>, offset: usize) -> (r: Option<Hover>)
    ensures
        r.is_some() == component_hover(extras@.explicit_links, pairs_view(documentation@), offset as int).is_some(),
        r.is_some() ==> (r.unwrap().range, r.unwrap().text@) == component_hover(extras@.explicit_links, pairs_view(documentation@), offset as int).unwrap(),
{
    let links = &extras.explicit_links;
    let ghost lv = links_view(links@);
    let mut i: usize = 0;
    while i < links.len()
        invariant
            i <= links@.len(),
            lv == links_view(links@),
            lv == extras@.explicit_links,
            component_link_at(lv, offset as int, i as int) == component_link_at(lv, offset as int, 0),
        decreases links.len() - i,
    {
        let l = &links[i];
        assert(lv[i as int] == link_v(*l));
        if (l.kind == ExplicitLinkKind::Package || l.kind == ExplicitLinkKind::Class) && l.stem_range.start <= offset
            && offset <= l.stem_range.end {
            let ghost dv = pairs_view(documentation@);
            let mut m: usize = 0;
            assert(component_link_at(lv, offset as int, 0) == Some(link_v(*l)));
            while m < documentation.len()
                invariant
                    m <= documentation@.len(),
                    lv == extras@.explicit_links,
                    component_link_at(lv, offset as int, 0) == Some(link_v(*l)),
                    dv == pairs_view(documentation@),
                    documentation_of(dv, l.stem@, m as int) == documentation_of(dv, l.stem@, 0),
                decreases documentation.len() - m,
            {
                assert(dv[m as int] == (documentation@[m as int].0@, documentation@[m as int].1@));
                if documentation[m].0 == l.stem {
                    return Some(Hover { range: l.stem_range, text: documentation[m].1.clone() });
                }
                m = m + 1;
            }
            return None;
        }
        i = i + 1;
    }
    None
}

/// Hovering a package or class name in document `doc` shows the
/// documentation that `documentation` records for it, as
/// `(name, documentation)` pairs.
pub fn find_component_hover(db: &mut Database, doc: usize, offset: usize, documentation: &Vec<(String, String)>) -> (r: Option<Hover>)
    requires
        old(db).wf(),
        doc < old(db)@.len(),
    ensures
        final(db).wf(),
        final(db)@ == old(db)@,
        final(db).tree_fresh(doc as int),
        final(db).tree_of(doc as int).wf(),
        final(db).tree_of(doc as int).text@ == final(db)@[doc as int].text,
        final(db).tree_of(doc as int).language == final(db)@[doc as int].language,
        old(db).keeps_trees(&*final(db)),
        r.is_some() == component_hover(
            extras_of(final(db).tree_of(doc as int), final(db)@[doc as int].uri, doc_uris(final(db)@)).explicit_links,
            pairs_view(documentation@),
            offset as int,
        ).is_some(),
        r.is_some() ==> (r.unwrap().range, r.unwrap().text@) == component_hover(
            extras_of(final(db).tree_of(doc as int), final(db)@[doc as int].uri, doc_uris(final(db)@)).explicit_links,
            pairs_view(documentation@),
            offset as int,
        ).unwrap(),
{
    let extras = db.extras(doc);
    component_hover_in(&extras, documentation, offset)
}

} // verus!
