//! Features over a BibTeX document: going to a `@string` definition,
//! hovering a string reference, and the document's symbols.
use vstd::prelude::*;
use crate::database::Database;
use crate::lexer::{Language, TokenKind};
use crate::syntax::{children, child_nodes, lemma_node_tokens, lemma_token_in_text};
use crate::text::{TextRange, substring, slice_eq};
use crate::tree::{NodeKind, SyntaxTree, node_ok};

verus! {

/// A go-to-definition answer: where the request came from and where the
/// definition is.
#[derive(Debug, Clone, Copy, PartialEq, Eq, Structural)]
pub struct LocationLink {
    pub origin_range: TextRange,
    pub target: usize,
    pub target_range: TextRange,
    pub target_selection_range: TextRange,
}

/// A hover answer: the range hovered and the text to show.
#[derive(Debug, Clone, PartialEq, Eq)]
pub struct Hover {
    pub range: TextRange,
    pub text: String,
}

pub open spec fn token_range(tree: SyntaxTree, t: int) -> TextRange {
    TextRange { start: tree.tokens@[t].start, end: tree.tokens@[t].end }
}

pub open spec fn node_text_range(tree: SyntaxTree, k: int) -> TextRange {
    TextRange { start: tree.node_range(k).0 as usize, end: tree.node_range(k).1 as usize }
}

/// The first word token at or after `t` that touches `offset`.
pub open spec fn word_at(tree: SyntaxTree, offset: int, t: int) -> Option<int>
    decreases tree.tokens@.len() - t,
{
    if t < 0 || t >= tree.tokens@.len() {
        None
    } else if tree.tokens@[t].kind == TokenKind::Word && tree.tokens@[t].start <= offset <= tree.tokens@[t].end {
        Some(t)
    } else {
        word_at(tree, offset, t + 1)
    }
}

/// The innermost of the nodes `[0, k)` that spans token `t`.
pub open spec fn innermost(tree: SyntaxTree, t: int, k: int) -> Option<int>
    decreases k,
{
    if k <= 0 || k > tree.nodes@.len() {
        None
    } else if tree.nodes@[k - 1].first <= t < tree.nodes@[k - 1].last {
        Some(k - 1)
    } else {
        innermost(tree, t, k - 1)
    }
}

/// The first word token among tokens `[i, stop)`.
pub open spec fn first_word(tree: SyntaxTree, i: int, stop: int) -> Option<int>
    decreases stop - i,
{
    if i < 0 || i >= stop || i >= tree.tokens@.len() {
        None
    } else if tree.tokens@[i].kind == TokenKind::Word {
        Some(i)
    } else {
        first_word(tree, i + 1, stop)
    }
}

/// The name token of `@string` node `k`.
pub open spec fn string_name(tree: SyntaxTree, k: int) -> Option<int> {
    if tree.nodes@[k].kind == NodeKind::StringDef {
        first_word(tree, tree.nodes@[k].first + 1, tree.nodes@[k].last as int)
    } else {
        None
    }
}

/// The first `@string` node among the nodes `cs[i..]` named `name`.
pub open spec fn find_string_in(tree: SyntaxTree, name: Seq<char>, cs: Seq<int>, i: int) -> Option<int>
    decreases cs.len() - i,
{
    if i < 0 || i >= cs.len() {
        None
    } else if string_name(tree, cs[i]).is_some() && tree.token_text(string_name(tree, cs[i]).unwrap()) == name {
        Some(cs[i])
    } else {
        find_string_in(tree, name, cs, i + 1)
    }
}

/// The first top-level `@string` named `name`.
pub open spec fn find_string(tree: SyntaxTree, name: Seq<char>) -> Option<int> {
    find_string_in(tree, name, children(tree, 0), 0)
}

/// The first value node among nodes `[j, stop)`.
pub open spec fn first_value(tree: SyntaxTree, j: int, stop: int) -> Option<int>
    decreases stop - j,
{
    if j < 0 || j >= stop || j >= tree.nodes@.len() {
        None
    } else if tree.nodes@[j].kind == NodeKind::Value {
        Some(j)
    } else {
        first_value(tree, j + 1, stop)
    }
}

fn word_at_exec(tree: &SyntaxTree, offset: usize) -> (r: Option<usize>)
    requires
        tree.wf(),
    ensures
        r.is_some() == word_at(*tree, offset as int, 0).is_some(),
        r.is_some() ==> r.unwrap() as int == word_at(*tree, offset as int, 0).unwrap() && r.unwrap() < tree.tokens@.len(),
{
    let mut t: usize = 0;
    while t < tree.tokens.len()
        invariant
            t <= tree.tokens@.len(),
            word_at(*tree, offset as int, t as int) == word_at(*tree, offset as int, 0),
        decreases tree.tokens.len() - t,
    {
        let tok = tree.tokens[t];
        if tok.kind == TokenKind::Word && tok.start <= offset && offset <= tok.end {
            return Some(t);
        }
        t = t + 1;
    }
    None
}

fn innermost_exec(tree: &SyntaxTree, t: usize) -> (r: Option<usize>)
    requires
        tree.wf(),
    ensures
        r.is_some() == innermost(*tree, t as int, tree.nodes@.len() as int).is_some(),
        r.is_some() ==> r.unwrap() as int == innermost(*tree, t as int, tree.nodes@.len() as int).unwrap()
            && r.unwrap() < tree.nodes@.len(),
{
    let mut k: usize = tree.nodes.len();
    while k > 0
        invariant
            k <= tree.nodes@.len(),
            innermost(*tree, t as int, k as int) == innermost(*tree, t as int, tree.nodes@.len() as int),
        decreases k,
    {
        let n = tree.nodes[k - 1];
        if n.first <= t && t < n.last {
            return Some(k - 1);
        }
        k = k - 1;
    }
    None
}

fn string_name_exec(tree: &SyntaxTree, k: usize) -> (r: Option<usize>)
    requires
        tree.wf(),
        k < tree.nodes@.len(),
    ensures
        r.is_some() == string_name(*tree, k as int).is_some(),
        r.is_some() ==> r.unwrap() as int == string_name(*tree, k as int).unwrap() && r.unwrap() < tree.tokens@.len(),
{
    let n = tree.nodes[k];
    if n.kind != NodeKind::StringDef || n.first >= n.last {
        return None;
    }
    proof {
        assert(node_ok(tree.nodes@, k as int, tree.tokens@.len()));
    }
    let mut i: usize = n.first + 1;
    while i < n.last
        invariant
            tree.wf(),
            k < tree.nodes@.len(),
            n == tree.nodes@[k as int],
            n.kind == NodeKind::StringDef,
            n.last <= tree.tokens@.len(),
            n.first + 1 <= i,
            first_word(*tree, i as int, n.last as int) == first_word(*tree, n.first + 1, n.last as int),
        decreases n.last - i,
    {
        if tree.tokens[i].kind == TokenKind::Word {
            return Some(i);
        }
        i = i + 1;
    }
    None
}

/// Whether tokens `a` and `b` have the same text.
fn same_token_text(tree: &SyntaxTree, a: usize, b: usize) -> (r: bool)
    requires
        tree.wf(),
        a < tree.tokens@.len(),
        b < tree.tokens@.len(),
    ensures
        r == (tree.token_text(a as int) == tree.token_text(b as int)),
{
    proof {
        lemma_token_in_text(tree, a as int);
        lemma_token_in_text(tree, b as int);
    }
    let ta = tree.tokens[a];
    let tb = tree.tokens[b];
    let other = crate::text::slice_chars(&tree.text, tb.start, tb.end);
    slice_eq(&tree.text, ta.start, ta.end, &other)
}

fn find_string_exec(tree: &SyntaxTree, word: usize) -> (r: Option<(usize, usize)>)
    requires
        tree.wf(),
        word < tree.tokens@.len(),
    ensures
        r.is_some() == find_string(*tree, tree.token_text(word as int)).is_some(),
        r.is_some() ==> r.unwrap().0 as int == find_string(*tree, tree.token_text(word as int)).unwrap()
            && r.unwrap().0 < tree.nodes@.len()
            && string_name(*tree, r.unwrap().0 as int) == Some(r.unwrap().1 as int)
            && r.unwrap().1 < tree.tokens@.len(),
{
    let ghost name = tree.token_text(word as int);
    let top = child_nodes(tree, 0);
    let ghost tops = top@.map_values(|x: usize| x as int);
    let mut i: usize = 0;
    while i < top.len()
        invariant
            tree.wf(),
            word < tree.tokens@.len(),
            name == tree.token_text(word as int),
            i <= top@.len(),
            tops == top@.map_values(|x: usize| x as int),
            tops == children(*tree, 0),
            forall|m: int| 0 <= m < top@.len() ==> 0 < #[trigger] top@[m] < tree.nodes@.len(),
            find_string_in(*tree, name, tops, i as int) == find_string(*tree, name),
        decreases top.len() - i,
    {
        let k = top[i];
        assert(tops[i as int] == k as int);
        match string_name_exec(tree, k) {
            Some(t) => {
                if same_token_text(tree, t, word) {
                    return Some((k, t));
                }
            },
            None => {},
        }
        i = i + 1;
    }
    None
}

fn node_range_exec(tree: &SyntaxTree, k: usize) -> (r: TextRange)
    requires
        tree.wf(),
        k < tree.nodes@.len(),
        tree.nodes@[k as int].first < tree.nodes@[k as int].last,
    ensures
        r == node_text_range(*tree, k as int),
        r.start <= r.end <= tree.text@.len(),
{
    proof {
        lemma_node_tokens(tree, k as int);
        lemma_token_in_text(tree, tree.nodes@[k as int].last - 1);
    }
    let n = tree.nodes[k];
    TextRange { start: tree.tokens[n.first].start, end: tree.tokens[n.last - 1].end }
}

/// The definition of the `@string` that the word at `offset` refers to.
pub open spec fn string_definition(tree: SyntaxTree, doc: usize, offset: int) -> Option<LocationLink> {
    if tree.language != Language::Bibtex {
        None
    } else {
    match word_at(tree, offset, 0) {
        Some(t) => match innermost(tree, t, tree.nodes@.len() as int) {
            Some(p) => if tree.nodes@[p].kind == NodeKind::Reference {
                match find_string(tree, tree.token_text(t)) {
                    Some(k) => if tree.nodes@[k].first < tree.nodes@[k].last {
                        Some(LocationLink {
                            origin_range: token_range(tree, t),
                            target: doc,
                            target_range: node_text_range(tree, k),
                            target_selection_range: token_range(tree, string_name(tree, k).unwrap()),
                        })
                    } else {
                        None
                    },
                    None => None,
                }
            } else {
                None
            },
            None => None,
        },
        None => None,
    }
    }
}

/// Goes from a bare word in a field value to the `@string` that defines it.
pub fn string_definition_in(tree: &SyntaxTree, doc: usize, offset: usize) -> (r: Option<LocationLink>)
    requires
        tree.wf(),
    ensures
        r == string_definition(*tree, doc, offset as int),
{
    if tree.language != Language::Bibtex {
        return None;
    }
    let t = match word_at_exec(tree, offset) {
        Some(t) => t,
        None => return None,
    };
    let p = match innermost_exec(tree, t) {
        Some(p) => p,
        None => return None,
    };
    if tree.nodes[p].kind != NodeKind::Reference {
        return None;
    }
    let (k, name) = match find_string_exec(tree, t) {
        Some(x) => x,
        None => return None,
    };
    if tree.nodes[k].first >= tree.nodes[k].last {
        return None;
    }
    let target_range = node_range_exec(tree, k);
    let origin_range = TextRange { start: tree.tokens[t].start, end: tree.tokens[t].end };
    let target_selection_range = TextRange { start: tree.tokens[name].start, end: tree.tokens[name].end };
    Some(LocationLink { origin_range, target: doc, target_range, target_selection_range })
}

/// Goes to the `@string` definition of the bare word at `offset` in
/// BibTeX document `doc`.
pub fn goto_string_definition(db: &mut Database, doc: usize, offset: usize) -> (r: Option<LocationLink>)
    requires
        old(db).wf(),
        doc < old(db)@.len(),
    ensures
        final(db).wf(),
        final(db)@ == old(db)@,
        final(db).tree_fresh(doc as int),
        final(db).tree_of(doc as int).wf(),
        final(db).tree_of(doc as int).text@ == final(db)@[doc as int].text,
        final(db).tree_of(doc as int).language == final(db)@[doc as int].language,
        old(db).keeps_trees(&*final(db)),
        r == string_definition(final(db).tree_of(doc as int), doc, offset as int),
{
    db.refresh_tree(doc);
    let tree = db.tree_ref(doc);
    string_definition_in(tree, doc, offset)
}

fn first_value_exec(tree: &SyntaxTree, k: usize) -> (r: Option<usize>)
    requires
        tree.wf(),
        k < tree.nodes@.len(),
    ensures
        r.is_some() == first_value(*tree, k + 1, tree.nodes@[k as int].end as int).is_some(),
        r.is_some() ==> r.unwrap() as int == first_value(*tree, k + 1, tree.nodes@[k as int].end as int).unwrap()
            && r.unwrap() < tree.nodes@.len(),
{
    proof {
        assert(node_ok(tree.nodes@, k as int, tree.tokens@.len()));
    }
    let stop = tree.nodes[k].end;
    let mut j = k + 1;
    while j < stop
        invariant
            tree.wf(),
            k < j,
            stop <= tree.nodes@.len(),
            stop == tree.nodes@[k as int].end,
            first_value(*tree, j as int, stop as int) == first_value(*tree, k + 1, stop as int),
        decreases stop - j,
    {
        if tree.nodes[j].kind == NodeKind::Value {
            return Some(j);
        }
        j = j + 1;
    }
    None
}

/// The hover for the word at `offset`: when it names a `@string` (as a
/// reference in a value, or in the definition itself), the text of that
/// string's value.
pub open spec fn string_hover(tree: SyntaxTree, offset: int) -> Option<(TextRange, Seq<char>)> {
    if tree.language != Language::Bibtex {
        None
    } else {
    match word_at(tree, offset, 0) {
        Some(t) => match innermost(tree, t, tree.nodes@.len() as int) {
            Some(p) => if tree.nodes@[p].kind == NodeKind::Reference || tree.nodes@[p].kind == NodeKind::StringDef {
                match find_string(tree, tree.token_text(t)) {
                    Some(k) => match first_value(tree, k + 1, tree.nodes@[k].end as int) {
                        Some(v) => if tree.nodes@[v].first < tree.nodes@[v].last {
                            Some((token_range(tree, t), tree.text@.subrange(tree.node_range(v).0, tree.node_range(v).1)))
                        } else {
                            None
                        },
                        None => None,
                    },
                    None => None,
                }
            } else {
                None
            },
            None => None,
        },
        None => None,
    }
    }
}

pub fn string_hover_in(tree: &SyntaxTree, offset: usize) -> (r: Option<Hover>)
    requires
        tree.wf(),
    ensures
        r.is_some() == string_hover(*tree, offset as int).is_some(),
        r.is_some() ==> (r.unwrap().range, r.unwrap().text@) == string_hover(*tree, offset as int).unwrap(),
{
    if tree.language != Language::Bibtex {
        return None;
    }
    let t = match word_at_exec(tree, offset) {
        Some(t) => t,
        None => return None,
    };
    let p = match innermost_exec(tree, t) {
        Some(p) => p,
        None => return None,
    };
    if tree.nodes[p].kind != NodeKind::Reference && tree.nodes[p].kind != NodeKind::StringDef {
        return None;
    }
    let (k, _name) = match find_string_exec(tree, t) {
        Some(x) => x,
        None => return None,
    };
    let v = match first_value_exec(tree, k) {
        Some(v) => v,
        None => return None,
    };
    if tree.nodes[v].first >= tree.nodes[v].last {
        return None;
    }
    let range = node_range_exec(tree, v);
    let text = substring(&tree.text, range.start, range.end);
    Some(Hover { range: TextRange { start: tree.tokens[t].start, end: tree.tokens[t].end }, text })
}

/// Hovering a `@string` name in BibTeX document `doc` shows its value.
pub fn find_string_reference_hover(db: &mut Database, doc: usize, offset: usize) -> (r: Option<Hover>)
    requires
        old(db).wf(),
        doc < old(db)@.len(),
    ensures
        final(db).wf(),
        final(db)@ == old(db)@,
        final(db).tree_fresh(doc as int),
        final(db).tree_of(doc as int).wf(),
        final(db).tree_of(doc as int).text@ == final(db)@[doc as int].text,
        final(db).tree_of(doc as int).language == final(db)@[doc as int].language,
        old(db).keeps_trees(&*final(db)),
        r.is_some() == string_hover(final(db).tree_of(doc as int), offset as int).is_some(),
        r.is_some() ==> (r.unwrap().range, r.unwrap().text@) == string_hover(final(db).tree_of(doc as int), offset as int).unwrap(),
{
    db.refresh_tree(doc);
    let tree = db.tree_ref(doc);
    string_hover_in(tree, offset)
}

#[derive(Debug, Clone, Copy, PartialEq, Eq, Structural)]
pub enum BibtexSymbolKind {
    String,
    Entry,
}

/// A field of an entry: its name and where it stands.
#[derive(Debug, Clone, PartialEq, Eq)]
pub struct FieldSymbol {
    pub name: String,
    pub full_range: TextRange,
    pub selection_range: TextRange,
}

/// A named part of a BibTeX document: a `@string`, an entry (named by its
/// key, with its fields as children) or a field.
#[derive(Debug, Clone, PartialEq, Eq)]
pub struct BibtexSymbol {
    pub name: String,
    pub kind: BibtexSymbolKind,
    pub entry_type: String,
    pub full_range: TextRange,
    pub selection_range: TextRange,
    pub children: Vec<FieldSymbol>,
}

/// The key token of entry node `k`: a word right after the opening
/// delimiter, trivia aside.
pub open spec fn entry_key(tree: SyntaxTree, k: int) -> Option<int> {
    let n = tree.nodes@[k];
    let o = skip_trivia_spec(tree, n.first + 1, n.last as int);
    if n.kind == NodeKind::Entry && o < n.last && (tree.tokens@[o].kind == TokenKind::LCurly || tree.tokens@[o].kind == TokenKind::LParen) {
        let q = skip_trivia_spec(tree, o + 1, n.last as int);
        if q < n.last && tree.tokens@[q].kind == TokenKind::Word {
            Some(q)
        } else {
            None
        }
    } else {
        None
    }
}

pub open spec fn skip_trivia_spec(tree: SyntaxTree, i: int, stop: int) -> int
    decreases stop - i,
{
    if 0 <= i < stop && i < tree.tokens@.len() && (tree.tokens@[i].kind == TokenKind::Whitespace || tree.tokens@[i].kind == TokenKind::Comment) {
        skip_trivia_spec(tree, i + 1, stop)
    } else {
        i
    }
}

proof fn lemma_skip_trivia_spec(tree: SyntaxTree, i: int, stop: int)
    requires
        i <= stop,
    ensures
        i <= skip_trivia_spec(tree, i, stop) <= stop,
    decreases stop - i,
{
    if 0 <= i < stop && i < tree.tokens@.len() && (tree.tokens@[i].kind == TokenKind::Whitespace || tree.tokens@[i].kind == TokenKind::Comment) {
        lemma_skip_trivia_spec(tree, i + 1, stop);
    }
}

fn skip_trivia_exec(tree: &SyntaxTree, i: usize, stop: usize) -> (r: usize)
    requires
        i <= stop <= tree.tokens@.len(),
    ensures
        r as int == skip_trivia_spec(*tree, i as int, stop as int),
        i <= r <= stop,
{
    proof {
        lemma_skip_trivia_spec(*tree, i as int, stop as int);
    }
    let mut j = i;
    while j < stop && (tree.tokens[j].kind == TokenKind::Whitespace || tree.tokens[j].kind == TokenKind::Comment)
        invariant
            i <= j <= stop <= tree.tokens@.len(),
            skip_trivia_spec(*tree, j as int, stop as int) == skip_trivia_spec(*tree, i as int, stop as int),
        decreases stop - j,
    {
        j = j + 1;
    }
    j
}

fn entry_key_exec(tree: &SyntaxTree, k: usize) -> (r: Option<usize>)
    requires
        tree.wf(),
        k < tree.nodes@.len(),
    ensures
        r.is_some() == entry_key(*tree, k as int).is_some(),
        r.is_some() ==> r.unwrap() as int == entry_key(*tree, k as int).unwrap() && r.unwrap() < tree.tokens@.len(),
{
    proof {
        assert(node_ok(tree.nodes@, k as int, tree.tokens@.len()));
    }
    let n = tree.nodes[k];
    if n.kind != NodeKind::Entry || n.first >= n.last {
        return None;
    }
    let o = skip_trivia_exec(tree, n.first + 1, n.last);
    if o < n.last && (tree.tokens[o].kind == TokenKind::LCurly || tree.tokens[o].kind == TokenKind::LParen) {
        let q = skip_trivia_exec(tree, o + 1, n.last);
        if q < n.last && tree.tokens[q].kind == TokenKind::Word {
            return Some(q);
        }
    }
    None
}

fn token_string(tree: &SyntaxTree, t: usize) -> (r: String)
    requires
        tree.wf(),
        t < tree.tokens@.len(),
    ensures
        r@ == tree.token_text(t as int),
{
    proof {
        lemma_token_in_text(tree, t as int);
    }
    substring(&tree.text, tree.tokens[t].start, tree.tokens[t].end)
}

pub type FieldV = (Seq<char>, TextRange, TextRange);
pub type SymbolV = (BibtexSymbolKind, Seq<char>, Seq<char>, TextRange, TextRange, Seq<FieldV>);

pub open spec fn field_v(f: FieldSymbol) -> FieldV {
    (f.name@, f.full_range, f.selection_range)
}

pub open spec fn fields_view(v: Seq<FieldSymbol>) -> Seq<FieldV> {
    v.map_values(|f: FieldSymbol| field_v(f))
}

pub open spec fn symbol_v(s: BibtexSymbol) -> SymbolV {
    (s.kind, s.name@, s.entry_type@, s.full_range, s.selection_range, fields_view(s.children@))
}

pub open spec fn symbols_view(v: Seq<BibtexSymbol>) -> Seq<SymbolV> {
    v.map_values(|s: BibtexSymbol| symbol_v(s))
}

/// The fields among the nodes `cs`: name, whole range, and name range.
pub open spec fn field_symbols(tree: SyntaxTree, cs: Seq<int>) -> Seq<FieldV>
    decreases cs.len(),
{
    if cs.len() == 0 {
        Seq::empty()
    } else {
        let c = cs.last();
        let n = tree.nodes@[c];
        field_symbols(tree, cs.drop_last()) + if n.kind == NodeKind::Field && n.first < n.last {
            seq![(tree.token_text(n.first as int), node_text_range(tree, c), token_range(tree, n.first as int))]
        } else {
            Seq::empty()
        }
    }
}

/// The type of entry node `k`, without its `@`.
pub open spec fn entry_type_text(tree: SyntaxTree, k: int) -> Seq<char> {
    let ty = tree.tokens@[tree.nodes@[k].first as int];
    if ty.kind == TokenKind::EntryType && ty.start < ty.end {
        tree.text@.subrange(ty.start + 1, ty.end as int)
    } else {
        Seq::empty()
    }
}

/// The symbol of node `k`, if it is a named `@string` or an entry with a key.
pub open spec fn node_symbol(tree: SyntaxTree, k: int) -> Option<SymbolV> {
    if tree.nodes@[k].first >= tree.nodes@[k].last {
        None
    } else if string_name(tree, k) is Some {
        let t = string_name(tree, k).unwrap();
        Some((BibtexSymbolKind::String, tree.token_text(t), Seq::empty(), node_text_range(tree, k), token_range(tree, t), Seq::empty()))
    } else if entry_key(tree, k) is Some {
        let t = entry_key(tree, k).unwrap();
        Some((BibtexSymbolKind::Entry, tree.token_text(t), entry_type_text(tree, k), node_text_range(tree, k), token_range(tree, t),
            field_symbols(tree, children(tree, k))))
    } else {
        None
    }
}

/// The symbols of the nodes `cs`, in order.
pub open spec fn symbols_of(tree: SyntaxTree, cs: Seq<int>) -> Seq<SymbolV>
    decreases cs.len(),
{
    if cs.len() == 0 {
        Seq::empty()
    } else {
        symbols_of(tree, cs.drop_last()) + match node_symbol(tree, cs.last()) {
            Some(sym) => seq![sym],
            None => Seq::empty(),
        }
    }
}

/// The symbols of a BibTeX tree: those of the root's children. Other
/// languages have none.
pub open spec fn bibtex_symbols(tree: SyntaxTree) -> Seq<SymbolV> {
    if tree.language == Language::Bibtex {
        symbols_of(tree, children(tree, 0))
    } else {
        Seq::empty()
    }
}

/// The symbols of a BibTeX tree, in document order: each named `@string`,
/// and each entry with a key, with one child per field.
pub fn bibtex_symbols_in(tree: &SyntaxTree) -> (r: Vec<BibtexSymbol>)
    requires
        tree.wf(),
    ensures
        symbols_view(r@) == bibtex_symbols(*tree),
{
    let mut r: Vec<BibtexSymbol> = Vec::new();
    assert(symbols_view(r@) =~= Seq::<SymbolV>::empty());
    if tree.language != Language::Bibtex {
        return r;
    }
    let top = child_nodes(tree, 0);
    let ghost tops = top@.map_values(|x: usize| x as int);
    let mut q: usize = 0;
    while q < top.len()
        invariant
            tree.wf(),
            tree.language == Language::Bibtex,
            q <= top@.len(),
            tops == top@.map_values(|x: usize| x as int),
            tops == children(*tree, 0),
            forall|m: int| 0 <= m < top@.len() ==> 0 < #[trigger] top@[m] < tree.nodes@.len(),
            symbols_view(r@) == symbols_of(*tree, tops.take(q as int)),
        decreases top.len() - q,
    {
        let k = top[q];
        assert(tops.take(q + 1).drop_last() =~= tops.take(q as int));
        assert(tops.take(q + 1).last() == k as int);
        let ghost before = symbols_view(r@);
        if tree.nodes[k].first < tree.nodes[k].last {
            let full_range = node_range_exec(tree, k);
            match string_name_exec(tree, k) {
                Some(t) => {
                    let name = token_string(tree, t);
                    let selection_range = TextRange { start: tree.tokens[t].start, end: tree.tokens[t].end };
                    let sym = BibtexSymbol { name, kind: BibtexSymbolKind::String, entry_type: String::new(), full_range, selection_range, children: Vec::new() };
                    assert(fields_view(sym.children@) =~= Seq::<FieldV>::empty());
                    r.push(sym);
                    assert(symbols_view(r@) =~= before + seq![symbol_v(sym)]);
                },
                None => match entry_key_exec(tree, k) {
                    Some(t) => {
                        let name = token_string(tree, t);
                        let selection_range = TextRange { start: tree.tokens[t].start, end: tree.tokens[t].end };
                        let mut children: Vec<FieldSymbol> = Vec::new();
                        let cs = child_nodes(tree, k);
                        let ghost css = cs@.map_values(|x: usize| x as int);
                        assert(fields_view(children@) =~= Seq::<FieldV>::empty());
                        let mut i: usize = 0;
                        while i < cs.len()
                            invariant
                                tree.wf(),
                                i <= cs@.len(),
                                css == cs@.map_values(|x: usize| x as int),
                                forall|m: int| 0 <= m < cs@.len() ==> k < #[trigger] cs@[m] < tree.nodes@.len(),
                                fields_view(children@) == field_symbols(*tree, css.take(i as int)),
                            decreases cs.len() - i,
                        {
                            let c = cs[i];
                            let cn = tree.nodes[c];
                            assert(css.take(i + 1).drop_last() =~= css.take(i as int));
                            assert(css.take(i + 1).last() == c as int);
                            let ghost fb = fields_view(children@);
                            if cn.kind == NodeKind::Field && cn.first < cn.last {
                                let field_range = node_range_exec(tree, c);
                                proof {
                                    assert(node_ok(tree.nodes@, c as int, tree.tokens@.len()));
                                }
                                let fname = token_string(tree, cn.first);
                                let fsel = TextRange { start: tree.tokens[cn.first].start, end: tree.tokens[cn.first].end };
                                let f = FieldSymbol { name: fname, full_range: field_range, selection_range: fsel };
                                children.push(f);
                                assert(fields_view(children@) =~= fb + seq![field_v(f)]);
                            } else {
                                assert(fb + Seq::<FieldV>::empty() =~= fb);
                            }
                            i = i + 1;
                        }
                        assert(css.take(i as int) =~= css);
                        proof {
                            assert(node_ok(tree.nodes@, k as int, tree.tokens@.len()));
                            lemma_token_in_text(tree, tree.nodes@[k as int].first as int);
                        }
                        let ty = tree.tokens[tree.nodes[k].first];
                        let entry_type = if ty.kind == TokenKind::EntryType && ty.start < ty.end {
                            substring(&tree.text, ty.start + 1, ty.end)
                        } else {
                            String::new()
                        };
                        let sym = BibtexSymbol { name, kind: BibtexSymbolKind::Entry, entry_type, full_range, selection_range, children };
                        r.push(sym);
                        assert(symbols_view(r@) =~= before + seq![symbol_v(sym)]);
                    },
                    None => {
                        assert(before + Seq::<SymbolV>::empty() =~= before);
                    },
                },
            }
        } else {
            assert(before + Seq::<SymbolV>::empty() =~= before);
        }
        q = q + 1;
    }
    assert(tops.take(q as int) =~= tops);
    r
}

/// The symbols of BibTeX document `doc`.
pub fn find_bibtex_symbols(db: &mut Database, doc: usize) -> (r: Vec<BibtexSymbol>)
    requires
        old(db).wf(),
        doc < old(db)@.len(),
    ensures
        final(db).wf(),
        final(db)@ == old(db)@,
        final(db).tree_fresh(doc as int),
        final(db).tree_of(doc as int).wf(),
        final(db).tree_of(doc as int).text@ == final(db)@[doc as int].text,
        final(db).tree_of(doc as int).language == final(db)@[doc as int].language,
        old(db).keeps_trees(&*final(db)),
        symbols_view(r@) == bibtex_symbols(final(db).tree_of(doc as int)),
{
    db.refresh_tree(doc);
    let tree = db.tree_ref(doc);
    bibtex_symbols_in(tree)
}

} // verus!
