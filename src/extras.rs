//! The per-document fact sheet and the walk that fills it.
use vstd::prelude::*;
use crate::analysis::{arg_items, arg_items_exec, arg_key, arg_key_exec, command_is, curly_arg, curly_arg_exec, first_token_text, is_command, key_range_exec, slice};
use crate::syntax::{children, child_nodes, lemma_node_tokens};
use crate::text::{TextRange, substring, slice_eq, to_chars};
use crate::tree::{NodeKind, SyntaxTree, node_ok};

verus! {

#[derive(Debug, Clone, Copy, PartialEq, Eq, Structural)]
pub enum ExplicitLinkKind {
    Package,
    Class,
    Latex,
    Bibtex,
}

/// A label definition (`\label`) or reference (`\ref` and the like).
#[derive(Debug, Clone, PartialEq, Eq)]
pub struct LabelName {
    pub text: String,
    pub range: TextRange,
    pub is_definition: bool,
}

/// The rendered number of a label, from a `\newlabel` line of an aux file.
#[derive(Debug, Clone, PartialEq, Eq)]
pub struct LabelNumber {
    pub name: String,
    pub number: String,
}

/// A reference to another file: an input, a bibliography, a package or a
/// class. `targets` are the known documents it resolves to.
#[derive(Debug, Clone, PartialEq, Eq)]
pub struct ExplicitLink {
    pub stem: String,
    pub stem_range: TextRange,
    pub targets: Vec<usize>,
    pub kind: ExplicitLinkKind,
}

#[derive(Debug, Clone, PartialEq, Eq, Default)]
pub struct TheoremEnvironment {
    pub name: String,
    pub description: String,
}

/// The files a build of the document produces next to it.
#[derive(Debug, Clone, PartialEq, Eq, Default)]
pub struct ImplicitLinks {
    pub aux: Vec<String>,
    pub log: Vec<String>,
    pub pdf: Vec<String>,
}

/// The facts collected from one document.
#[derive(Debug, Clone, PartialEq, Eq, Default)]
pub struct Extras {
    pub implicit_links: ImplicitLinks,
    pub explicit_links: Vec<ExplicitLink>,
    pub has_document_environment: bool,
    pub command_names: Vec<String>,
    pub environment_names: Vec<String>,
    pub label_names: Vec<LabelName>,
    pub label_numbers: Vec<LabelNumber>,
    pub theorem_environments: Vec<TheoremEnvironment>,
    pub graphics_paths: Vec<String>,
}

pub type LabelV = (Seq<char>, TextRange, bool);
pub type LinkV = (Seq<char>, TextRange, Seq<usize>, ExplicitLinkKind);
pub type PairV = (Seq<char>, Seq<char>);

pub struct ExtrasView {
    pub aux: Seq<Seq<char>>,
    pub log: Seq<Seq<char>>,
    pub pdf: Seq<Seq<char>>,
    pub explicit_links: Seq<LinkV>,
    pub has_document_environment: bool,
    pub command_names: Seq<Seq<char>>,
    pub environment_names: Seq<Seq<char>>,
    pub label_names: Seq<LabelV>,
    pub label_numbers: Seq<PairV>,
    pub theorem_environments: Seq<PairV>,
    pub graphics_paths: Seq<Seq<char>>,
}

pub open spec fn strs(v: Seq<String>) -> Seq<Seq<char>> {
    v.map_values(|s: String| s@)
}

pub open spec fn labels_view(v: Seq<LabelName>) -> Seq<LabelV> {
    v.map_values(|l: LabelName| label_v(l))
}

pub open spec fn links_view(v: Seq<ExplicitLink>) -> Seq<LinkV> {
    v.map_values(|l: ExplicitLink| link_v(l))
}

pub open spec fn label_v(l: LabelName) -> LabelV {
    (l.text@, l.range, l.is_definition)
}

pub open spec fn link_v(l: ExplicitLink) -> LinkV {
    (l.stem@, l.stem_range, l.targets@, l.kind)
}

pub open spec fn number_v(l: LabelNumber) -> PairV {
    (l.name@, l.number@)
}

pub open spec fn theorem_v(t: TheoremEnvironment) -> PairV {
    (t.name@, t.description@)
}

impl View for Extras {
    type V = ExtrasView;

    open spec fn view(&self) -> ExtrasView {
        ExtrasView {
            aux: strs(self.implicit_links.aux@),
            log: strs(self.implicit_links.log@),
            pdf: strs(self.implicit_links.pdf@),
            explicit_links: links_view(self.explicit_links@),
            has_document_environment: self.has_document_environment,
            command_names: strs(self.command_names@),
            environment_names: strs(self.environment_names@),
            label_names: labels_view(self.label_names@),
            label_numbers: numbers_view(self.label_numbers@),
            theorem_environments: self.theorem_environments@.map_values(|t: TheoremEnvironment| theorem_v(t)),
            graphics_paths: strs(self.graphics_paths@),
        }
    }
}

impl Extras {
    /// No facts at all.
    pub fn empty() -> (r: Extras)
        ensures
            r@ == (ExtrasView {
                aux: Seq::empty(),
                log: Seq::empty(),
                pdf: Seq::empty(),
                explicit_links: Seq::empty(),
                has_document_environment: false,
                command_names: Seq::empty(),
                environment_names: Seq::empty(),
                label_names: Seq::empty(),
                label_numbers: Seq::empty(),
                theorem_environments: Seq::empty(),
                graphics_paths: Seq::empty(),
            }),
    {
        let r = Extras {
            implicit_links: ImplicitLinks { aux: Vec::new(), log: Vec::new(), pdf: Vec::new() },
            explicit_links: Vec::new(),
            has_document_environment: false,
            command_names: Vec::new(),
            environment_names: Vec::new(),
            label_names: Vec::new(),
            label_numbers: Vec::new(),
            theorem_environments: Vec::new(),
            graphics_paths: Vec::new(),
        };
        assert(r@.aux =~= Seq::<Seq<char>>::empty());
        assert(r@.log =~= Seq::<Seq<char>>::empty());
        assert(r@.pdf =~= Seq::<Seq<char>>::empty());
        assert(r@.explicit_links =~= Seq::<LinkV>::empty());
        assert(r@.command_names =~= Seq::<Seq<char>>::empty());
        assert(r@.environment_names =~= Seq::<Seq<char>>::empty());
        assert(r@.label_names =~= Seq::<LabelV>::empty());
        assert(r@.label_numbers =~= Seq::<PairV>::empty());
        assert(r@.theorem_environments =~= Seq::<PairV>::empty());
        assert(r@.graphics_paths =~= Seq::<Seq<char>>::empty());
        r
    }
}

/// `s` with `x` appended unless it already holds it.
pub open spec fn add_unique(s: Seq<Seq<char>>, x: Seq<char>) -> Seq<Seq<char>> {
    if s.contains(x) {
        s
    } else {
        s.push(x)
    }
}

pub open spec fn add_all_unique(s: Seq<Seq<char>>, xs: Seq<Seq<char>>) -> Seq<Seq<char>>
    decreases xs.len(),
{
    if xs.len() == 0 {
        s
    } else {
        add_unique(add_all_unique(s, xs.drop_last()), xs.last())
    }
}

/// Appends `x` to `v` unless an equal string is already there.
pub fn push_unique(v: &mut Vec<String>, x: String)
    ensures
        strs(final(v)@) == add_unique(strs(old(v)@), x@),
{
    let mut i: usize = 0;
    while i < v.len()
        invariant
            i <= v@.len(),
            v@ == old(v)@,
            forall|j: int| 0 <= j < i ==> v@[j]@ != x@,
        decreases v.len() - i,
    {
        if v[i] == x {
            assert(strs(v@)[i as int] == x@);
            assert(strs(v@).contains(x@));
            return;
        }
        i = i + 1;
    }
    assert(!strs(v@).contains(x@)) by {
        if strs(v@).contains(x@) {
            let j = choose|j: int| 0 <= j < strs(v@).len() && strs(v@)[j] == x@;
            assert(v@[j]@ == x@);
        }
    }
    let ghost before = v@;
    v.push(x);
    assert(strs(v@) =~= strs(before).push(x@));
}

pub open spec fn range_of(it: (int, int)) -> TextRange {
    TextRange { start: it.0 as usize, end: it.1 as usize }
}

/// Which label commands define (`true`) or reference (`false`) a label.
pub open spec fn label_command(name: Seq<char>) -> Option<bool> {
    if name == "\\label"@ {
        Some(true)
    } else if name == "\\ref"@ || name == "\\eqref"@ || name == "\\pageref"@ || name == "\\autoref"@
        || name == "\\cref"@ || name == "\\Cref"@ || name == "\\vref"@ || name == "\\nameref"@ {
        Some(false)
    } else {
        None
    }
}

pub open spec fn labels_of_items(tree: SyntaxTree, items: Seq<(int, int)>, def: bool) -> Seq<LabelV>
    decreases items.len(),
{
    if items.len() == 0 {
        Seq::empty()
    } else {
        labels_of_items(tree, items.drop_last(), def).push((slice(tree, items.last()), range_of(items.last()), def))
    }
}

/// The labels that node `k` defines or references.
pub open spec fn node_labels(tree: SyntaxTree, k: int) -> Seq<LabelV> {
    if is_command(tree, k) && label_command(first_token_text(tree, k)).is_some() {
        labels_of_items(tree, arg_items(tree, k), label_command(first_token_text(tree, k)).unwrap())
    } else {
        Seq::empty()
    }
}

fn label_command_exec(tree: &SyntaxTree, k: usize) -> (r: Option<bool>)
    requires
        tree.wf(),
        k < tree.nodes@.len(),
    ensures
        r == (if is_command(*tree, k as int) { label_command(first_token_text(*tree, k as int)) } else { None }),
{
    if command_is(tree, k, "\\label") {
        Some(true)
    } else if command_is(tree, k, "\\ref") || command_is(tree, k, "\\eqref") || command_is(tree, k, "\\pageref")
        || command_is(tree, k, "\\autoref") || command_is(tree, k, "\\cref") || command_is(tree, k, "\\Cref")
        || command_is(tree, k, "\\vref") || command_is(tree, k, "\\nameref") {
        Some(false)
    } else {
        None
    }
}

/// Appends the labels of node `k`.
fn add_labels(tree: &SyntaxTree, k: usize, out: &mut Vec<LabelName>)
    requires
        tree.wf(),
        k < tree.nodes@.len(),
    ensures
        labels_view(final(out)@) == labels_view(old(out)@)
            + node_labels(*tree, k as int),
{
    let ghost start = labels_view(out@);
    match label_command_exec(tree, k) {
        Some(def) => {
            let items = arg_items_exec(tree, k);
            let ghost spec_items = arg_items(*tree, k as int);
            let mut i: usize = 0;
            while i < items.len()
                invariant
                    i <= items@.len(),
                    items@.map_values(|x: (usize, usize)| (x.0 as int, x.1 as int)) == spec_items,
                    forall|m: int| 0 <= m < items@.len() ==> (#[trigger] items@[m]).0 < items@[m].1 <= tree.text@.len(),
                    labels_view(out@) == start + labels_of_items(*tree, spec_items.take(i as int), def),
                decreases items.len() - i,
            {
                let (a, b) = items[i];
                let ghost before = out@;
                assert(spec_items[i as int] == (a as int, b as int));
                let text = substring(&tree.text, a, b);
                let ghost fv = (tree.text@.subrange(a as int, b as int), TextRange { start: a, end: b }, def);
                out.push(LabelName { text, range: TextRange { start: a, end: b }, is_definition: def });
                assert(labels_view(out@) =~= labels_view(before).push(fv));
                assert(spec_items.take(i + 1).drop_last() =~= spec_items.take(i as int));
                assert(labels_of_items(*tree, spec_items.take(i + 1), def) == labels_of_items(*tree, spec_items.take(i as int), def).push(fv));
                i = i + 1;
            }
            assert(spec_items.take(i as int) =~= spec_items);
            assert(labels_view(out@) == start + node_labels(*tree, k as int));
        },
        None => {
            assert(start + Seq::<LabelV>::empty() =~= start);
        },
    }
}

/// The file extension that a link kind resolves with.
pub open spec fn link_ext(kind: ExplicitLinkKind) -> Seq<char> {
    match kind {
        ExplicitLinkKind::Latex => ".tex"@,
        ExplicitLinkKind::Bibtex => ".bib"@,
        ExplicitLinkKind::Package => ".sty"@,
        ExplicitLinkKind::Class => ".cls"@,
    }
}

fn link_ext_exec(kind: ExplicitLinkKind) -> (r: Vec<char>)
    ensures
        r@ == link_ext(kind),
{
    match kind {
        ExplicitLinkKind::Latex => to_chars(".tex"),
        ExplicitLinkKind::Bibtex => to_chars(".bib"),
        ExplicitLinkKind::Package => to_chars(".sty"),
        ExplicitLinkKind::Class => to_chars(".cls"),
    }
}

/// Which commands link to another file, and how.
pub open spec fn link_command(name: Seq<char>) -> Option<ExplicitLinkKind> {
    if name == "\\input"@ || name == "\\includ\x65"@ || name == "\\subfile"@ || name == "\\subfileinclud\x65"@ {
        Some(ExplicitLinkKind::Latex)
    } else if name == "\\bibliography"@ || name == "\\addbibresource"@ {
        Some(ExplicitLinkKind::Bibtex)
    } else if name == "\\usepackage"@ || name == "\\RequirePackage"@ {
        Some(ExplicitLinkKind::Package)
    } else if name == "\\documentclass"@ || name == "\\LoadClass"@ {
        Some(ExplicitLinkKind::Class)
    } else {
        None
    }
}

fn link_command_exec(tree: &SyntaxTree, k: usize) -> (r: Option<ExplicitLinkKind>)
    requires
        tree.wf(),
        k < tree.nodes@.len(),
    ensures
        r == (if is_command(*tree, k as int) { link_command(first_token_text(*tree, k as int)) } else { None }),
{
    if command_is(tree, k, "\\input") || command_is(tree, k, "\\includ\x65") || command_is(tree, k, "\\subfile")
        || command_is(tree, k, "\\subfileinclud\x65") {
        Some(ExplicitLinkKind::Latex)
    } else if command_is(tree, k, "\\bibliography") || command_is(tree, k, "\\addbibresource") {
        Some(ExplicitLinkKind::Bibtex)
    } else if command_is(tree, k, "\\usepackage") || command_is(tree, k, "\\RequirePackage") {
        Some(ExplicitLinkKind::Package)
    } else if command_is(tree, k, "\\documentclass") || command_is(tree, k, "\\LoadClass") {
        Some(ExplicitLinkKind::Class)
    } else {
        None
    }
}

pub open spec fn ends_with(s: Seq<char>, suffix: Seq<char>) -> bool {
    suffix.len() <= s.len() && s.subrange(s.len() - suffix.len(), s.len() as int) == suffix
}

/// `s` without the extension `ext`, if it ends with it.
pub open spec fn strip_ext(s: Seq<char>, ext: Seq<char>) -> Seq<char> {
    if ends_with(s, ext) {
        s.subrange(0, s.len() - ext.len())
    } else {
        s
    }
}

/// A document URI names the file `base` + `ext`, in any directory.
pub open spec fn link_matches(uri: Seq<char>, base: Seq<char>, ext: Seq<char>) -> bool {
    let n = uri.len() as int;
    let l = base.len() + ext.len();
    &&& l <= n
    &&& (n == l || uri[n - l - 1] == '/')
    &&& uri.subrange(n - l, n - ext.len()) == base
    &&& uri.subrange(n - ext.len(), n) == ext
}

/// The indices of the URIs that name `base` + `ext`, in order.
pub open spec fn matching_docs(uris: Seq<Seq<char>>, base: Seq<char>, ext: Seq<char>) -> Seq<usize>
    decreases uris.len(),
{
    if uris.len() == 0 {
        Seq::empty()
    } else {
        let rest = matching_docs(uris.drop_last(), base, ext);
        if link_matches(uris.last(), base, ext) {
            rest.push((uris.len() - 1) as usize)
        } else {
            rest
        }
    }
}

pub open spec fn uri_views(uris: Seq<Vec<char>>) -> Seq<Seq<char>> {
    uris.map_values(|u: Vec<char>| u@)
}

fn ends_with_exec(s: &Vec<char>, suffix: &Vec<char>) -> (r: bool)
    ensures
        r == ends_with(s@, suffix@),
{
    if suffix.len() > s.len() {
        false
    } else {
        slice_eq(s, s.len() - suffix.len(), s.len(), suffix)
    }
}

fn strip_ext_exec(s: &Vec<char>, ext: &Vec<char>) -> (r: Vec<char>)
    ensures
        r@ == strip_ext(s@, ext@),
{
    let keep = if ends_with_exec(s, ext) { s.len() - ext.len() } else { s.len() };
    let mut r: Vec<char> = Vec::new();
    let mut i: usize = 0;
    while i < keep
        invariant
            keep <= s@.len(),
            i <= keep,
            r@ == s@.subrange(0, i as int),
        decreases keep - i,
    {
        r.push(s[i]);
        i = i + 1;
    }
    assert(s@.subrange(0, s@.len() as int) =~= s@);
    r
}

fn link_matches_exec(uri: &Vec<char>, base: &Vec<char>, ext: &Vec<char>) -> (r: bool)
    ensures
        r == link_matches(uri@, base@, ext@),
{
    let n = uri.len();
    if base.len() > n || ext.len() > n - base.len() {
        return false;
    }
    let l = base.len() + ext.len();
    if n != l && uri[n - l - 1] != '/' {
        return false;
    }
    slice_eq(uri, n - l, n - ext.len(), base) && slice_eq(uri, n - ext.len(), n, ext)
}

/// The known documents that a link with stem `base` and extension `ext`
/// resolves to: those whose URI names that file.
pub fn resolve_link(uris: &Vec<Vec<char>>, base: &Vec<char>, ext: &Vec<char>) -> (r: Vec<usize>)
    ensures
        r@ == matching_docs(uri_views(uris@), base@, ext@),
{
    let mut r: Vec<usize> = Vec::new();
    let mut i: usize = 0;
    while i < uris.len()
        invariant
            i <= uris@.len(),
            r@ == matching_docs(uri_views(uris@).take(i as int), base@, ext@),
        decreases uris.len() - i,
    {
        assert(uri_views(uris@).take(i + 1).drop_last() =~= uri_views(uris@).take(i as int));
        if link_matches_exec(&uris[i], base, ext) {
            r.push(i);
        }
        i = i + 1;
    }
    assert(uri_views(uris@).take(i as int) =~= uri_views(uris@));
    r
}

/// The stem recorded for an item: package and class names lose their extension.
pub open spec fn link_stem(item: Seq<char>, kind: ExplicitLinkKind) -> Seq<char> {
    match kind {
        ExplicitLinkKind::Package | ExplicitLinkKind::Class => strip_ext(item, link_ext(kind)),
        _ => item,
    }
}

pub open spec fn link_of(tree: SyntaxTree, it: (int, int), kind: ExplicitLinkKind, uris: Seq<Seq<char>>) -> LinkV {
    let stem = link_stem(slice(tree, it), kind);
    (stem, range_of(it), matching_docs(uris, strip_ext(stem, link_ext(kind)), link_ext(kind)), kind)
}

pub open spec fn links_of_items(tree: SyntaxTree, items: Seq<(int, int)>, kind: ExplicitLinkKind, uris: Seq<Seq<char>>) -> Seq<LinkV>
    decreases items.len(),
{
    if items.len() == 0 {
        Seq::empty()
    } else {
        links_of_items(tree, items.drop_last(), kind, uris).push(link_of(tree, items.last(), kind, uris))
    }
}

/// The links that node `k` makes, one per comma-separated item.
pub open spec fn node_links(tree: SyntaxTree, k: int, uris: Seq<Seq<char>>) -> Seq<LinkV> {
    if is_command(tree, k) && link_command(first_token_text(tree, k)).is_some() {
        links_of_items(tree, arg_items(tree, k), link_command(first_token_text(tree, k)).unwrap(), uris)
    } else {
        Seq::empty()
    }
}

/// Appends the links of node `k`.
fn add_links(tree: &SyntaxTree, k: usize, uris: &Vec<Vec<char>>, out: &mut Vec<ExplicitLink>)
    requires
        tree.wf(),
        k < tree.nodes@.len(),
    ensures
        links_view(final(out)@) == links_view(old(out)@)
            + node_links(*tree, k as int, uri_views(uris@)),
{
    let ghost start = links_view(out@);
    let ghost us = uri_views(uris@);
    match link_command_exec(tree, k) {
        Some(kind) => {
            let items = arg_items_exec(tree, k);
            let ext = link_ext_exec(kind);
            let ghost spec_items = arg_items(*tree, k as int);
            let mut i: usize = 0;
            while i < items.len()
                invariant
                    i <= items@.len(),
                    ext@ == link_ext(kind),
                    us == uri_views(uris@),
                    items@.map_values(|x: (usize, usize)| (x.0 as int, x.1 as int)) == spec_items,
                    forall|m: int| 0 <= m < items@.len() ==> (#[trigger] items@[m]).0 < items@[m].1 <= tree.text@.len(),
                    links_view(out@) == start + links_of_items(*tree, spec_items.take(i as int), kind, us),
                decreases items.len() - i,
            {
                let (a, b) = items[i];
                let ghost before = out@;
                assert(spec_items[i as int] == (a as int, b as int));
                let item = crate::text::slice_chars(&tree.text, a, b);
                let stem_chars = match kind {
                    ExplicitLinkKind::Package | ExplicitLinkKind::Class => strip_ext_exec(&item, &ext),
                    _ => item,
                };
                let base = strip_ext_exec(&stem_chars, &ext);
                let targets = resolve_link(uris, &base, &ext);
                let stem = crate::text::string_from_chars(stem_chars.as_slice());
                let ghost fv = (stem@, TextRange { start: a, end: b }, targets@, kind);
                assert(fv == link_of(*tree, spec_items[i as int], kind, us));
                out.push(ExplicitLink { stem, stem_range: TextRange { start: a, end: b }, targets, kind });
                assert(links_view(out@) =~= links_view(before).push(fv));
                assert(spec_items.take(i + 1).drop_last() =~= spec_items.take(i as int));
                assert(links_of_items(*tree, spec_items.take(i + 1), kind, us) == links_of_items(*tree, spec_items.take(i as int), kind, us).push(fv));
                i = i + 1;
            }
            assert(spec_items.take(i as int) =~= spec_items);
        },
        None => {
            assert(start + Seq::<LinkV>::empty() =~= start);
        },
    }
}

/// The name of environment node `k`, from its `\begin{name}`.
pub open spec fn env_name(tree: SyntaxTree, k: int) -> Option<Seq<char>> {
    let cs = children(tree, k);
    if tree.nodes@[k].kind == NodeKind::Environment && cs.len() > 0 && is_command(tree, cs[0])
        && arg_key(tree, cs[0], 0).is_some() {
        Some(slice(tree, arg_key(tree, cs[0], 0).unwrap()))
    } else {
        None
    }
}

fn env_name_exec(tree: &SyntaxTree, k: usize) -> (r: Option<(usize, usize)>)
    requires
        tree.wf(),
        k < tree.nodes@.len(),
    ensures
        r.is_some() == env_name(*tree, k as int).is_some(),
        r.is_some() ==> r.unwrap().0 <= r.unwrap().1 <= tree.text@.len()
            && tree.text@.subrange(r.unwrap().0 as int, r.unwrap().1 as int) == env_name(*tree, k as int).unwrap(),
{
    if tree.nodes[k].kind != NodeKind::Environment {
        return None;
    }
    let cs = child_nodes(tree, k);
    if cs.len() == 0 {
        return None;
    }
    let c = cs[0];
    assert(children(*tree, k as int)[0] == c as int);
    if !(tree.nodes[c].kind == NodeKind::Command && tree.nodes[c].first < tree.nodes[c].last) {
        return None;
    }
    arg_key_exec(tree, c, 0)
}

/// The first text or bracket-group node among the nodes `[j, stop)`.
pub open spec fn first_text(tree: SyntaxTree, j: int, stop: int) -> Option<int>
    decreases stop - j,
{
    if j >= stop || j >= tree.nodes@.len() || j < 0 {
        None
    } else if tree.nodes@[j].kind == NodeKind::Text || tree.nodes@[j].kind == NodeKind::BrackGroup {
        Some(j)
    } else {
        first_text(tree, j + 1, stop)
    }
}

/// The name and rendered number that a `\newlabel{name}{{number}...}` line gives.
pub open spec fn node_number(tree: SyntaxTree, k: int) -> Option<PairV> {
    if is_command(tree, k) && first_token_text(tree, k) == "\\newlabel"@ && arg_key(tree, k, 0).is_some()
        && curly_arg(tree, k, 1).is_some() {
        let g = curly_arg(tree, k, 1).unwrap();
        match first_text(tree, g + 1, tree.nodes@[g].end as int) {
            Some(t) => if tree.nodes@[t].first < tree.nodes@[t].last {
                Some((slice(tree, arg_key(tree, k, 0).unwrap()), slice(tree, tree.node_range(t))))
            } else {
                None
            },
            None => None,
        }
    } else {
        None
    }
}

fn node_number_exec(tree: &SyntaxTree, k: usize) -> (r: Option<LabelNumber>)
    requires
        tree.wf(),
        k < tree.nodes@.len(),
    ensures
        r.is_some() == node_number(*tree, k as int).is_some(),
        r.is_some() ==> number_v(r.unwrap()) == node_number(*tree, k as int).unwrap(),
{
    if !command_is(tree, k, "\\newlabel") {
        return None;
    }
    let name = match arg_key_exec(tree, k, 0) {
        Some(r) => r,
        None => return None,
    };
    let g = match curly_arg_exec(tree, k, 1) {
        Some(g) => g,
        None => return None,
    };
    proof {
        assert(node_ok(tree.nodes@, g as int, tree.tokens@.len()));
    }
    let stop = tree.nodes[g].end;
    let mut j = g + 1;
    while j < stop
        invariant
            tree.wf(),
            g < j,
            stop <= tree.nodes@.len(),
            stop == tree.nodes@[g as int].end,
            first_text(*tree, j as int, stop as int) == first_text(*tree, g + 1, stop as int),
            arg_key(*tree, k as int, 0) == Some((name.0 as int, name.1 as int)),
            name.0 <= name.1 <= tree.text@.len(),
            curly_arg(*tree, k as int, 1) == Some(g as int),
            is_command(*tree, k as int),
            first_token_text(*tree, k as int) == "\\newlabel"@,
        decreases stop - j,
    {
        if tree.nodes[j].kind == NodeKind::Text || tree.nodes[j].kind == NodeKind::BrackGroup {
            let t = tree.nodes[j];
            if t.first < t.last {
                proof {
                    lemma_node_tokens(tree, j as int);
                    assert(tree.tokens@[t.last - 1].start <= tree.tokens@[t.last - 1].end);
                }
                let s = tree.tokens[t.first].start;
                let e = tree.tokens[t.last - 1].end;
                let name_text = substring(&tree.text, name.0, name.1);
                let number = substring(&tree.text, s, e);
                return Some(LabelNumber { name: name_text, number });
            } else {
                return None;
            }
        }
        j = j + 1;
    }
    None
}

/// The theorem environment that a `\newtheorem{name}{description}` declares.
pub open spec fn node_theorem(tree: SyntaxTree, k: int) -> Option<PairV> {
    if is_command(tree, k) && first_token_text(tree, k) == "\\newtheorem"@ && arg_key(tree, k, 0).is_some()
        && arg_key(tree, k, 1).is_some() {
        Some((slice(tree, arg_key(tree, k, 0).unwrap()), slice(tree, arg_key(tree, k, 1).unwrap())))
    } else {
        None
    }
}

fn node_theorem_exec(tree: &SyntaxTree, k: usize) -> (r: Option<TheoremEnvironment>)
    requires
        tree.wf(),
        k < tree.nodes@.len(),
    ensures
        r.is_some() == node_theorem(*tree, k as int).is_some(),
        r.is_some() ==> theorem_v(r.unwrap()) == node_theorem(*tree, k as int).unwrap(),
{
    if !command_is(tree, k, "\\newtheorem") {
        return None;
    }
    match (arg_key_exec(tree, k, 0), arg_key_exec(tree, k, 1)) {
        (Some(a), Some(b)) => Some(
            TheoremEnvironment { name: substring(&tree.text, a.0, a.1), description: substring(&tree.text, b.0, b.1) },
        ),
        _ => None,
    }
}

/// The keys of the curly groups among the nodes `cs`.
pub open spec fn curly_keys(tree: SyntaxTree, cs: Seq<int>) -> Seq<Seq<char>>
    decreases cs.len(),
{
    if cs.len() == 0 {
        Seq::empty()
    } else {
        let c = cs.last();
        let rest = curly_keys(tree, cs.drop_last());
        if tree.nodes@[c].kind == NodeKind::CurlyGroup && tree.nodes@[c].first < tree.nodes@[c].last {
            rest.push(slice(tree, crate::analysis::key_range(tree, c)))
        } else {
            rest
        }
    }
}

/// The directories that a `\graphicspath{{a}{b}}` adds.
pub open spec fn node_graphics(tree: SyntaxTree, k: int) -> Seq<Seq<char>> {
    if is_command(tree, k) && first_token_text(tree, k) == "\\graphicspath"@ && curly_arg(tree, k, 0).is_some() {
        curly_keys(tree, children(tree, curly_arg(tree, k, 0).unwrap()))
    } else {
        Seq::empty()
    }
}

fn add_graphics(tree: &SyntaxTree, k: usize, out: &mut Vec<String>)
    requires
        tree.wf(),
        k < tree.nodes@.len(),
    ensures
        strs(final(out)@) == add_all_unique(strs(old(out)@), node_graphics(*tree, k as int)),
{
    if !command_is(tree, k, "\\graphicspath") {
        return;
    }
    let g = match curly_arg_exec(tree, k, 0) {
        Some(g) => g,
        None => return,
    };
    let cs = child_nodes(tree, g);
    let ghost css = cs@.map_values(|x: usize| x as int);
    let ghost start = strs(out@);
    let mut i: usize = 0;
    while i < cs.len()
        invariant
            tree.wf(),
            i <= cs@.len(),
            css == cs@.map_values(|x: usize| x as int),
            css == children(*tree, g as int),
            forall|m: int| 0 <= m < cs@.len() ==> g < #[trigger] cs@[m] < tree.nodes@.len(),
            strs(out@) == add_all_unique(start, curly_keys(*tree, css.take(i as int))),
        decreases cs.len() - i,
    {
        let c = cs[i];
        assert(css.take(i + 1).drop_last() =~= css.take(i as int));
        assert(css.take(i + 1).last() == c as int);
        if tree.nodes[c].kind == NodeKind::CurlyGroup && tree.nodes[c].first < tree.nodes[c].last {
            let (a, b) = key_range_exec(tree, c);
            let key = substring(&tree.text, a, b);
            let ghost keys = curly_keys(*tree, css.take(i as int));
            assert(curly_keys(*tree, css.take(i + 1)) == keys.push(key@));
            assert(keys.push(key@).drop_last() =~= keys);
            push_unique(out, key);
        }
        i = i + 1;
    }
    assert(css.take(i as int) =~= css);
}

/// Where the extension of the last path segment of `uri` starts, or its
/// length if it has none; `i` is the position scanned back from.
pub open spec fn ext_start(uri: Seq<char>, i: int) -> int
    decreases i,
{
    if i <= 0 {
        uri.len() as int
    } else if uri[i - 1] == '.' {
        i - 1
    } else if uri[i - 1] == '/' {
        uri.len() as int
    } else {
        ext_start(uri, i - 1)
    }
}

/// `uri` with the extension of its file name replaced by `ext`.
pub open spec fn with_extension(uri: Seq<char>, ext: Seq<char>) -> Seq<char> {
    uri.subrange(0, ext_start(uri, uri.len() as int)) + ext
}

proof fn lemma_ext_start(uri: Seq<char>, i: int)
    requires
        0 <= i <= uri.len(),
    ensures
        0 <= ext_start(uri, i) <= uri.len(),
    decreases i,
{
    if i > 0 && uri[i - 1] != '.' && uri[i - 1] != '/' {
        lemma_ext_start(uri, i - 1);
    }
}

pub fn with_extension_exec(uri: &Vec<char>, ext: &str) -> (r: String)
    ensures
        r@ == with_extension(uri@, ext@),
{
    let mut i = uri.len();
    while i > 0
        invariant
            i <= uri@.len(),
            ext_start(uri@, i as int) == ext_start(uri@, uri@.len() as int),
        ensures
            i > 0 ==> (uri@[i - 1] == '.' || uri@[i - 1] == '/'),
            ext_start(uri@, i as int) == ext_start(uri@, uri@.len() as int),
            i <= uri@.len(),
        decreases i,
    {
        if uri[i - 1] == '.' || uri[i - 1] == '/' {
            break;
        }
        i = i - 1;
    }
    let cut = if i > 0 && uri[i - 1] == '.' { i - 1 } else { uri.len() };
    assert(cut == ext_start(uri@, i as int));
    proof {
        lemma_ext_start(uri@, uri@.len() as int);
    }
    let mut v = crate::text::slice_chars(uri, 0, cut);
    let e = to_chars(ext);
    let ghost head = v@;
    let mut j: usize = 0;
    while j < e.len()
        invariant
            j <= e@.len(),
            v@ == head + e@.subrange(0, j as int),
        decreases e.len() - j,
    {
        v.push(e[j]);
        j = j + 1;
    }
    assert(e@.subrange(0, e@.len() as int) =~= e@);
    assert(v@ == with_extension(uri@, ext@));
    crate::text::string_from_chars(v.as_slice())
}

pub open spec fn command_names_upto(tree: SyntaxTree, k: int) -> Seq<Seq<char>>
    decreases k,
{
    if k <= 0 {
        Seq::empty()
    } else if is_command(tree, k - 1) {
        add_unique(command_names_upto(tree, k - 1), first_token_text(tree, k - 1))
    } else {
        command_names_upto(tree, k - 1)
    }
}

pub open spec fn environment_names_upto(tree: SyntaxTree, k: int) -> Seq<Seq<char>>
    decreases k,
{
    if k <= 0 {
        Seq::empty()
    } else if env_name(tree, k - 1).is_some() {
        add_unique(environment_names_upto(tree, k - 1), env_name(tree, k - 1).unwrap())
    } else {
        environment_names_upto(tree, k - 1)
    }
}

pub open spec fn labels_upto(tree: SyntaxTree, k: int) -> Seq<LabelV>
    decreases k,
{
    if k <= 0 {
        Seq::empty()
    } else {
        labels_upto(tree, k - 1) + node_labels(tree, k - 1)
    }
}

pub open spec fn links_upto(tree: SyntaxTree, k: int, uris: Seq<Seq<char>>) -> Seq<LinkV>
    decreases k,
{
    if k <= 0 {
        Seq::empty()
    } else {
        links_upto(tree, k - 1, uris) + node_links(tree, k - 1, uris)
    }
}

/// The first index at or after `i` whose entry is named `name`, or the length.
pub open spec fn index_of_name(s: Seq<PairV>, name: Seq<char>, i: int) -> int
    decreases s.len() - i,
{
    if i < 0 || i >= s.len() {
        s.len() as int
    } else if s[i].0 == name {
        i
    } else {
        index_of_name(s, name, i + 1)
    }
}

/// The numbers `s` with the entry for `p`'s name set to `p`: replaced if the
/// name has one, added otherwise.
pub open spec fn set_number(s: Seq<PairV>, p: PairV) -> Seq<PairV> {
    let i = index_of_name(s, p.0, 0);
    if i < s.len() {
        s.update(i, p)
    } else {
        s.push(p)
    }
}

/// No two entries share a name.
pub open spec fn names_unique(s: Seq<PairV>) -> bool {
    forall|i: int, j: int| 0 <= i < j < s.len() ==> #[trigger] s[i].0 != #[trigger] s[j].0
}

proof fn lemma_index_of_name(s: Seq<PairV>, name: Seq<char>, i: int)
    requires
        0 <= i <= s.len(),
    ensures
        i <= index_of_name(s, name, i) <= s.len(),
        forall|j: int| i <= j < index_of_name(s, name, i) ==> #[trigger] s[j].0 != name,
        index_of_name(s, name, i) < s.len() ==> s[index_of_name(s, name, i)].0 == name,
    decreases s.len() - i,
{
    if i < s.len() && s[i].0 != name {
        lemma_index_of_name(s, name, i + 1);
    }
}

/// The index is fixed by where the name first occurs.
proof fn lemma_index_of_name_is(s: Seq<PairV>, name: Seq<char>, i: int, k: int)
    requires
        0 <= i <= k <= s.len(),
        forall|j: int| i <= j < k ==> #[trigger] s[j].0 != name,
        k < s.len() ==> s[k].0 == name,
    ensures
        index_of_name(s, name, i) == k,
    decreases s.len() - i,
{
    if i < k {
        lemma_index_of_name_is(s, name, i + 1, k);
    }
}

/// Setting the number of a name twice to the same value is setting it once.
pub proof fn lemma_set_number_idempotent(s: Seq<PairV>, p: PairV)
    ensures
        set_number(set_number(s, p), p) == set_number(s, p),
{
    lemma_index_of_name(s, p.0, 0);
    let i = index_of_name(s, p.0, 0);
    let t = set_number(s, p);
    if i < s.len() {
        assert forall|j: int| 0 <= j < i implies #[trigger] t[j].0 != p.0 by {
            assert(t[j] == s[j]);
        }
        lemma_index_of_name_is(t, p.0, 0, i);
        assert(t.update(i, p) =~= t);
    } else {
        assert forall|j: int| 0 <= j < s.len() implies #[trigger] t[j].0 != p.0 by {
            assert(t[j] == s[j]);
        }
        lemma_index_of_name_is(t, p.0, 0, s.len() as int);
        assert(t.update(s.len() as int, p) =~= t);
    }
}

/// Setting a number keeps the names unique.
pub proof fn lemma_set_number_unique(s: Seq<PairV>, p: PairV)
    requires
        names_unique(s),
    ensures
        names_unique(set_number(s, p)),
        set_number(s, p).contains(p),
{
    lemma_index_of_name(s, p.0, 0);
    let i = index_of_name(s, p.0, 0);
    let t = set_number(s, p);
    if i < s.len() {
        assert forall|a: int, b: int| 0 <= a < b < t.len() implies #[trigger] t[a].0 != #[trigger] t[b].0 by {
            if a != i && b != i {
                assert(s[a].0 != s[b].0);
            } else if a == i {
                assert(s[a].0 != s[b].0);
            } else {
                assert(s[a].0 != s[b].0);
            }
        }
        assert(t[i] == p);
    } else {
        assert forall|a: int, b: int| 0 <= a < b < t.len() implies #[trigger] t[a].0 != #[trigger] t[b].0 by {
            if b < s.len() {
                assert(s[a].0 != s[b].0);
            } else {
                assert(s[a].0 != p.0);
            }
        }
        assert(t[s.len() as int] == p);
    }
}

proof fn lemma_numbers_unique(tree: SyntaxTree, k: int)
    ensures
        names_unique(numbers_upto(tree, k)),
    decreases k,
{
    if k > 0 {
        lemma_numbers_unique(tree, k - 1);
        if node_number(tree, k - 1).is_some() {
            lemma_set_number_unique(numbers_upto(tree, k - 1), node_number(tree, k - 1).unwrap());
        }
    }
}

pub open spec fn numbers_view(v: Seq<LabelNumber>) -> Seq<PairV> {
    v.map_values(|l: LabelNumber| number_v(l))
}

/// Sets the entry for `num`'s name, replacing the one already there.
fn set_label_number(v: &mut Vec<LabelNumber>, num: LabelNumber)
    ensures
        numbers_view(final(v)@) == set_number(numbers_view(old(v)@), number_v(num)),
{
    let ghost nv = numbers_view(v@);
    proof {
        lemma_index_of_name(nv, num.name@, 0);
    }
    let mut i: usize = 0;
    while i < v.len()
        invariant
            i <= v@.len(),
            v@ == old(v)@,
            nv == numbers_view(v@),
            index_of_name(nv, num.name@, i as int) == index_of_name(nv, num.name@, 0),
        decreases v.len() - i,
    {
        assert(nv[i as int] == number_v(v@[i as int]));
        if v[i].name == num.name {
            let ghost before = v@;
            v.set(i, num);
            assert(numbers_view(v@) =~= nv.update(i as int, number_v(num)));
            return;
        }
        i = i + 1;
    }
    let ghost before = v@;
    v.push(num);
    assert(numbers_view(v@) =~= nv.push(number_v(num)));
}

pub open spec fn numbers_upto(tree: SyntaxTree, k: int) -> Seq<PairV>
    decreases k,
{
    if k <= 0 {
        Seq::empty()
    } else if node_number(tree, k - 1).is_some() {
        set_number(numbers_upto(tree, k - 1), node_number(tree, k - 1).unwrap())
    } else {
        numbers_upto(tree, k - 1)
    }
}

pub open spec fn theorems_upto(tree: SyntaxTree, k: int) -> Seq<PairV>
    decreases k,
{
    if k <= 0 {
        Seq::empty()
    } else if node_theorem(tree, k - 1).is_some() {
        theorems_upto(tree, k - 1).push(node_theorem(tree, k - 1).unwrap())
    } else {
        theorems_upto(tree, k - 1)
    }
}

pub open spec fn graphics_upto(tree: SyntaxTree, k: int) -> Seq<Seq<char>>
    decreases k,
{
    if k <= 0 {
        Seq::empty()
    } else {
        add_all_unique(graphics_upto(tree, k - 1), node_graphics(tree, k - 1))
    }
}

pub open spec fn has_document_upto(tree: SyntaxTree, k: int) -> bool
    decreases k,
{
    if k <= 0 {
        false
    } else {
        has_document_upto(tree, k - 1) || env_name(tree, k - 1) == Some("document"@)
    }
}

/// Some node of the tree is an environment named exactly `document`.
pub open spec fn has_document_environment(tree: SyntaxTree) -> bool {
    exists|k: int| 0 <= k < tree.nodes@.len() && #[trigger] env_name(tree, k) == Some("document"@)
}

/// The facts of a document with URI `uri`, parsed as `tree`, in a workspace
/// whose documents have the URIs `uris`.
pub open spec fn extras_of(tree: SyntaxTree, uri: Seq<char>, uris: Seq<Seq<char>>) -> ExtrasView {
    let n = tree.nodes@.len() as int;
    ExtrasView {
        aux: seq![with_extension(uri, ".aux"@)],
        log: seq![with_extension(uri, ".log"@)],
        pdf: seq![with_extension(uri, ".pdf"@)],
        explicit_links: links_upto(tree, n, uris),
        has_document_environment: has_document_upto(tree, n),
        command_names: command_names_upto(tree, n),
        environment_names: environment_names_upto(tree, n),
        label_names: labels_upto(tree, n),
        label_numbers: numbers_upto(tree, n),
        theorem_environments: theorems_upto(tree, n),
        graphics_paths: graphics_upto(tree, n),
    }
}

proof fn lemma_has_document_upto(tree: SyntaxTree, k: int)
    requires
        0 <= k <= tree.nodes@.len(),
    ensures
        has_document_upto(tree, k) <==> exists|j: int| 0 <= j < k && #[trigger] env_name(tree, j) == Some("document"@),
    decreases k,
{
    if k > 0 {
        lemma_has_document_upto(tree, k - 1);
        if env_name(tree, k - 1) == Some("document"@) {
            assert(exists|j: int| 0 <= j < k && #[trigger] env_name(tree, j) == Some("document"@));
        }
    }
}

/// The fact sheet of a LaTeX tree: one pre-order walk over its nodes, each
/// rule adding what it finds without stopping the others.
pub fn analyze(tree: &SyntaxTree, uri: &Vec<char>, uris: &Vec<Vec<char>>) -> (r: Extras)
    requires
        tree.wf(),
    ensures
        r@ == extras_of(*tree, uri@, uri_views(uris@)),
        r.has_document_environment == has_document_environment(*tree),
        names_unique(r@.label_numbers),
{
    let ghost us = uri_views(uris@);
    let mut command_names: Vec<String> = Vec::new();
    let mut environment_names: Vec<String> = Vec::new();
    let mut label_names: Vec<LabelName> = Vec::new();
    let mut label_numbers: Vec<LabelNumber> = Vec::new();
    let mut explicit_links: Vec<ExplicitLink> = Vec::new();
    let mut theorem_environments: Vec<TheoremEnvironment> = Vec::new();
    let mut graphics_paths: Vec<String> = Vec::new();
    let mut has_document = false;
    let document = to_chars("document");
    assert(strs(command_names@) =~= Seq::<Seq<char>>::empty());
    assert(strs(environment_names@) =~= Seq::<Seq<char>>::empty());
    assert(strs(graphics_paths@) =~= Seq::<Seq<char>>::empty());
    assert(labels_view(label_names@) =~= Seq::<LabelV>::empty());
    assert(links_view(explicit_links@) =~= Seq::<LinkV>::empty());
    assert(numbers_view(label_numbers@) =~= Seq::<PairV>::empty());
    assert(theorem_environments@.map_values(|t: TheoremEnvironment| theorem_v(t)) =~= Seq::<PairV>::empty());
    let mut k: usize = 0;
    while k < tree.nodes.len()
        invariant
            tree.wf(),
            k <= tree.nodes@.len(),
            us == uri_views(uris@),
            document@ == "document"@,
            strs(command_names@) == command_names_upto(*tree, k as int),
            strs(environment_names@) == environment_names_upto(*tree, k as int),
            labels_view(label_names@) == labels_upto(*tree, k as int),
            links_view(explicit_links@) == links_upto(*tree, k as int, us),
            numbers_view(label_numbers@) == numbers_upto(*tree, k as int),
            theorem_environments@.map_values(|t: TheoremEnvironment| theorem_v(t)) == theorems_upto(*tree, k as int),
            strs(graphics_paths@) == graphics_upto(*tree, k as int),
            has_document == has_document_upto(*tree, k as int),
        decreases tree.nodes.len() - k,
    {
        assert(node_ok(tree.nodes@, k as int, tree.tokens@.len()));
        let n = tree.nodes[k];
        if n.kind == NodeKind::Command && n.first < n.last {
            let t = tree.tokens[n.first];
            proof {
                crate::syntax::lemma_token_in_text(tree, n.first as int);
            }
            let name = substring(&tree.text, t.start, t.end);
            push_unique(&mut command_names, name);
        }
        match env_name_exec(tree, k) {
            Some((a, b)) => {
                let name = substring(&tree.text, a, b);
                if crate::text::slice_eq(&tree.text, a, b, &document) {
                    has_document = true;
                }
                push_unique(&mut environment_names, name);
            },
            None => {},
        }
        add_labels(tree, k, &mut label_names);
        add_links(tree, k, uris, &mut explicit_links);
        match node_number_exec(tree, k) {
            Some(num) => {
                set_label_number(&mut label_numbers, num);
            },
            None => {},
        }
        match node_theorem_exec(tree, k) {
            Some(th) => {
                let ghost before = theorem_environments@;
                theorem_environments.push(th);
                assert(theorem_environments@.map_values(|t: TheoremEnvironment| theorem_v(t)) =~= before.map_values(|t: TheoremEnvironment| theorem_v(t)).push(theorem_v(th)));
            },
            None => {},
        }
        add_graphics(tree, k, &mut graphics_paths);
        k = k + 1;
    }
    proof {
        lemma_has_document_upto(*tree, tree.nodes@.len() as int);
        lemma_numbers_unique(*tree, tree.nodes@.len() as int);
    }
    let aux = with_extension_exec(uri, ".aux");
    let log = with_extension_exec(uri, ".log");
    let pdf = with_extension_exec(uri, ".pdf");
    let implicit_links = ImplicitLinks { aux: vec![aux], log: vec![log], pdf: vec![pdf] };
    assert(strs(implicit_links.aux@) =~= seq![with_extension(uri@, ".aux"@)]);
    assert(strs(implicit_links.log@) =~= seq![with_extension(uri@, ".log"@)]);
    assert(strs(implicit_links.pdf@) =~= seq![with_extension(uri@, ".pdf"@)]);
    Extras {
        implicit_links,
        explicit_links,
        has_document_environment: has_document,
        command_names,
        environment_names,
        label_names,
        label_numbers,
        theorem_environments,
        graphics_paths,
    }
}

/// Analyzing an unchanged tree again gives the same facts.
pub proof fn lemma_analyze_idempotent(tree: SyntaxTree, uri: Seq<char>, uris: Seq<Seq<char>>, first: Extras, second: Extras)
    requires
        first@ == extras_of(tree, uri, uris),
        second@ == extras_of(tree, uri, uris),
    ensures
        first@ == second@,
{
}

/// Records the rendered number of a `\newlabel` node `node`, replacing any
/// number recorded for the same name; does nothing (and returns `None`) for
/// any other node. Every other fact is left as it was.
pub fn analyze_label_number(extras: &mut Extras, tree: &SyntaxTree, node: usize) -> (r: Option<()>)
    requires
        tree.wf(),
        node < tree.nodes@.len(),
    ensures
        r.is_some() == node_number(*tree, node as int).is_some(),
        final(extras)@ == (ExtrasView {
            label_numbers: if r.is_some() {
                set_number(old(extras)@.label_numbers, node_number(*tree, node as int).unwrap())
            } else {
                old(extras)@.label_numbers
            },
            ..old(extras)@
        }),
{
    match node_number_exec(tree, node) {
        Some(num) => {
            set_label_number(&mut extras.label_numbers, num);
            Some(())
        },
        None => None,
    }
}

impl ExplicitLink {
    /// The file name of a package or class link: its stem with `.sty` or
    /// `.cls`; other links have none.
    pub fn as_component_name(&self) -> (r: Option<String>)
        ensures
            r.is_some() <==> (self.kind == ExplicitLinkKind::Package || self.kind == ExplicitLinkKind::Class),
            r.is_some() ==> r.unwrap()@ == self.stem@ + link_ext(self.kind),
    {
        match self.kind {
            ExplicitLinkKind::Package | ExplicitLinkKind::Class => {
                let mut v = to_chars(self.stem.as_str());
                let ext = link_ext_exec(self.kind);
                let ghost head = v@;
                let mut i: usize = 0;
                while i < ext.len()
                    invariant
                        i <= ext@.len(),
                        v@ == head + ext@.subrange(0, i as int),
                    decreases ext.len() - i,
                {
                    v.push(ext[i]);
                    i = i + 1;
                }
                assert(ext@.subrange(0, ext@.len() as int) =~= ext@);
                Some(crate::text::string_from_chars(v.as_slice()))
            },
            _ => None,
        }
    }
}

} // verus!
