//! The incremental query database. Inputs are each document's URI, text,
//! language and visibility; writing an input gives it a fresh stamp. Derived
//! values (syntax trees, extras) are cached with the stamps of the inputs they
//! read, and a read recomputes a value whose stamps are no longer current.
use vstd::prelude::*;
use crate::extras::{Extras, ExplicitLink, ExplicitLinkKind, LabelName, LabelNumber, TheoremEnvironment, ImplicitLinks, analyze, extras_of, uri_views, links_view, labels_view, strs, label_v, link_v, number_v, theorem_v};
use crate::graph::{compilation_unit, links_ok, reachable, root_from, unit_root};
use crate::lexer::Language;
use crate::line_index::{LineCol, LineColRange, LineIndex, is_line_col, line_starts, position_offset};
use crate::text::TextRange;
use crate::syntax::parse_chars;
use crate::text::{to_chars, chars_eq};
use crate::tree::SyntaxTree;

verus! {

/// A copy of a vector of plain values.
pub fn copy_vec<T: Copy>(v: &Vec<T>) -> (r: Vec<T>)
    ensures
        r@ == v@,
{
    let mut r: Vec<T> = Vec::new();
    let mut i: usize = 0;
    while i < v.len()
        invariant
            i <= v@.len(),
            r@ == v@.subrange(0, i as int),
        decreases v.len() - i,
    {
        r.push(v[i]);
        i = i + 1;
    }
    assert(v@.subrange(0, v@.len() as int) =~= v@);
    r
}

impl SyntaxTree {
    /// A copy of the tree.
    pub fn snapshot(&self) -> (r: SyntaxTree)
        ensures
            r.language == self.language,
            r.text@ == self.text@,
            r.tokens@ == self.tokens@,
            r.nodes@ == self.nodes@,
    {
        SyntaxTree {
            language: self.language,
            text: copy_vec(&self.text),
            tokens: copy_vec(&self.tokens),
            nodes: copy_vec(&self.nodes),
        }
    }
}

fn copy_strings(v: &Vec<String>) -> (r: Vec<String>)
    ensures
        strs(r@) == strs(v@),
{
    let mut r: Vec<String> = Vec::new();
    let mut i: usize = 0;
    while i < v.len()
        invariant
            i <= v@.len(),
            r@.len() == i,
            forall|j: int| 0 <= j < i ==> #[trigger] r@[j]@ == v@[j]@,
        decreases v.len() - i,
    {
        r.push(v[i].clone());
        i = i + 1;
    }
    assert(strs(r@) =~= strs(v@));
    r
}

impl Extras {
    /// A copy of the facts.
    pub fn snapshot(&self) -> (r: Extras)
        ensures
            r@ == self@,
    {
        let mut labels: Vec<LabelName> = Vec::new();
        let mut i: usize = 0;
        while i < self.label_names.len()
            invariant
                i <= self.label_names@.len(),
                labels@.len() == i,
                forall|j: int| 0 <= j < i ==> #[trigger] label_v(labels@[j]) == label_v(self.label_names@[j]),
            decreases self.label_names.len() - i,
        {
            let l = &self.label_names[i];
            labels.push(LabelName { text: l.text.clone(), range: l.range, is_definition: l.is_definition });
            i = i + 1;
        }
        let mut links: Vec<ExplicitLink> = Vec::new();
        let mut i: usize = 0;
        while i < self.explicit_links.len()
            invariant
                i <= self.explicit_links@.len(),
                links@.len() == i,
                forall|j: int| 0 <= j < i ==> #[trigger] link_v(links@[j]) == link_v(self.explicit_links@[j]),
            decreases self.explicit_links.len() - i,
        {
            let l = &self.explicit_links[i];
            links.push(ExplicitLink { stem: l.stem.clone(), stem_range: l.stem_range, targets: copy_vec(&l.targets), kind: l.kind });
            i = i + 1;
        }
        let mut numbers: Vec<LabelNumber> = Vec::new();
        let mut i: usize = 0;
        while i < self.label_numbers.len()
            invariant
                i <= self.label_numbers@.len(),
                numbers@.len() == i,
                forall|j: int| 0 <= j < i ==> #[trigger] number_v(numbers@[j]) == number_v(self.label_numbers@[j]),
            decreases self.label_numbers.len() - i,
        {
            let l = &self.label_numbers[i];
            numbers.push(LabelNumber { name: l.name.clone(), number: l.number.clone() });
            i = i + 1;
        }
        let mut theorems: Vec<TheoremEnvironment> = Vec::new();
        let mut i: usize = 0;
        while i < self.theorem_environments.len()
            invariant
                i <= self.theorem_environments@.len(),
                theorems@.len() == i,
                forall|j: int| 0 <= j < i ==> #[trigger] theorem_v(theorems@[j]) == theorem_v(self.theorem_environments@[j]),
            decreases self.theorem_environments.len() - i,
        {
            let t = &self.theorem_environments[i];
            theorems.push(TheoremEnvironment { name: t.name.clone(), description: t.description.clone() });
            i = i + 1;
        }
        assert(labels_view(labels@) =~= labels_view(self.label_names@));
        assert(links_view(links@) =~= links_view(self.explicit_links@));
        assert(numbers@.map_values(|l: LabelNumber| number_v(l)) =~= self.label_numbers@.map_values(|l: LabelNumber| number_v(l)));
        assert(theorems@.map_values(|t: TheoremEnvironment| theorem_v(t)) =~= self.theorem_environments@.map_values(|t: TheoremEnvironment| theorem_v(t)));
        Extras {
            implicit_links: ImplicitLinks {
                aux: copy_strings(&self.implicit_links.aux),
                log: copy_strings(&self.implicit_links.log),
                pdf: copy_strings(&self.implicit_links.pdf),
            },
            explicit_links: links,
            has_document_environment: self.has_document_environment,
            command_names: copy_strings(&self.command_names),
            environment_names: copy_strings(&self.environment_names),
            label_names: labels,
            label_numbers: numbers,
            theorem_environments: theorems,
            graphics_paths: copy_strings(&self.graphics_paths),
        }
    }
}

/// The inputs of one document.
pub struct DocumentInput {
    pub text: Vec<char>,
    pub language: Language,
    pub visible: bool,
    pub stamp: u64,
}

/// What a reader sees of a document: its URI, text, language and visibility.
pub struct DocumentView {
    pub uri: Seq<char>,
    pub text: Seq<char>,
    pub language: Language,
    pub visible: bool,
}

pub struct CachedTree {
    pub tree: SyntaxTree,
    pub stamp: u64,
}

impl CachedTree {
    pub fn tree_field(&self) -> (r: &SyntaxTree)
        ensures
            *r == self.tree,
    {
        &self.tree
    }
}

pub struct CachedExtras {
    pub extras: Extras,
    pub stamp: u64,
    pub membership: u64,
}

/// Documents, identified by their index, with memoized derived values.
pub struct Database {
    uris: Vec<Vec<char>>,
    inputs: Vec<DocumentInput>,
    revision: u64,
    membership: u64,
    trees: Vec<Option<CachedTree>>,
    extras: Vec<Option<CachedExtras>>,
}

impl View for Database {
    type V = Seq<DocumentView>;

    closed spec fn view(&self) -> Seq<DocumentView> {
        Seq::new(
            self.inputs@.len(),
            |i: int|
                DocumentView {
                    uri: self.uris@[i]@,
                    text: self.inputs@[i].text@,
                    language: self.inputs@[i].language,
                    visible: self.inputs@[i].visible,
                },
        )
    }
}

/// The URIs of the documents, in order of their identifiers.
pub open spec fn doc_uris(docs: Seq<DocumentView>) -> Seq<Seq<char>> {
    docs.map_values(|d: DocumentView| d.uri)
}

impl Database {
    /// Every cached value whose stamps are current was computed from the
    /// current inputs; no cached stamp is newer than its input's.
    pub closed spec fn wf(&self) -> bool {
        &&& self.inputs@.len() == self.uris@.len()
        &&& self.trees@.len() == self.uris@.len()
        &&& self.extras@.len() == self.uris@.len()
        &&& self.membership <= self.revision
        &&& forall|i: int| 0 <= i < self.inputs@.len() ==> #[trigger] self.inputs@[i].stamp <= self.revision
        &&& forall|i: int| 0 <= i < self.trees@.len() && (#[trigger] self.trees@[i]).is_some() ==> {
            let c = self.trees@[i].unwrap();
            &&& c.stamp <= self.inputs@[i].stamp
            &&& c.stamp == self.inputs@[i].stamp ==> c.tree.wf() && c.tree.text@ == self.inputs@[i].text@
                && c.tree.language == self.inputs@[i].language
        }
        &&& forall|i: int| 0 <= i < self.extras@.len() && (#[trigger] self.extras@[i]).is_some() ==> {
            let e = self.extras@[i].unwrap();
            &&& e.stamp <= self.inputs@[i].stamp
            &&& e.membership <= self.membership
            &&& (e.stamp == self.inputs@[i].stamp && e.membership == self.membership) ==> {
                &&& self.trees@[i].is_some()
                &&& self.trees@[i].unwrap().stamp == e.stamp
                &&& e.extras@ == extras_of(self.trees@[i].unwrap().tree, self.uris@[i]@, uri_views(self.uris@))
            }
        }
    }

    /// The tree is current for document `i`.
    pub closed spec fn tree_fresh(&self, i: int) -> bool {
        &&& self.trees@[i].is_some()
        &&& self.trees@[i].unwrap().stamp == self.inputs@[i].stamp
    }

    /// The extras are current for document `i`.
    pub closed spec fn extras_fresh(&self, i: int) -> bool {
        &&& self.extras@[i].is_some()
        &&& self.extras@[i].unwrap().stamp == self.inputs@[i].stamp
        &&& self.extras@[i].unwrap().membership == self.membership
    }

    /// The syntax tree that the database holds for document `i`.
    pub closed spec fn tree_of(&self, i: int) -> SyntaxTree {
        self.trees@[i].unwrap().tree
    }

    /// Every document's tree is current.
    pub open spec fn all_fresh(&self) -> bool {
        forall|d: int| 0 <= d < self@.len() ==> #[trigger] self.tree_fresh(d)
    }

    /// Every held tree was parsed from its document's current text, in its
    /// current language.
    pub open spec fn trees_current(&self) -> bool {
        forall|d: int| 0 <= d < self@.len() ==> #[trigger] self.tree_of(d).wf() && self.tree_of(d).text@ == self@[d].text
            && self.tree_of(d).language == self@[d].language
    }

    /// Where `self` held a current tree, `after` holds the same tree, still
    /// current: a read with no edit in between reuses it.
    pub open spec fn keeps_trees(&self, after: &Database) -> bool {
        forall|d: int| 0 <= d < self@.len() && #[trigger] self.tree_fresh(d) ==> after.tree_fresh(d) && after.tree_of(d) == self.tree_of(d)
    }

    /// A current tree was parsed from the current text.
    pub proof fn lemma_fresh_current(&self, d: int)
        requires
            self.wf(),
            0 <= d < self@.len(),
            self.tree_fresh(d),
        ensures
            self.tree_of(d).wf(),
            self.tree_of(d).text@ == self@[d].text,
            self.tree_of(d).language == self@[d].language,
    {
        assert(self.trees@[d].is_some());
    }

    /// When every tree is current, every tree was parsed from its current text.
    pub proof fn lemma_all_current(&self)
        requires
            self.wf(),
            self.all_fresh(),
        ensures
            self.trees_current(),
    {
        assert forall|d: int| 0 <= d < self@.len() implies #[trigger] self.tree_of(d).wf() && self.tree_of(d).text@ == self@[d].text
            && self.tree_of(d).language == self@[d].language by {
            assert(self.tree_fresh(d));
            self.lemma_fresh_current(d);
        }
    }

    pub fn new() -> (db: Database)
        ensures
            db.wf(),
            db@ == Seq::<DocumentView>::empty(),
    {
        let db = Database { uris: Vec::new(), inputs: Vec::new(), revision: 0, membership: 0, trees: Vec::new(), extras: Vec::new() };
        assert(db@ =~= Seq::<DocumentView>::empty());
        db
    }

    pub fn len(&self) -> (n: usize)
        ensures
            n == self@.len(),
    {
        self.inputs.len()
    }

    /// The identifier of the document with URI `uri`, if it is known.
    pub fn document_id(&self, uri: &str) -> (r: Option<usize>)
        requires
            self.wf(),
        ensures
            r.is_some() ==> r.unwrap() < self@.len() && self@[r.unwrap() as int].uri == uri@,
            r.is_none() ==> forall|i: int| 0 <= i < self@.len() ==> #[trigger] self@[i].uri != uri@,
    {
        let u = to_chars(uri);
        self.find(&u)
    }

    fn find(&self, u: &Vec<char>) -> (r: Option<usize>)
        requires
            self.wf(),
        ensures
            r.is_some() ==> r.unwrap() < self@.len() && self@[r.unwrap() as int].uri == u@,
            r.is_none() ==> forall|i: int| 0 <= i < self@.len() ==> #[trigger] self@[i].uri != u@,
    {
        let mut i: usize = 0;
        while i < self.uris.len()
            invariant
                self.wf(),
                i <= self.uris@.len(),
                forall|j: int| 0 <= j < i ==> #[trigger] self@[j].uri != u@,
            decreases self.uris.len() - i,
        {
            if chars_eq(&self.uris[i], u) {
                return Some(i);
            }
            i = i + 1;
        }
        None
    }

    /// A fresh stamp, newer than every stamp in the database. When the
    /// counter is exhausted, all caches are dropped and stamps start over.
    fn next_stamp(&mut self) -> (s: u64)
        requires
            old(self).wf(),
        ensures
            final(self).wf(),
            final(self)@ == old(self)@,
            s == final(self).revision,
            forall|i: int| 0 <= i < final(self).inputs@.len() ==> #[trigger] final(self).inputs@[i].stamp < s,
            final(self).membership < s,
            final(self).uris@ == old(self).uris@,
    {
        if self.revision == u64::MAX {
            let n = self.inputs.len();
            let mut i: usize = 0;
            while i < n
                invariant
                    n == self.inputs@.len(),
                    i <= n,
                    self.inputs@.len() == self.uris@.len(),
                    self.trees@.len() == self.uris@.len(),
                    self.extras@.len() == self.uris@.len(),
                    self.uris@ == old(self).uris@,
                    self@ == old(self)@,
                    self.revision == u64::MAX,
                    forall|j: int| 0 <= j < i ==> #[trigger] self.inputs@[j].stamp == 0,
                    forall|j: int| 0 <= j < i ==> (#[trigger] self.trees@[j]).is_none(),
                    forall|j: int| 0 <= j < i ==> (#[trigger] self.extras@[j]).is_none(),
                decreases n - i,
            {
                self.trees.set(i, None);
                self.extras.set(i, None);
                let ghost before = self@;
                let mut input = DocumentInput { text: Vec::new(), language: Language::Other, visible: false, stamp: 0 };
                std::mem::swap(&mut input, &mut self.inputs[i]);
                input.stamp = 0;
                std::mem::swap(&mut input, &mut self.inputs[i]);
                assert(self@ =~= before);
                i = i + 1;
            }
            self.revision = 0;
            self.membership = 0;
        }
        self.revision = self.revision + 1;
        self.revision
    }

    /// Creates or replaces the document `uri` with `text` in `language`, and
    /// returns its identifier. A new document is visible.
    pub fn upsert_document(&mut self, uri: &str, text: &str, language: Language) -> (id: usize)
        requires
            old(self).wf(),
        ensures
            final(self).wf(),
            id < final(self)@.len(),
            final(self)@[id as int].uri == uri@,
            final(self)@[id as int].text == text@,
            final(self)@[id as int].language == language,
            id < old(self)@.len() ==> final(self)@ == old(self)@.update(id as int, DocumentView { uri: uri@, text: text@, language, visible: old(self)@[id as int].visible }),
            id == old(self)@.len() ==> final(self)@ == old(self)@.push(DocumentView { uri: uri@, text: text@, language, visible: true }),
            id < old(self)@.len() <==> exists|i: int| 0 <= i < old(self)@.len() && #[trigger] old(self)@[i].uri == uri@,
            id < old(self)@.len() ==> old(self)@[id as int].uri == uri@,
    {
        let u = to_chars(uri);
        let t = to_chars(text);
        match self.find(&u) {
            Some(id) => {
                let stamp = self.next_stamp();
                let ghost before = *self;
                let visible = self.inputs[id].visible;
                let mut input = DocumentInput { text: t, language, visible, stamp };
                std::mem::swap(&mut input, &mut self.inputs[id]);
                proof {
                    assert forall|i: int| 0 <= i < self.trees@.len() && (#[trigger] self.trees@[i]).is_some() implies {
                        let c = self.trees@[i].unwrap();
                        &&& c.stamp <= self.inputs@[i].stamp
                        &&& c.stamp == self.inputs@[i].stamp ==> c.tree.wf() && c.tree.text@ == self.inputs@[i].text@
                            && c.tree.language == self.inputs@[i].language
                    } by {
                        assert(before.trees@[i].is_some());
                    }
                    assert forall|i: int| 0 <= i < self.extras@.len() && (#[trigger] self.extras@[i]).is_some() implies {
                        let e = self.extras@[i].unwrap();
                        &&& e.stamp <= self.inputs@[i].stamp
                        &&& e.membership <= self.membership
                        &&& (e.stamp == self.inputs@[i].stamp && e.membership == self.membership) ==> {
                            &&& self.trees@[i].is_some()
                            &&& self.trees@[i].unwrap().stamp == e.stamp
                            &&& e.extras@ == extras_of(self.trees@[i].unwrap().tree, self.uris@[i]@, uri_views(self.uris@))
                        }
                    } by {
                        assert(before.extras@[i].is_some());
                    }
                    assert(self@ =~= old(self)@.update(id as int, DocumentView { uri: uri@, text: text@, language, visible: old(self)@[id as int].visible }));
                }
                id
            },
            None => {
                let stamp = self.next_stamp();
                let ghost before = *self;
                let id = self.inputs.len();
                self.uris.push(u);
                self.inputs.push(DocumentInput { text: t, language, visible: true, stamp });
                self.trees.push(None);
                self.extras.push(None);
                self.membership = stamp;
                proof {
                    assert forall|i: int| 0 <= i < self.inputs@.len() implies #[trigger] self.inputs@[i].stamp <= self.revision by {
                        if i < id {
                            assert(before.inputs@[i].stamp < stamp);
                        }
                    }
                    assert forall|i: int| 0 <= i < self.trees@.len() && (#[trigger] self.trees@[i]).is_some() implies {
                        let c = self.trees@[i].unwrap();
                        &&& c.stamp <= self.inputs@[i].stamp
                        &&& c.stamp == self.inputs@[i].stamp ==> c.tree.wf() && c.tree.text@ == self.inputs@[i].text@
                            && c.tree.language == self.inputs@[i].language
                    } by {
                        assert(i < id);
                        assert(before.trees@[i].is_some());
                    }
                    assert forall|i: int| 0 <= i < self.extras@.len() && (#[trigger] self.extras@[i]).is_some() implies {
                        let e = self.extras@[i].unwrap();
                        &&& e.stamp <= self.inputs@[i].stamp
                        &&& e.membership <= self.membership
                        &&& (e.stamp == self.inputs@[i].stamp && e.membership == self.membership) ==> {
                            &&& self.trees@[i].is_some()
                            &&& self.trees@[i].unwrap().stamp == e.stamp
                            &&& e.extras@ == extras_of(self.trees@[i].unwrap().tree, self.uris@[i]@, uri_views(self.uris@))
                        }
                    } by {
                        assert(i < id);
                        assert(before.extras@[i].is_some());
                        assert(before.extras@[i].unwrap().membership <= before.membership);
                    }
                    assert(self@ =~= old(self)@.push(DocumentView { uri: uri@, text: text@, language, visible: true }));
                    assert forall|i: int| 0 <= i < old(self)@.len() implies #[trigger] old(self)@[i].uri != uri@ by {
                    }
                }
                id
            },
        }
    }

    /// Marks document `doc` as open in an editor or not.
    pub fn set_visibility(&mut self, doc: usize, visible: bool)
        requires
            old(self).wf(),
            doc < old(self)@.len(),
        ensures
            final(self).wf(),
            final(self)@ == old(self)@.update(doc as int, DocumentView { visible, ..old(self)@[doc as int] }),
    {
        let ghost before = *self;
        let mut input = DocumentInput { text: Vec::new(), language: Language::Other, visible: false, stamp: 0 };
        std::mem::swap(&mut input, &mut self.inputs[doc]);
        input.visible = visible;
        std::mem::swap(&mut input, &mut self.inputs[doc]);
        proof {
            assert forall|i: int| 0 <= i < self.trees@.len() && (#[trigger] self.trees@[i]).is_some() implies {
                let c = self.trees@[i].unwrap();
                &&& c.stamp <= self.inputs@[i].stamp
                &&& c.stamp == self.inputs@[i].stamp ==> c.tree.wf() && c.tree.text@ == self.inputs@[i].text@
                    && c.tree.language == self.inputs@[i].language
            } by {
                assert(before.trees@[i].is_some());
            }
            assert forall|i: int| 0 <= i < self.extras@.len() && (#[trigger] self.extras@[i]).is_some() implies {
                let e = self.extras@[i].unwrap();
                &&& e.stamp <= self.inputs@[i].stamp
                &&& e.membership <= self.membership
                &&& (e.stamp == self.inputs@[i].stamp && e.membership == self.membership) ==> {
                    &&& self.trees@[i].is_some()
                    &&& self.trees@[i].unwrap().stamp == e.stamp
                    &&& e.extras@ == extras_of(self.trees@[i].unwrap().tree, self.uris@[i]@, uri_views(self.uris@))
                }
            } by {
                assert(before.extras@[i].is_some());
            }
            assert(self@ =~= old(self)@.update(doc as int, DocumentView { visible, ..old(self)@[doc as int] }));
        }
    }

    /// The current text of document `doc`.
    pub fn text(&self, doc: usize) -> (r: String)
        requires
            self.wf(),
            doc < self@.len(),
        ensures
            r@ == self@[doc as int].text,
    {
        crate::text::string_from_chars(self.inputs[doc].text.as_slice())
    }

    /// The URI of document `doc`.
    pub fn uri(&self, doc: usize) -> (r: String)
        requires
            self.wf(),
            doc < self@.len(),
        ensures
            r@ == self@[doc as int].uri,
    {
        crate::text::string_from_chars(self.uris[doc].as_slice())
    }

    /// Brings the cached tree of `doc` up to date, parsing only if its stamp
    /// is older than the text's.
    fn ensure_tree(&mut self, doc: usize)
        requires
            old(self).wf(),
            doc < old(self)@.len(),
        ensures
            final(self).wf(),
            final(self)@ == old(self)@,
            final(self).uris@ == old(self).uris@,
            final(self).tree_fresh(doc as int),
            forall|i: int| 0 <= i < old(self)@.len() && #[trigger] old(self).tree_fresh(i) ==> final(self).tree_fresh(i)
                && final(self).tree_of(i) == old(self).tree_of(i),
            forall|i: int| 0 <= i < old(self)@.len() && #[trigger] old(self).extras_fresh(i) ==> final(self).extras_fresh(i)
                && final(self).extras@[i] == old(self).extras@[i],
    {
        let fresh = match &self.trees[doc] {
            Some(c) => c.stamp == self.inputs[doc].stamp,
            None => false,
        };
        if !fresh {
            let ghost before = *self;
            let text = copy_vec(&self.inputs[doc].text);
            let tree = parse_chars(text, self.inputs[doc].language);
            let stamp = self.inputs[doc].stamp;
            self.trees.set(doc, Some(CachedTree { tree, stamp }));
            proof {
                assert forall|i: int| 0 <= i < self.extras@.len() && (#[trigger] self.extras@[i]).is_some() implies {
                    let e = self.extras@[i].unwrap();
                    &&& e.stamp <= self.inputs@[i].stamp
                    &&& e.membership <= self.membership
                    &&& (e.stamp == self.inputs@[i].stamp && e.membership == self.membership) ==> {
                        &&& self.trees@[i].is_some()
                        &&& self.trees@[i].unwrap().stamp == e.stamp
                        &&& e.extras@ == extras_of(self.trees@[i].unwrap().tree, self.uris@[i]@, uri_views(self.uris@))
                    }
                } by {
                    assert(before.extras@[i].is_some());
                }
                assert forall|i: int| 0 <= i < old(self)@.len() && #[trigger] old(self).extras_fresh(i) implies self.extras_fresh(i)
                    && self.extras@[i] == old(self).extras@[i] by {
                    assert(before.extras@[i].is_some());
                }
            }
        }
    }

    /// Brings the cached extras of `doc` up to date.
    fn ensure_extras(&mut self, doc: usize)
        requires
            old(self).wf(),
            doc < old(self)@.len(),
        ensures
            final(self).wf(),
            final(self)@ == old(self)@,
            final(self).uris@ == old(self).uris@,
            final(self).tree_fresh(doc as int),
            final(self).extras_fresh(doc as int),
            forall|i: int| 0 <= i < old(self)@.len() && #[trigger] old(self).tree_fresh(i) ==> final(self).tree_fresh(i)
                && final(self).tree_of(i) == old(self).tree_of(i),
            forall|i: int| 0 <= i < old(self)@.len() && #[trigger] old(self).extras_fresh(i) ==> final(self).extras_fresh(i)
                && final(self).extras@[i] == old(self).extras@[i],
    {
        self.ensure_tree(doc);
        let ghost mid = *self;
        let fresh = match &self.extras[doc] {
            Some(e) => e.stamp == self.inputs[doc].stamp && e.membership == self.membership,
            None => false,
        };
        assert(fresh == mid.extras_fresh(doc as int));
        if fresh {
            return;
        }
        {
            let ghost before = *self;
            let e = match &self.trees[doc] {
                Some(c) => analyze(&c.tree, &self.uris[doc], &self.uris),
                None => Extras::empty(),
            };
            let stamp = self.inputs[doc].stamp;
            let membership = self.membership;
            self.extras.set(doc, Some(CachedExtras { extras: e, stamp, membership }));
            proof {
                assert forall|i: int| 0 <= i < self.extras@.len() && (#[trigger] self.extras@[i]).is_some() implies {
                    let e = self.extras@[i].unwrap();
                    &&& e.stamp <= self.inputs@[i].stamp
                    &&& e.membership <= self.membership
                    &&& (e.stamp == self.inputs@[i].stamp && e.membership == self.membership) ==> {
                        &&& self.trees@[i].is_some()
                        &&& self.trees@[i].unwrap().stamp == e.stamp
                        &&& e.extras@ == extras_of(self.trees@[i].unwrap().tree, self.uris@[i]@, uri_views(self.uris@))
                    }
                } by {
                    if i != doc {
                        assert(before.extras@[i].is_some());
                    }
                }
            }
        }
        proof {
            assert forall|i: int| 0 <= i < old(self)@.len() && #[trigger] old(self).tree_fresh(i) implies self.tree_fresh(i)
                && self.tree_of(i) == old(self).tree_of(i) by {
                assert(mid.tree_fresh(i));
                assert(self.trees@[i] == mid.trees@[i]);
            }
            assert forall|i: int| 0 <= i < old(self)@.len() && #[trigger] old(self).extras_fresh(i) implies self.extras_fresh(i)
                && self.extras@[i] == old(self).extras@[i] by {
                assert(mid.extras_fresh(i));
                assert(i != doc);
                assert(self.extras@[i] == mid.extras@[i]);
            }
        }
    }

    /// The syntax tree of document `doc`, parsed from its current text.
    pub fn syntax_tree(&mut self, doc: usize) -> (r: SyntaxTree)
        requires
            old(self).wf(),
            doc < old(self)@.len(),
        ensures
            final(self).wf(),
            final(self)@ == old(self)@,
            r.wf(),
            r.text@ == final(self)@[doc as int].text,
            r.language == final(self)@[doc as int].language,
            r.text@ == final(self).tree_of(doc as int).text@,
            r.tokens@ == final(self).tree_of(doc as int).tokens@,
            r.nodes@ == final(self).tree_of(doc as int).nodes@,
            final(self).tree_of(doc as int).wf(),
            final(self).tree_of(doc as int).language == r.language,
    {
        self.ensure_tree(doc);
        let r = match &self.trees[doc] {
            Some(c) => c.tree.snapshot(),
            None => crate::syntax::parse_chars(Vec::new(), Language::Other),
        };
        r
    }

    /// The extras of document `doc`: those of the tree that `syntax_tree`
    /// gives for its current text, with links resolved against the current
    /// documents.
    pub fn extras(&mut self, doc: usize) -> (r: Extras)
        requires
            old(self).wf(),
            doc < old(self)@.len(),
        ensures
            final(self).wf(),
            final(self)@ == old(self)@,
            final(self).tree_of(doc as int).wf(),
            final(self).tree_of(doc as int).text@ == final(self)@[doc as int].text,
            final(self).tree_of(doc as int).language == final(self)@[doc as int].language,
            final(self).tree_fresh(doc as int),
            old(self).keeps_trees(&*final(self)),
            r@ == extras_of(final(self).tree_of(doc as int), final(self)@[doc as int].uri, doc_uris(final(self)@)),
    {
        self.ensure_extras(doc);
        proof {
            assert(doc_uris(self@) =~= uri_views(self.uris@));
            self.lemma_fresh_current(doc as int);
        }
        match &self.extras[doc] {
            Some(e) => e.extras.snapshot(),
            None => Extras::empty(),
        }
    }


    /// The links between documents that compilation units follow: for each
    /// document, the known targets of its input and bibliography links.
    pub open spec fn unit_graph(&self) -> Seq<Seq<usize>> {
        Seq::new(
            self@.len(),
            |i: int| unit_link_targets(extras_of(self.tree_of(i), self@[i].uri, doc_uris(self@)).explicit_links, self@.len()),
        )
    }

    /// Whether each document holds a document environment.
    pub open spec fn document_flags(&self) -> Seq<bool> {
        Seq::new(
            self@.len(),
            |i: int| extras_of(self.tree_of(i), self@[i].uri, doc_uris(self@)).has_document_environment,
        )
    }

    /// Brings the extras of every document up to date.
    fn ensure_all_extras(&mut self)
        requires
            old(self).wf(),
        ensures
            final(self).wf(),
            final(self)@ == old(self)@,
            final(self).uris@ == old(self).uris@,
            forall|i: int| 0 <= i < final(self)@.len() ==> #[trigger] final(self).extras_fresh(i),
            forall|i: int| 0 <= i < final(self)@.len() ==> #[trigger] final(self).tree_fresh(i),
            old(self).keeps_trees(&*final(self)),
    {
        let n = self.inputs.len();
        let mut i: usize = 0;
        while i < n
            invariant
                self.wf(),
                self@ == old(self)@,
                self.uris@ == old(self).uris@,
                n == self@.len(),
                n == self.inputs@.len(),
                i <= n,
                forall|j: int| 0 <= j < i ==> #[trigger] self.extras_fresh(j),
                forall|j: int| 0 <= j < i ==> #[trigger] self.tree_fresh(j),
                old(self).keeps_trees(&*self),
            decreases n - i,
        {
            let ghost before = *self;
            self.ensure_extras(i);
            assert(old(self).keeps_trees(&*self)) by {
                assert forall|d: int| 0 <= d < old(self)@.len() && #[trigger] old(self).tree_fresh(d) implies self.tree_fresh(d) && self.tree_of(d) == old(self).tree_of(d) by {
                    assert(before.tree_fresh(d));
                }
            }
            proof {
                assert forall|j: int| 0 <= j < i + 1 implies #[trigger] self.extras_fresh(j) by {
                    if j < i {
                        assert(before.extras_fresh(j));
                    }
                }
                assert forall|j: int| 0 <= j < i + 1 implies #[trigger] self.tree_fresh(j) by {
                    if j < i {
                        assert(before.tree_fresh(j));
                    }
                }
            }
            i = i + 1;
        }
    }

    /// The input and bibliography targets of document `i`, from its cached extras.
    fn unit_link_targets_of(&self, i: usize) -> (r: Vec<usize>)
        requires
            self.wf(),
            i < self@.len(),
            self.extras_fresh(i as int),
        ensures
            r@ == self.unit_graph()[i as int],
    {
        proof {
            assert(doc_uris(self@) =~= uri_views(self.uris@));
        }
        let n = self.inputs.len();
        let mut r: Vec<usize> = Vec::new();
        match &self.extras[i] {
            Some(c) => {
                let links = &c.extras.explicit_links;
                let ghost lv = links_view(links@);
                let mut k: usize = 0;
                while k < links.len()
                    invariant
                        k <= links@.len(),
                        lv == links_view(links@),
                        r@ == unit_link_targets(lv.take(k as int), n as nat),
                    decreases links.len() - k,
                {
                    assert(lv.take(k + 1).drop_last() =~= lv.take(k as int));
                    let l = &links[k];
                    if l.kind == ExplicitLinkKind::Latex || l.kind == ExplicitLinkKind::Bibtex {
                        let ghost start = r@;
                        let mut m: usize = 0;
                        while m < l.targets.len()
                            invariant
                                m <= l.targets@.len(),
                                r@ == start + filter_lt(l.targets@.take(m as int), n as nat),
                            decreases l.targets.len() - m,
                        {
                            assert(l.targets@.take(m + 1).drop_last() =~= l.targets@.take(m as int));
                            let ghost before = r@;
                            if l.targets[m] < n {
                                r.push(l.targets[m]);
                                assert(r@ =~= before + seq![l.targets@[m as int]]);
                            } else {
                                assert(r@ =~= before + Seq::<usize>::empty());
                            }
                            assert(start + filter_lt(l.targets@.take(m + 1), n as nat) =~= start + filter_lt(l.targets@.take(m as int), n as nat) + if l.targets@[m as int] < n { seq![l.targets@[m as int]] } else { Seq::<usize>::empty() });
                            m = m + 1;
                        }
                        assert(l.targets@.take(m as int) =~= l.targets@);
                        assert(lv[k as int] == link_v(*l));
                    } else {
                        assert(r@ =~= r@ + Seq::<usize>::empty());
                    }
                    k = k + 1;
                }
                assert(lv.take(k as int) =~= lv);
            },
            None => {},
        }
        r
    }

    /// The compilation unit of `doc`: every document reachable from it along
    /// input and bibliography links taken in either direction, `doc` first,
    /// each once.
    pub fn compilation_unit(&mut self, doc: usize) -> (r: Vec<usize>)
        requires
            old(self).wf(),
            doc < old(self)@.len(),
        ensures
            final(self).wf(),
            final(self)@ == old(self)@,
            r@.len() >= 1,
            r@[0] == doc,
            r@.no_duplicates(),
            forall|j: int| 0 <= j < r@.len() ==> #[trigger] r@[j] < final(self)@.len(),
            forall|x: int| 0 <= x < final(self)@.len() ==> (r@.contains(x as usize) <==> reachable(final(self).unit_graph(), doc as int, x)),
            forall|i: int| 0 <= i < final(self)@.len() ==> #[trigger] final(self).extras_fresh(i),
            final(self).all_fresh(),
            final(self).trees_current(),
            old(self).keeps_trees(&*final(self)),
    {
        self.ensure_all_extras();
        let n = self.inputs.len();
        let mut links: Vec<Vec<usize>> = Vec::new();
        let mut i: usize = 0;
        while i < n
            invariant
                self.wf(),
                n == self@.len(),
                i <= n,
                forall|j: int| 0 <= j < n ==> #[trigger] self.extras_fresh(j),
                forall|j: int| 0 <= j < n ==> #[trigger] self.tree_fresh(j),
                links@.len() == i,
                forall|j: int| 0 <= j < i ==> (#[trigger] links@[j])@ == self.unit_graph()[j],
            decreases n - i,
        {
            let t = self.unit_link_targets_of(i);
            links.push(t);
            i = i + 1;
        }
        proof {
            assert(crate::graph::links_view(links@) =~= self.unit_graph());
            lemma_unit_graph_ok(self.unit_graph(), n as nat);
            self.lemma_all_current();
        }
        compilation_unit(&links, doc)
    }

    /// The root of `doc`'s compilation unit: a member with a document
    /// environment if there is one (the nearest, in breadth-first order),
    /// else `doc` itself.
    pub fn compilation_unit_root(&mut self, doc: usize) -> (r: usize)
        requires
            old(self).wf(),
            doc < old(self)@.len(),
        ensures
            final(self).wf(),
            final(self)@ == old(self)@,
            r < final(self)@.len(),
            reachable(final(self).unit_graph(), doc as int, r as int),
            (exists|x: int| 0 <= x < final(self)@.len() && reachable(final(self).unit_graph(), doc as int, x)
                && #[trigger] final(self).document_flags()[x]) ==> final(self).document_flags()[r as int],
            !final(self).document_flags()[r as int] ==> r == doc,
            exists|u: Seq<usize>| #[trigger] is_unit(&*final(self), doc as int, u) && r == root_from(u, final(self).document_flags(), 0),
    {
        let unit = self.compilation_unit(doc);
        let n = self.inputs.len();
        let mut flags: Vec<bool> = Vec::new();
        let mut i: usize = 0;
        proof {
            assert(doc_uris(self@) =~= uri_views(self.uris@));
        }
        while i < n
            invariant
                self.wf(),
                n == self@.len(),
                i <= n,
                doc_uris(self@) == uri_views(self.uris@),
                forall|j: int| 0 <= j < n ==> #[trigger] self.extras_fresh(j),
                forall|j: int| 0 <= j < n ==> #[trigger] self.tree_fresh(j),
                flags@.len() == i,
                forall|j: int| 0 <= j < i ==> #[trigger] flags@[j] == self.document_flags()[j],
            decreases n - i,
        {
            let f = match &self.extras[i] {
                Some(c) => c.extras.has_document_environment,
                None => false,
            };
            proof {
                assert(self.extras_fresh(i as int));
                assert(self.extras@[i as int].is_some());
                let e = self.extras@[i as int].unwrap();
                assert(e.extras@ == extras_of(self.trees@[i as int].unwrap().tree, self.uris@[i as int]@, uri_views(self.uris@)));
                assert(self@[i as int].uri == self.uris@[i as int]@);
                assert(f == e.extras@.has_document_environment);
                assert(f == self.document_flags()[i as int]);
            }
            let ghost before = flags@;
            flags.push(f);
            assert forall|j: int| 0 <= j < i + 1 implies #[trigger] flags@[j] == self.document_flags()[j] by {
                if j < i {
                    assert(flags@[j] == before[j]);
                }
            }
            i = i + 1;
        }
        let r = unit_root(&unit, &flags);
        proof {
            assert(flags@ =~= self.document_flags());
            lemma_root_from(unit@, flags@, 0);
            if exists|x: int| 0 <= x < self@.len() && reachable(self.unit_graph(), doc as int, x) && #[trigger] self.document_flags()[x] {
                let x = choose|x: int| 0 <= x < self@.len() && reachable(self.unit_graph(), doc as int, x) && #[trigger] self.document_flags()[x];
                assert(unit@.contains(x as usize));
                let j = choose|j: int| 0 <= j < unit@.len() && unit@[j] == x as usize;
                assert(flags@[unit@[j] as int]);
            }
            assert(unit@.contains(r));
            assert(is_unit(&*self, doc as int, unit@));
        }
        r
    }


    /// The line index of document `doc`'s current text.
    pub fn line_index(&self, doc: usize) -> (r: LineIndex)
        requires
            self.wf(),
            doc < self@.len(),
        ensures
            r.wf(),
            r.starts@ == line_starts(self@[doc as int].text, self@[doc as int].text.len() as int),
            r.len == self@[doc as int].text.len(),
    {
        LineIndex::new(&self.inputs[doc].text)
    }

    /// The offset of a line and column in document `doc`, if it lies in the text.
    pub fn offset_at(&self, doc: usize, line: usize, character: usize) -> (r: Option<usize>)
        requires
            self.wf(),
            doc < self@.len(),
        ensures
            r.is_some() == position_offset(line_starts(self@[doc as int].text, self@[doc as int].text.len() as int), self@[doc as int].text.len() as int, line as int, character as int).is_some(),
            r.is_some() ==> r.unwrap() as int == position_offset(line_starts(self@[doc as int].text, self@[doc as int].text.len() as int), self@[doc as int].text.len() as int, line as int, character as int).unwrap(),
            r.is_some() ==> r.unwrap() <= self@[doc as int].text.len(),
    {
        let index = self.line_index(doc);
        let r = index.offset(LineCol { line, character });
        proof {
            if r.is_some() {
                let l = line as int;
                if l + 1 < index.starts@.len() {
                    assert(index.starts@[l + 1] <= index.len);
                }
            }
        }
        r
    }

    /// The line and column range of `range` in document `doc`.
    pub fn line_col_range(&self, doc: usize, range: TextRange) -> (r: Option<LineColRange>)
        requires
            self.wf(),
            doc < self@.len(),
        ensures
            r.is_some() <==> (range.start <= self@[doc as int].text.len() && range.end <= self@[doc as int].text.len()),
            r.is_some() ==> is_line_col(line_starts(self@[doc as int].text, self@[doc as int].text.len() as int), range.start as int, r.unwrap().start)
                && is_line_col(line_starts(self@[doc as int].text, self@[doc as int].text.len() as int), range.end as int, r.unwrap().end),
    {
        let index = self.line_index(doc);
        if range.start <= index.len && range.end <= index.len {
            Some(index.line_col_range(range))
        } else {
            None
        }
    }

    /// The cached extras of document `i`.
    fn cached_extras(&self, i: usize) -> (r: Extras)
        requires
            self.wf(),
            i < self@.len(),
            self.extras_fresh(i as int),
        ensures
            r@ == extras_of(self.tree_of(i as int), self@[i as int].uri, doc_uris(self@)),
    {
        proof {
            assert(doc_uris(self@) =~= uri_views(self.uris@));
        }
        match &self.extras[i] {
            Some(e) => e.extras.snapshot(),
            None => Extras::empty(),
        }
    }

    /// The cached tree of document `i`.
    fn cached_tree(&self, i: usize) -> (r: SyntaxTree)
        requires
            self.wf(),
            i < self@.len(),
            self.tree_fresh(i as int),
        ensures
            r.wf(),
            r.text@ == self.tree_of(i as int).text@,
            r.tokens@ == self.tree_of(i as int).tokens@,
            r.nodes@ == self.tree_of(i as int).nodes@,
            r.language == self.tree_of(i as int).language,
            r.text@ == self@[i as int].text,
    {
        match &self.trees[i] {
            Some(c) => c.tree.snapshot(),
            None => crate::syntax::parse_chars(Vec::new(), Language::Other),
        }
    }

    /// The compilation unit of `doc` with, for each member, its URI, its
    /// syntax tree and its extras, all computed from the current inputs.
    pub fn unit_snapshot(&mut self, doc: usize) -> (r: UnitSnapshot)
        requires
            old(self).wf(),
            doc < old(self)@.len(),
        ensures
            final(self).wf(),
            final(self)@ == old(self)@,
            is_unit(&*final(self), doc as int, r.docs@),
            r.extras@.len() == r.docs@.len(),
            r.trees@.len() == r.docs@.len(),
            r.uris@.len() == r.docs@.len(),
            forall|j: int| 0 <= j < r.docs@.len() ==> (#[trigger] r.extras@[j])@ == extras_of(
                final(self).tree_of(r.docs@[j] as int),
                final(self)@[r.docs@[j] as int].uri,
                doc_uris(final(self)@),
            ),
            forall|j: int| 0 <= j < r.docs@.len() ==> (#[trigger] r.trees@[j]).wf() && r.trees@[j].text@
                == final(self)@[r.docs@[j] as int].text,
            forall|j: int| 0 <= j < r.docs@.len() ==> (#[trigger] r.uris@[j])@ == final(self)@[r.docs@[j] as int].uri,
            final(self).all_fresh(),
            final(self).trees_current(),
            old(self).keeps_trees(&*final(self)),
    {
        let docs = self.compilation_unit(doc);
        let mut extras: Vec<Extras> = Vec::new();
        let mut trees: Vec<SyntaxTree> = Vec::new();
        let mut uris: Vec<String> = Vec::new();
        let mut j: usize = 0;
        while j < docs.len()
            invariant
                self.wf(),
                j <= docs@.len(),
                forall|m: int| 0 <= m < docs@.len() ==> #[trigger] docs@[m] < self@.len(),
                forall|i: int| 0 <= i < self@.len() ==> #[trigger] self.extras_fresh(i),
                forall|i: int| 0 <= i < self@.len() ==> #[trigger] self.tree_fresh(i),
                extras@.len() == j,
                trees@.len() == j,
                uris@.len() == j,
                forall|m: int| 0 <= m < j ==> (#[trigger] extras@[m])@ == extras_of(
                    self.tree_of(docs@[m] as int),
                    self@[docs@[m] as int].uri,
                    doc_uris(self@),
                ),
                forall|m: int| 0 <= m < j ==> (#[trigger] trees@[m]).wf() && trees@[m].text@ == self@[docs@[m] as int].text,
                forall|m: int| 0 <= m < j ==> (#[trigger] uris@[m])@ == self@[docs@[m] as int].uri,
            decreases docs.len() - j,
        {
            let d = docs[j];
            extras.push(self.cached_extras(d));
            trees.push(self.cached_tree(d));
            uris.push(self.uri(d));
            j = j + 1;
        }
        UnitSnapshot { docs, uris, trees, extras }
    }


    /// Brings the syntax tree of `doc` up to date without copying it.
    pub fn refresh_tree(&mut self, doc: usize)
        requires
            old(self).wf(),
            doc < old(self)@.len(),
        ensures
            final(self).wf(),
            final(self)@ == old(self)@,
            final(self).tree_fresh(doc as int),
            final(self).tree_of(doc as int).wf(),
            final(self).tree_of(doc as int).text@ == final(self)@[doc as int].text,
            final(self).tree_of(doc as int).language == final(self)@[doc as int].language,
            old(self).keeps_trees(&*final(self)),
    {
        self.ensure_tree(doc);
        proof {
            self.lemma_fresh_current(doc as int);
        }
    }

    /// The syntax tree held for `doc`, once it is up to date.
    pub fn tree_ref(&self, doc: usize) -> (r: &SyntaxTree)
        requires
            self.wf(),
            doc < self@.len(),
            self.tree_fresh(doc as int),
        ensures
            *r == self.tree_of(doc as int),
            r.wf(),
    {
        self.trees[doc].as_ref().unwrap().tree_field()
    }

}

/// The elements of `s` below `n`, in order.
pub open spec fn filter_lt(s: Seq<usize>, n: nat) -> Seq<usize>
    decreases s.len(),
{
    if s.len() == 0 {
        Seq::empty()
    } else {
        filter_lt(s.drop_last(), n) + if s.last() < n { seq![s.last()] } else { Seq::empty() }
    }
}

/// The targets below `n` of the input and bibliography links among `links`.
pub open spec fn unit_link_targets(links: Seq<crate::extras::LinkV>, n: nat) -> Seq<usize>
    decreases links.len(),
{
    if links.len() == 0 {
        Seq::empty()
    } else {
        let l = links.last();
        unit_link_targets(links.drop_last(), n) + if l.3 == ExplicitLinkKind::Latex || l.3 == ExplicitLinkKind::Bibtex {
            filter_lt(l.2, n)
        } else {
            Seq::empty()
        }
    }
}

proof fn lemma_filter_lt(s: Seq<usize>, n: nat)
    ensures
        forall|j: int| 0 <= j < filter_lt(s, n).len() ==> #[trigger] filter_lt(s, n)[j] < n,
    decreases s.len(),
{
    if s.len() > 0 {
        lemma_filter_lt(s.drop_last(), n);
        let a = filter_lt(s.drop_last(), n);
        let b: Seq<usize> = if s.last() < n { seq![s.last()] } else { Seq::empty() };
        assert forall|j: int| 0 <= j < (a + b).len() implies #[trigger] (a + b)[j] < n by {
            if j >= a.len() {
                assert((a + b)[j] == b[j - a.len()]);
            } else {
                assert((a + b)[j] == a[j]);
            }
        }
    }
}

proof fn lemma_unit_link_targets(links: Seq<crate::extras::LinkV>, n: nat)
    ensures
        forall|j: int| 0 <= j < unit_link_targets(links, n).len() ==> #[trigger] unit_link_targets(links, n)[j] < n,
    decreases links.len(),
{
    if links.len() > 0 {
        lemma_unit_link_targets(links.drop_last(), n);
        lemma_filter_lt(links.last().2, n);
        let l = links.last();
        let a = unit_link_targets(links.drop_last(), n);
        let b: Seq<usize> = if l.3 == ExplicitLinkKind::Latex || l.3 == ExplicitLinkKind::Bibtex { filter_lt(l.2, n) } else { Seq::empty() };
        assert forall|j: int| 0 <= j < (a + b).len() implies #[trigger] (a + b)[j] < n by {
            if j >= a.len() {
                assert((a + b)[j] == b[j - a.len()]);
            } else {
                assert((a + b)[j] == a[j]);
            }
        }
    }
}

proof fn lemma_unit_graph_ok(g: Seq<Seq<usize>>, n: nat)
    requires
        g.len() == n,
        forall|i: int| 0 <= i < n ==> exists|l: Seq<crate::extras::LinkV>| #[trigger] g[i] == unit_link_targets(l, n),
    ensures
        links_ok(g),
{
    assert forall|i: int, j: int| 0 <= i < g.len() && 0 <= j < g[i].len() implies #[trigger] g[i][j] < g.len() by {
        let l = choose|l: Seq<crate::extras::LinkV>| #[trigger] g[i] == unit_link_targets(l, n);
        lemma_unit_link_targets(l, n);
    }
}

proof fn lemma_root_from(unit: Seq<usize>, flags: Seq<bool>, i: int)
    requires
        unit.len() >= 1,
        0 <= i,
    ensures
        root_from(unit, flags, i) == unit[0] || exists|j: int| i <= j < unit.len() && unit[j] == root_from(unit, flags, i),
        root_from(unit, flags, i) != unit[0] ==> (root_from(unit, flags, i) < flags.len() && flags[root_from(unit, flags, i) as int]),
        (exists|j: int| i <= j < unit.len() && #[trigger] unit[j] < flags.len() && flags[unit[j] as int]) ==> (root_from(unit, flags, i) < flags.len() && flags[root_from(unit, flags, i) as int]),
    decreases unit.len() - i,
{
    if i < unit.len() {
        lemma_root_from(unit, flags, i + 1);
        if exists|j: int| i <= j < unit.len() && #[trigger] unit[j] < flags.len() && flags[unit[j] as int] {
            let j = choose|j: int| i <= j < unit.len() && #[trigger] unit[j] < flags.len() && flags[unit[j] as int];
            if j > i {
                assert(i + 1 <= j < unit.len() && unit[j] < flags.len() && flags[unit[j] as int]);
            }
        }
    }
}

/// Membership in compilation units is symmetric: when `a` links to `b`, each
/// is reachable from the other, so each lies in the other's unit.
pub proof fn lemma_unit_symmetry(db: &Database, a: int, b: int)
    requires
        0 <= a < db@.len(),
        0 <= b < db@.len(),
        db.unit_graph()[a].contains(b as usize),
    ensures
        reachable(db.unit_graph(), a, b),
        reachable(db.unit_graph(), b, a),
{
    crate::graph::lemma_link_symmetric(db.unit_graph(), a, b);
}

/// A compilation unit and what a feature reads of its members.
pub struct UnitSnapshot {
    pub docs: Vec<usize>,
    pub uris: Vec<String>,
    pub trees: Vec<SyntaxTree>,
    pub extras: Vec<Extras>,
}

/// `u` lists the compilation unit of `doc`: `doc` first, each member once,
/// and exactly the documents reachable from `doc`.
pub open spec fn is_unit(db: &Database, doc: int, u: Seq<usize>) -> bool {
    &&& u.len() >= 1
    &&& u[0] == doc
    &&& u.no_duplicates()
    &&& forall|j: int| 0 <= j < u.len() ==> #[trigger] u[j] < db@.len()
    &&& forall|x: int| 0 <= x < db@.len() ==> (u.contains(x as usize) <==> reachable(db.unit_graph(), doc, x))
}

} // verus!
