//! The lossless syntax tree: the source text, its tokens, and an arena of
//! nodes in pre-order, each spanning a range of tokens.
use vstd::prelude::*;
use crate::lexer::{Language, Token, TokenKind, lexed};

verus! {

#[derive(Debug, Clone, Copy, PartialEq, Eq, Structural)]
pub enum NodeKind {
    Root,
    Text,
    CurlyGroup,
    BrackGroup,
    Command,
    Environment,
    Error,
    Junk,
    Entry,
    StringDef,
    Field,
    Value,
    Quoted,
    Reference,
}

/// A node spans the tokens `[first, last)`; its descendants are the nodes
/// `(index, end)` of the arena.
#[derive(Debug, Clone, Copy, PartialEq, Eq, Structural)]
pub struct Node {
    pub kind: NodeKind,
    pub first: usize,
    pub last: usize,
    pub end: usize,
}

/// A parsed document. The tree owns the text it was parsed from.
#[derive(Debug, Clone)]
pub struct SyntaxTree {
    pub language: Language,
    pub text: Vec<char>,
    pub tokens: Vec<Token>,
    pub nodes: Vec<Node>,
}

/// Node `k` lies within the tokens, and its descendants within it.
pub open spec fn node_ok(nodes: Seq<Node>, k: int, ntok: nat) -> bool {
    let n = nodes[k];
    &&& n.first <= n.last <= ntok
    &&& k < n.end <= nodes.len()
    &&& forall|j: int|
        k < j < n.end ==> n.first <= #[trigger] nodes[j].first && nodes[j].last <= n.last
            && nodes[j].end <= n.end
}

/// Every node is well placed, and token ranges never move backwards in
/// pre-order.
pub open spec fn nodes_ok(nodes: Seq<Node>, ntok: nat) -> bool {
    &&& forall|k: int| 0 <= k < nodes.len() ==> #[trigger] node_ok(nodes, k, ntok)
    &&& forall|k: int| 0 < k < nodes.len() ==> nodes[k - 1].first <= #[trigger] nodes[k].first
}

/// The token kind that a node of kind `kind` starts with, if it has one.
pub open spec fn opening_token(kind: NodeKind) -> Option<TokenKind> {
    match kind {
        NodeKind::Command | NodeKind::Environment => Some(TokenKind::CommandName),
        NodeKind::CurlyGroup => Some(TokenKind::LCurly),
        NodeKind::BrackGroup => Some(TokenKind::LBrack),
        NodeKind::Entry | NodeKind::StringDef => Some(TokenKind::EntryType),
        NodeKind::Field | NodeKind::Reference => Some(TokenKind::Word),
        NodeKind::Quoted => Some(TokenKind::Quote),
        _ => None,
    }
}

/// Every node whose kind has an opening token starts at such a token.
#[verifier::opaque]
pub open spec fn kinds_ok(nodes: Seq<Node>, toks: Seq<Token>) -> bool {
    forall|k: int|
        0 <= k < nodes.len() && (#[trigger] nodes[k]).kind != NodeKind::Root && opening_token(nodes[k].kind).is_some()
            ==> nodes[k].first < toks.len() && toks[nodes[k].first as int].kind == opening_token(nodes[k].kind).unwrap()
}

pub proof fn lemma_kinds_ok_empty(toks: Seq<Token>)
    ensures
        kinds_ok(Seq::empty(), toks),
{
    reveal(kinds_ok);
}

pub(crate) proof fn lemma_kinds_ok_push(nodes: Seq<Node>, n: Node, toks: Seq<Token>)
    requires
        kinds_ok(nodes, toks),
        opening_token(n.kind).is_some() ==> n.first < toks.len() && toks[n.first as int].kind == opening_token(n.kind).unwrap(),
    ensures
        kinds_ok(nodes.push(n), toks),
{
    reveal(kinds_ok);
    let new_n = nodes.push(n);
    assert forall|k: int|
        0 <= k < new_n.len() && (#[trigger] new_n[k]).kind != NodeKind::Root && opening_token(new_n[k].kind).is_some()
            implies new_n[k].first < toks.len() && toks[new_n[k].first as int].kind == opening_token(new_n[k].kind).unwrap() by {
        if k < nodes.len() {
            assert(new_n[k] == nodes[k]);
        }
    }
}

proof fn lemma_kinds_ok_update(nodes: Seq<Node>, i: int, n: Node, toks: Seq<Token>)
    requires
        kinds_ok(nodes, toks),
        0 <= i < nodes.len(),
        n.kind == nodes[i].kind,
        n.first == nodes[i].first,
    ensures
        kinds_ok(nodes.update(i, n), toks),
{
    reveal(kinds_ok);
    let new_n = nodes.update(i, n);
    assert forall|k: int|
        0 <= k < new_n.len() && (#[trigger] new_n[k]).kind != NodeKind::Root && opening_token(new_n[k].kind).is_some()
            implies new_n[k].first < toks.len() && toks[new_n[k].first as int].kind == opening_token(new_n[k].kind).unwrap() by {
        assert(new_n[k].kind == nodes[k].kind && new_n[k].first == nodes[k].first);
    }
}

/// Each token is a range of the text.
pub open spec fn tokens_in(text: Seq<char>, toks: Seq<Token>) -> bool {
    forall|i: int| 0 <= i < toks.len() ==> #[trigger] toks[i].start <= toks[i].end <= text.len()
}

impl SyntaxTree {
    /// The tree is the tokenization of its text, with a root node over all
    /// tokens and well placed nodes below it.
    pub open spec fn wf(&self) -> bool {
        &&& lexed(self.text@, self.tokens@, self.language)
        &&& tokens_in(self.text@, self.tokens@)
        &&& nodes_ok(self.nodes@, self.tokens@.len())
        &&& kinds_ok(self.nodes@, self.tokens@)
        &&& self.nodes@ == crate::syntax::grammar_nodes(self.language, self.text@, self.tokens@)
        &&& self.nodes@.len() >= 1
        &&& self.nodes@[0].kind == NodeKind::Root
        &&& self.nodes@[0].first == 0
        &&& self.nodes@[0].last == self.tokens@.len()
        &&& self.nodes@[0].end == self.nodes@.len()
    }

    /// The text of token `t`.
    pub open spec fn token_text(&self, t: int) -> Seq<char> {
        self.text@.subrange(self.tokens@[t].start as int, self.tokens@[t].end as int)
    }

    /// The character range that node `k` spans.
    pub open spec fn node_range(&self, k: int) -> (int, int) {
        let n = self.nodes@[k];
        if n.first < n.last {
            (self.tokens@[n.first as int].start as int, self.tokens@[n.last - 1].end as int)
        } else if n.first < self.tokens@.len() {
            (self.tokens@[n.first as int].start as int, self.tokens@[n.first as int].start as int)
        } else {
            (self.text@.len() as int, self.text@.len() as int)
        }
    }
}

/// The nodes of `old` are kept, in place, in `new`.
pub open spec fn extends(old: Seq<Node>, new: Seq<Node>) -> bool {
    &&& new.len() >= old.len()
    &&& forall|k: int| 0 <= k < old.len() ==> #[trigger] new[k] == old[k]
}

/// The nodes added after `from` lie within tokens `[p0, p1)`.
pub open spec fn fresh_within(from: int, nodes: Seq<Node>, p0: int, p1: int) -> bool {
    forall|j: int|
        from <= j < nodes.len() ==> p0 <= #[trigger] nodes[j].first && nodes[j].last <= p1
            && nodes[j].end <= nodes.len()
}

pub open spec fn firsts_le(nodes: Seq<Node>, pos: int) -> bool {
    forall|k: int| 0 <= k < nodes.len() ==> #[trigger] nodes[k].first <= pos
}

/// What every parsing step guarantees: it moves forward from `p0` to `p1`,
/// keeps the nodes it found, and adds well placed nodes inside `[p0, p1)`.
pub open spec fn step_ok(old: Seq<Node>, new: Seq<Node>, p0: int, p1: int, ntok: nat) -> bool {
    &&& p0 <= p1 <= ntok
    &&& extends(old, new)
    &&& fresh_within(old.len() as int, new, p0, p1)
    &&& nodes_ok(new, ntok)
    &&& firsts_le(new, p1)
}

/// Chains a parsing step after earlier ones made since `a`.
pub proof fn lemma_chain(a: Seq<Node>, b: Seq<Node>, c: Seq<Node>, from: int, p0: int, p1: int, p2: int, ntok: nat)
    requires
        extends(a, b),
        a.len() <= from,
        fresh_within(from, b, p0, p1),
        step_ok(b, c, p1, p2, ntok),
        p0 <= p1,
    ensures
        extends(a, c),
        fresh_within(from, c, p0, p2),
{
    assert forall|k: int| 0 <= k < a.len() implies #[trigger] c[k] == a[k] by {
        assert(c[k] == b[k]);
    }
    assert forall|j: int| from <= j < c.len() implies p0 <= #[trigger] c[j].first && c[j].last <= p2
        && c[j].end <= c.len() by {
        if j < b.len() {
            assert(c[j] == b[j]);
        }
    }
}

pub open spec fn step_pre(nodes: Seq<Node>, pos: int, ntok: nat) -> bool {
    &&& pos <= ntok
    &&& nodes_ok(nodes, ntok)
    &&& firsts_le(nodes, pos)
}

/// Starts a node at token `pos`; it is closed later by `close_node`.
pub(crate) fn open_node(nodes: &mut Vec<Node>, kind: NodeKind, pos: usize, Ghost(ntok): Ghost<nat>, Ghost(toks): Ghost<Seq<Token>>) -> (i: usize)
    requires
        step_pre(old(nodes)@, pos as int, ntok),
        old(nodes)@.len() < usize::MAX,
        kinds_ok(old(nodes)@, toks),
        opening_token(kind).is_some() ==> pos < toks.len() && toks[pos as int].kind == opening_token(kind).unwrap(),
    ensures
        kinds_ok(final(nodes)@, toks),
        i == old(nodes)@.len(),
        final(nodes)@ == old(nodes)@.push(Node { kind, first: pos, last: pos, end: (i + 1) as usize }),
        step_pre(final(nodes)@, pos as int, ntok),
        forall|k: int| 0 <= k < i ==> #[trigger] final(nodes)@[k].end <= i,
{
    let i = nodes.len();
    nodes.push(Node { kind, first: pos, last: pos, end: i + 1 });
    proof {
        let old_n = old(nodes)@;
        let new_n = nodes@;
        lemma_kinds_ok_push(old_n, Node { kind, first: pos, last: pos, end: (i + 1) as usize }, toks);
        assert forall|k: int| 0 <= k < new_n.len() implies #[trigger] node_ok(new_n, k, ntok) by {
            if k < i {
                assert(node_ok(old_n, k, ntok));
                assert(new_n[k] == old_n[k]);
                assert forall|j: int| k < j < new_n[k].end implies new_n[k].first
                    <= #[trigger] new_n[j].first && new_n[j].last <= new_n[k].last
                    && new_n[j].end <= new_n[k].end by {
                    assert(new_n[j] == old_n[j]);
                    assert(old_n[k].first <= old_n[j].first);
                }
            }
        }
        assert forall|k: int| 0 <= k < i implies #[trigger] new_n[k].end <= i by {
            assert(node_ok(old_n, k, ntok));
        }
    }
    i
}

proof fn lemma_close_nodes_ok(old_n: Seq<Node>, new_n: Seq<Node>, i: int, p1: usize, ntok: nat)
    requires
        old_n.len() <= usize::MAX,
        0 <= i < old_n.len(),
        nodes_ok(old_n, ntok),
        old_n[i].end == i + 1,
        old_n[i].first <= p1 <= ntok,
        forall|k: int| 0 <= k < i ==> #[trigger] old_n[k].end <= i,
        fresh_within(i + 1, old_n, old_n[i].first as int, p1 as int),
        new_n == old_n.update(i, Node { kind: old_n[i].kind, first: old_n[i].first, last: p1, end: old_n.len() as usize }),
    ensures
        nodes_ok(new_n, ntok),
{
    assert forall|k: int| 0 <= k < new_n.len() implies #[trigger] node_ok(new_n, k, ntok) by {
        if k != i {
            assert(node_ok(old_n, k, ntok));
            assert(new_n[k] == old_n[k]);
            assert forall|j: int| k < j < new_n[k].end implies new_n[k].first
                <= #[trigger] new_n[j].first && new_n[j].last <= new_n[k].last
                && new_n[j].end <= new_n[k].end by {
                assert(j != i);
                assert(new_n[j] == old_n[j]);
                assert(old_n[k].first <= old_n[j].first);
            }
            assert(node_ok(new_n, k, ntok));
        } else {
            assert forall|j: int| k < j < new_n[k].end implies new_n[k].first
                <= #[trigger] new_n[j].first && new_n[j].last <= new_n[k].last
                && new_n[j].end <= new_n[k].end by {
                assert(new_n[j] == old_n[j]);
                assert(old_n[i as int].first <= old_n[j].first && old_n[j].last <= p1
                    && old_n[j].end <= old_n.len());
            }
            assert(node_ok(new_n, k, ntok));
        }
    }
    assert forall|k: int| 0 < k < new_n.len() implies new_n[k - 1].first
        <= #[trigger] new_n[k].first by {
        assert(new_n[k - 1].first == old_n[k - 1].first);
        assert(new_n[k].first == old_n[k].first);
    }
}

/// Closes node `i` at token `p1`: it then spans `[first, p1)` and owns every
/// node added since it was opened.
pub(crate) fn close_node(nodes: &mut Vec<Node>, i: usize, p1: usize, Ghost(ntok): Ghost<nat>, Ghost(toks): Ghost<Seq<Token>>)
    requires
        i < old(nodes)@.len(),
        nodes_ok(old(nodes)@, ntok),
        old(nodes)@[i as int].end == i + 1,
        old(nodes)@[i as int].first <= p1 <= ntok,
        forall|k: int| 0 <= k < i ==> #[trigger] old(nodes)@[k].end <= i,
        fresh_within(i + 1, old(nodes)@, old(nodes)@[i as int].first as int, p1 as int),
    ensures
        final(nodes)@ == old(nodes)@.update(
            i as int,
            Node {
                kind: old(nodes)@[i as int].kind,
                first: old(nodes)@[i as int].first,
                last: p1,
                end: old(nodes)@.len() as usize,
            },
        ),
        nodes_ok(final(nodes)@, ntok),
        fresh_within(i as int, final(nodes)@, old(nodes)@[i as int].first as int, p1 as int),
        firsts_le(old(nodes)@, p1 as int) ==> firsts_le(final(nodes)@, p1 as int),
        kinds_ok(old(nodes)@, toks) ==> kinds_ok(final(nodes)@, toks),
{
    let n = nodes[i];
    let len = nodes.len();
    nodes.set(i, Node { kind: n.kind, first: n.first, last: p1, end: len });
    proof {
        let old_n = old(nodes)@;
        let new_n = nodes@;
        lemma_close_nodes_ok(old_n, new_n, i as int, p1, ntok);
        if kinds_ok(old_n, toks) {
            lemma_kinds_ok_update(old_n, i as int, new_n[i as int], toks);
            assert(old_n.update(i as int, new_n[i as int]) =~= new_n);
        }
    }
}

/// Closes node `i`, opened on `before` (giving `opened`), at token `p1`, and
/// states the whole step from `before`.
pub(crate) fn finish_node(
    nodes: &mut Vec<Node>,
    i: usize,
    p1: usize,
    Ghost(ntok): Ghost<nat>,
    Ghost(before): Ghost<Seq<Node>>,
    Ghost(opened): Ghost<Seq<Node>>,
    Ghost(toks): Ghost<Seq<Token>>,
)
    requires
        before.len() == i,
        opened.len() == i + 1,
        forall|k: int| 0 <= k < i ==> #[trigger] opened[k] == before[k],
        forall|k: int| 0 <= k < i ==> #[trigger] opened[k].end <= i,
        opened[i as int].end == i + 1,
        opened[i as int].last == opened[i as int].first,
        extends(opened, old(nodes)@),
        nodes_ok(old(nodes)@, ntok),
        firsts_le(old(nodes)@, p1 as int),
        fresh_within(i + 1, old(nodes)@, opened[i as int].first as int, p1 as int),
        opened[i as int].first <= p1 <= ntok,
    ensures
        step_ok(before, final(nodes)@, opened[i as int].first as int, p1 as int, ntok),
        final(nodes)@.len() == old(nodes)@.len(),
        final(nodes)@[i as int] == (Node {
            kind: opened[i as int].kind,
            first: opened[i as int].first,
            last: p1,
            end: old(nodes)@.len() as usize,
        }),
        kinds_ok(old(nodes)@, toks) ==> kinds_ok(final(nodes)@, toks),
        final(nodes)@ == old(nodes)@.update(
            i as int,
            Node { kind: old(nodes)@[i as int].kind, first: old(nodes)@[i as int].first, last: p1, end: old(nodes)@.len() as usize },
        ),
{
    assert(old(nodes)@[i as int] == opened[i as int]);
    close_node(nodes, i, p1, Ghost(ntok), Ghost(toks));
    assert(extends(before, nodes@)) by {
        assert forall|k: int| 0 <= k < before.len() implies #[trigger] nodes@[k] == before[k] by {
            assert(old(nodes)@[k] == opened[k]);
        }
    }
}

} // verus!
