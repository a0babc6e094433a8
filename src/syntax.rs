//! Parsing entry point, the tree-level laws, and typed views over nodes:
//! children, group contents and comma-separated keys.
use vstd::prelude::*;
use crate::bibtex_parser::parse_bibtex;
use crate::latex_parser::parse_latex;
use crate::lexer::{Language, Token, TokenKind, lexed, is_space, lemma_tokens_cover, lemma_tokens_lossless, token_texts, tokenize};
use crate::tree::{Node, NodeKind, SyntaxTree, node_ok, nodes_ok, tokens_in};

verus! {

proof fn lemma_lexed_tokens_in(text: Seq<char>, toks: Seq<Token>, lang: Language)
    requires
        lexed(text, toks, lang),
    ensures
        tokens_in(text, toks),
{
    assert forall|i: int| 0 <= i < toks.len() implies #[trigger] toks[i].start <= toks[i].end <= text.len() by {
        lemma_token_end_le(text, toks, lang, i);
    }
}

proof fn lemma_token_end_le(text: Seq<char>, toks: Seq<Token>, lang: Language, i: int)
    requires
        lexed(text, toks, lang),
        0 <= i < toks.len(),
    ensures
        toks[i].end <= text.len(),
    decreases toks.len() - i,
{
    if i + 1 < toks.len() {
        lemma_token_end_le(text, toks, lang, i + 1);
        assert(toks[i + 1].start == toks[i].end);
        assert(toks[i + 1].start < toks[i + 1].end);
    }
}

/// A root over `n` tokens with nothing below it.
pub open spec fn flat_nodes(n: nat) -> Seq<Node> {
    seq![Node { kind: NodeKind::Root, first: 0, last: n as usize, end: 1 }]
}

/// The nodes that the grammar of `lang` gives the tokens `toks` of `text`.
/// Other text, and token counts past what the arena can index, get a root
/// alone.
#[verifier::opaque]
pub open spec fn grammar_nodes(lang: Language, text: Seq<char>, toks: Seq<Token>) -> Seq<Node> {
    if toks.len() <= (usize::MAX - 4) / 2 {
        match lang {
            Language::Latex => crate::latex_parser::latex_nodes(text, toks),
            Language::Bibtex => crate::bibtex_parser::bibtex_nodes(text, toks),
            Language::Other => flat_nodes(toks.len()),
        }
    } else {
        flat_nodes(toks.len())
    }
}

/// Parses `text` under the grammar of `lang`. Never fails: malformed input
/// gives error nodes, and the tree holds the text it was parsed from.
pub fn parse(text: &str, lang: Language) -> (tree: SyntaxTree)
    ensures
        tree.wf(),
        tree.text@ == text@,
        tree.language == lang,
{
    let chars = crate::text::to_chars(text);
    parse_chars(chars, lang)
}

/// `parse` on a text already held as characters.
pub fn parse_chars(text: Vec<char>, lang: Language) -> (tree: SyntaxTree)
    ensures
        tree.wf(),
        tree.text@ == text@,
        tree.language == lang,
{
    let tokens = tokenize(&text, lang);
    proof {
        lemma_lexed_tokens_in(text@, tokens@, lang);
    }
    let n = tokens.len();
    let nodes = if n <= (usize::MAX - 4) / 2 {
        match lang {
            Language::Latex => parse_latex(&text, &tokens),
            Language::Bibtex => parse_bibtex(&text, &tokens),
            Language::Other => flat_root(n, Ghost(tokens@)),
        }
    } else {
        flat_root(n, Ghost(tokens@))
    };
    proof {
        reveal(grammar_nodes);
    }
    SyntaxTree { language: lang, text, tokens, nodes }
}

/// A root over all tokens, with no nodes below it.
fn flat_root(n: usize, Ghost(toks): Ghost<Seq<Token>>) -> (nodes: Vec<Node>)
    ensures
        nodes_ok(nodes@, n as nat),
        crate::tree::kinds_ok(nodes@, toks),
        nodes@.len() == 1,
        nodes@[0] == (Node { kind: NodeKind::Root, first: 0, last: n, end: 1 }),
        nodes@ == flat_nodes(n as nat),
{
    let mut nodes: Vec<Node> = Vec::new();
    nodes.push(Node { kind: NodeKind::Root, first: 0, last: n, end: 1 });
    assert(node_ok(nodes@, 0, n as nat));
    proof {
        crate::tree::lemma_kinds_ok_empty(toks);
        assert(Seq::<Node>::empty().push(nodes@[0]) =~= nodes@);
        crate::tree::lemma_kinds_ok_push(Seq::empty(), nodes@[0], toks);
    }
    nodes
}

/// Concatenating the token texts of a tree, in order, gives back its text.
pub proof fn lemma_tree_lossless(tree: &SyntaxTree)
    requires
        tree.wf(),
    ensures
        token_texts(tree.text@, tree.tokens@) == tree.text@,
{
    lemma_tokens_lossless(tree.text@, tree.tokens@, tree.language);
}

/// Every character of a tree's text lies in exactly one of its tokens.
pub proof fn lemma_tree_covers(tree: &SyntaxTree, p: int)
    requires
        tree.wf(),
        0 <= p < tree.text@.len(),
    ensures
        exists|i: int| 0 <= i < tree.tokens@.len() && #[trigger] tree.tokens@[i].start <= p < tree.tokens@[i].end,
        forall|i: int, j: int|
            0 <= i < tree.tokens@.len() && 0 <= j < tree.tokens@.len() && #[trigger] tree.tokens@[i].start <= p
                < tree.tokens@[i].end && #[trigger] tree.tokens@[j].start <= p < tree.tokens@[j].end ==> i == j,
{
    lemma_tokens_cover(tree.text@, tree.tokens@, tree.language, p);
}

/// The direct children of a node whose descendants are `[j, stop)`.
pub open spec fn children_from(nodes: Seq<Node>, j: int, stop: int) -> Seq<int>
    decreases stop - j,
{
    if 0 <= j < stop && j < nodes.len() && j < nodes[j].end <= stop {
        seq![j] + children_from(nodes, nodes[j].end as int, stop)
    } else {
        Seq::empty()
    }
}

pub open spec fn children(tree: SyntaxTree, k: int) -> Seq<int> {
    children_from(tree.nodes@, k + 1, tree.nodes@[k].end as int)
}

/// The direct children of node `k`, in order.
pub fn child_nodes(tree: &SyntaxTree, k: usize) -> (r: Vec<usize>)
    requires
        tree.wf(),
        k < tree.nodes@.len(),
    ensures
        r@.map_values(|x: usize| x as int) == children(*tree, k as int),
        forall|m: int| 0 <= m < r@.len() ==> k < #[trigger] r@[m] < tree.nodes@.len(),
{
    let ghost nodes = tree.nodes@;
    assert(node_ok(nodes, k as int, tree.tokens@.len()));
    let stop = tree.nodes[k].end;
    let mut r: Vec<usize> = Vec::new();
    let mut j = k + 1;
    while j < stop && tree.nodes[j].end > j && tree.nodes[j].end <= stop
        invariant
            k < j,
            j <= stop || j >= stop,
            stop <= nodes.len(),
            nodes == tree.nodes@,
            tree.wf(),
            stop == nodes[k as int].end,
            r@.map_values(|x: usize| x as int) + children_from(nodes, j as int, stop as int) == children(*tree, k as int),
            forall|m: int| 0 <= m < r@.len() ==> k < #[trigger] r@[m] < stop,
        decreases stop - j,
    {
        let ghost before = r@;
        assert(children_from(nodes, j as int, stop as int) == seq![j as int] + children_from(nodes, nodes[j as int].end as int, stop as int));
        r.push(j);
        assert(r@.map_values(|x: usize| x as int) == before.map_values(|x: usize| x as int).push(j as int));
        j = tree.nodes[j].end;
    }
    assert(children_from(nodes, j as int, stop as int) == Seq::<int>::empty());
    assert(r@.map_values(|x: usize| x as int) + Seq::<int>::empty() == r@.map_values(|x: usize| x as int));
    r
}

/// The start of `text[s..e]` with leading whitespace skipped.
pub open spec fn trim_start(text: Seq<char>, s: int, e: int) -> int
    decreases e - s,
{
    if s < e && is_space(text[s]) {
        trim_start(text, s + 1, e)
    } else {
        s
    }
}

/// The end of `text[s..e]` with trailing whitespace dropped.
pub open spec fn trim_end(text: Seq<char>, s: int, e: int) -> int
    decreases e - s,
{
    if s < e && is_space(text[e - 1]) {
        trim_end(text, s, e - 1)
    } else {
        e
    }
}

/// The first comma in `text[s..e]`, or `e`.
pub open spec fn find_comma(text: Seq<char>, s: int, e: int) -> int
    decreases e - s,
{
    if s < e && text[s] != ',' {
        find_comma(text, s + 1, e)
    } else {
        s
    }
}

/// The non-empty, trimmed, comma-separated items of `text[s..e]`.
pub open spec fn items_from(text: Seq<char>, s: int, e: int) -> Seq<(int, int)>
    decreases e - s
    via items_from_decreases
{
    if s >= e {
        Seq::empty()
    } else {
        let c = find_comma(text, s, e);
        let a = trim_start(text, s, c);
        let b = trim_end(text, a, c);
        let rest = if c < e {
            items_from(text, c + 1, e)
        } else {
            Seq::empty()
        };
        if a < b {
            seq![(a, b)] + rest
        } else {
            rest
        }
    }
}

#[via_fn]
proof fn items_from_decreases(text: Seq<char>, s: int, e: int) {
    if s < e {
        lemma_find_comma(text, s, e);
    }
}

proof fn lemma_find_comma(text: Seq<char>, s: int, e: int)
    requires
        s <= e,
    ensures
        s <= find_comma(text, s, e) <= e,
    decreases e - s,
{
    if s < e && text[s] != ',' {
        lemma_find_comma(text, s + 1, e);
    }
}

/// `text[s..e]` without surrounding whitespace.
pub fn trim(text: &Vec<char>, s: usize, e: usize) -> (r: (usize, usize))
    requires
        s <= e <= text@.len(),
    ensures
        r.0 == trim_start(text@, s as int, e as int),
        r.1 == trim_end(text@, r.0 as int, e as int),
        s <= r.0 <= r.1 <= e,
{
    let mut a = s;
    while a < e && (text[a] == ' ' || text[a] == '\t' || text[a] == '\n' || text[a] == '\r')
        invariant
            s <= a <= e <= text@.len(),
            trim_start(text@, a as int, e as int) == trim_start(text@, s as int, e as int),
        decreases e - a,
    {
        a = a + 1;
    }
    let mut b = e;
    while a < b && (text[b - 1] == ' ' || text[b - 1] == '\t' || text[b - 1] == '\n' || text[b - 1] == '\r')
        invariant
            s <= a <= b <= e <= text@.len(),
            trim_end(text@, a as int, b as int) == trim_end(text@, a as int, e as int),
        decreases b - a,
    {
        b = b - 1;
    }
    (a, b)
}

/// The non-empty, trimmed, comma-separated items of `text[s..e]`, as ranges.
pub fn split_items(text: &Vec<char>, s: usize, e: usize) -> (r: Vec<(usize, usize)>)
    requires
        s <= e <= text@.len(),
    ensures
        r@.map_values(|x: (usize, usize)| (x.0 as int, x.1 as int)) == items_from(text@, s as int, e as int),
        forall|m: int| 0 <= m < r@.len() ==> s <= (#[trigger] r@[m]).0 < r@[m].1 <= e,
{
    let mut r: Vec<(usize, usize)> = Vec::new();
    let mut p = s;
    while p < e
        invariant
            s <= p <= e <= text@.len(),
            r@.map_values(|x: (usize, usize)| (x.0 as int, x.1 as int)) + items_from(text@, p as int, e as int)
                == items_from(text@, s as int, e as int),
            forall|m: int| 0 <= m < r@.len() ==> s <= (#[trigger] r@[m]).0 < r@[m].1 <= p,
        decreases e - p,
    {
        let mut c = p;
        while c < e && text[c] != ','
            invariant
                p <= c <= e <= text@.len(),
                find_comma(text@, c as int, e as int) == find_comma(text@, p as int, e as int),
            decreases e - c,
        {
            c = c + 1;
        }
        let (a, b) = trim(text, p, c);
        let ghost before = r@;
        let ghost rest = if c < e { items_from(text@, c + 1, e as int) } else { Seq::<(int, int)>::empty() };
        assert(items_from(text@, p as int, e as int) == if a < b { seq![(a as int, b as int)] + rest } else { rest });
        if a < b {
            r.push((a, b));
            assert(r@.map_values(|x: (usize, usize)| (x.0 as int, x.1 as int)) == before.map_values(|x: (usize, usize)| (x.0 as int, x.1 as int)).push((a as int, b as int)));
        }
        if c < e {
            p = c + 1;
        } else {
            p = e;
            assert(items_from(text@, e as int, e as int) == Seq::<(int, int)>::empty());
        }
    }
    assert(items_from(text@, p as int, e as int) == Seq::<(int, int)>::empty());
    r
}

/// The character range inside a group's delimiters.
pub open spec fn group_inner(tree: SyntaxTree, g: int) -> (int, int) {
    let n = tree.nodes@[g];
    let open_end = tree.tokens@[n.first as int].end as int;
    if n.last > n.first + 1 {
        let lt = tree.tokens@[n.last - 1];
        if lt.kind == TokenKind::RCurly || lt.kind == TokenKind::RBrack || lt.kind == TokenKind::Quote {
            (open_end, lt.start as int)
        } else {
            (open_end, lt.end as int)
        }
    } else {
        (open_end, open_end)
    }
}

/// Ranges of a node's tokens lie in the text and in token order.
pub proof fn lemma_node_tokens(tree: &SyntaxTree, k: int)
    requires
        tree.wf(),
        0 <= k < tree.nodes@.len(),
    ensures
        tree.nodes@[k].first <= tree.nodes@[k].last <= tree.tokens@.len(),
        tree.nodes@[k].first < tree.nodes@[k].last ==> tree.tokens@[tree.nodes@[k].first as int].end
            <= tree.tokens@[tree.nodes@[k].last - 1].end <= tree.text@.len(),
        tree.nodes@[k].first < tree.nodes@[k].last ==> tree.tokens@[tree.nodes@[k].first as int].start
            <= tree.tokens@[tree.nodes@[k].last - 1].start,
{
    assert(node_ok(tree.nodes@, k, tree.tokens@.len()));
    let n = tree.nodes@[k];
    if n.first < n.last {
        lemma_token_monotone(tree.text@, tree.tokens@, tree.language, n.first as int, n.last - 1);
    }
}

proof fn lemma_token_monotone(text: Seq<char>, toks: Seq<Token>, lang: Language, a: int, b: int)
    requires
        lexed(text, toks, lang),
        0 <= a <= b < toks.len(),
    ensures
        toks[a].end <= toks[b].end <= text.len(),
        toks[a].start <= toks[b].start,
    decreases b - a,
{
    lemma_token_end_le(text, toks, lang, b);
    if a < b {
        lemma_token_monotone(text, toks, lang, a, b - 1);
        assert(toks[b].start == toks[b - 1].end);
        assert(toks[b - 1].start < toks[b - 1].end);
    }
}

/// The character range inside group node `g`'s delimiters.
pub fn group_inner_range(tree: &SyntaxTree, g: usize) -> (r: (usize, usize))
    requires
        tree.wf(),
        g < tree.nodes@.len(),
        tree.nodes@[g as int].first < tree.nodes@[g as int].last,
    ensures
        (r.0 as int, r.1 as int) == group_inner(*tree, g as int),
        r.0 <= r.1 <= tree.text@.len(),
{
    proof {
        lemma_node_tokens(tree, g as int);
        lemma_lexed_tokens_in(tree.text@, tree.tokens@, tree.language);
    }
    let n = tree.nodes[g];
    let open_end = tree.tokens[n.first].end;
    if n.last > n.first + 1 {
        let lt = tree.tokens[n.last - 1];
        proof {
            lemma_token_monotone(tree.text@, tree.tokens@, tree.language, n.first + 1, n.last - 1);
            assert(tree.tokens@[n.first + 1].start == tree.tokens@[n.first as int].end);
        }
        if lt.kind == TokenKind::RCurly || lt.kind == TokenKind::RBrack || lt.kind == TokenKind::Quote {
            (open_end, lt.start)
        } else {
            (open_end, lt.end)
        }
    } else {
        (open_end, open_end)
    }
}

/// Each token of a tree is a range of its text.
pub proof fn lemma_token_in_text(tree: &SyntaxTree, t: int)
    requires
        tree.wf(),
        0 <= t < tree.tokens@.len(),
    ensures
        tree.tokens@[t].start <= tree.tokens@[t].end <= tree.text@.len(),
{
    let toks = tree.tokens@;
    assert(tokens_in(tree.text@, toks));
    assert(toks[t].start <= toks[t].end <= tree.text@.len());
}

} // verus!
