//! The extras analyzer: one walk over a LaTeX tree that collects the facts
//! other components read (names, labels, links, theorem declarations).
use vstd::prelude::*;
use crate::latex_parser::token_is;
use crate::syntax::{children, child_nodes, group_inner, group_inner_range, items_from, lemma_node_tokens, split_items, trim, trim_end, trim_start};
use crate::tree::{NodeKind, SyntaxTree, node_ok};

verus! {

/// The text of node `k`'s first token: for a command, its name.
pub open spec fn first_token_text(tree: SyntaxTree, k: int) -> Seq<char> {
    tree.token_text(tree.nodes@[k].first as int)
}

/// The `n`-th curly group among the nodes `cs`.
pub open spec fn nth_curly(tree: SyntaxTree, cs: Seq<int>, n: int) -> Option<int>
    decreases cs.len(),
{
    if cs.len() == 0 {
        None
    } else if tree.nodes@[cs[0]].kind == NodeKind::CurlyGroup {
        if n == 0 {
            Some(cs[0])
        } else {
            nth_curly(tree, cs.drop_first(), n - 1)
        }
    } else {
        nth_curly(tree, cs.drop_first(), n)
    }
}

/// The `n`-th curly argument of node `k`.
pub open spec fn curly_arg(tree: SyntaxTree, k: int, n: int) -> Option<int> {
    nth_curly(tree, children(tree, k), n)
}

/// The trimmed contents of group `g`.
pub open spec fn key_range(tree: SyntaxTree, g: int) -> (int, int) {
    let (s, e) = group_inner(tree, g);
    let a = trim_start(tree.text@, s, e);
    (a, trim_end(tree.text@, a, e))
}

pub open spec fn slice(tree: SyntaxTree, r: (int, int)) -> Seq<char> {
    tree.text@.subrange(r.0, r.1)
}

/// The key range of the `n`-th curly argument of command `k`, if it has one.
pub open spec fn arg_key(tree: SyntaxTree, k: int, n: int) -> Option<(int, int)> {
    match curly_arg(tree, k, n) {
        Some(g) => if tree.nodes@[g].first < tree.nodes@[g].last {
            Some(key_range(tree, g))
        } else {
            None
        },
        None => None,
    }
}

/// The comma-separated items of the first curly argument of command `k`.
pub open spec fn arg_items(tree: SyntaxTree, k: int) -> Seq<(int, int)> {
    match curly_arg(tree, k, 0) {
        Some(g) => if tree.nodes@[g].first < tree.nodes@[g].last {
            let (s, e) = group_inner(tree, g);
            items_from(tree.text@, s, e)
        } else {
            Seq::empty()
        },
        None => Seq::empty(),
    }
}

pub open spec fn is_command(tree: SyntaxTree, k: int) -> bool {
    tree.nodes@[k].kind == NodeKind::Command && tree.nodes@[k].first < tree.nodes@[k].last
}

/// The `n`-th curly argument of node `k`.
pub fn curly_arg_exec(tree: &SyntaxTree, k: usize, n: usize) -> (r: Option<usize>)
    requires
        tree.wf(),
        k < tree.nodes@.len(),
    ensures
        r.is_some() == curly_arg(*tree, k as int, n as int).is_some(),
        r.is_some() ==> r.unwrap() as int == curly_arg(*tree, k as int, n as int).unwrap(),
        r.is_some() ==> k < r.unwrap() < tree.nodes@.len(),
{
    let cs = child_nodes(tree, k);
    let ghost css = cs@.map_values(|x: usize| x as int);
    let mut i: usize = 0;
    let mut left: usize = n;
    assert(css.skip(0) =~= css);
    while i < cs.len()
        invariant
            tree.wf(),
            i <= cs@.len(),
            css == cs@.map_values(|x: usize| x as int),
            css == children(*tree, k as int),
            forall|m: int| 0 <= m < cs@.len() ==> k < #[trigger] cs@[m] < tree.nodes@.len(),
            nth_curly(*tree, css.skip(i as int), left as int) == curly_arg(*tree, k as int, n as int),
        decreases cs.len() - i,
    {
        let c = cs[i];
        assert(css.skip(i as int).drop_first() =~= css.skip(i + 1));
        assert(css.skip(i as int)[0] == c as int);
        if tree.nodes[c].kind == NodeKind::CurlyGroup {
            if left == 0 {
                return Some(c);
            }
            left = left - 1;
        }
        i = i + 1;
    }
    assert(css.skip(i as int).len() == 0);
    None
}

/// The trimmed contents of group `g`.
pub fn key_range_exec(tree: &SyntaxTree, g: usize) -> (r: (usize, usize))
    requires
        tree.wf(),
        g < tree.nodes@.len(),
    ensures
        tree.nodes@[g as int].first < tree.nodes@[g as int].last ==> (r.0 as int, r.1 as int) == key_range(*tree, g as int),
        r.0 <= r.1 <= tree.text@.len(),
{
    proof {
        lemma_node_tokens(tree, g as int);
    }
    let n = tree.nodes[g];
    if n.first < n.last {
        let (s, e) = group_inner_range(tree, g);
        trim(&tree.text, s, e)
    } else {
        (0, 0)
    }
}

/// The key range of the `n`-th curly argument of node `k`.
pub fn arg_key_exec(tree: &SyntaxTree, k: usize, n: usize) -> (r: Option<(usize, usize)>)
    requires
        tree.wf(),
        k < tree.nodes@.len(),
    ensures
        r.is_some() == arg_key(*tree, k as int, n as int).is_some(),
        r.is_some() ==> (r.unwrap().0 as int, r.unwrap().1 as int) == arg_key(*tree, k as int, n as int).unwrap(),
        r.is_some() ==> r.unwrap().0 <= r.unwrap().1 <= tree.text@.len(),
{
    match curly_arg_exec(tree, k, n) {
        Some(g) => {
            if tree.nodes[g].first < tree.nodes[g].last {
                Some(key_range_exec(tree, g))
            } else {
                None
            }
        },
        None => None,
    }
}

/// The comma-separated items of the first curly argument of node `k`.
pub fn arg_items_exec(tree: &SyntaxTree, k: usize) -> (r: Vec<(usize, usize)>)
    requires
        tree.wf(),
        k < tree.nodes@.len(),
    ensures
        r@.map_values(|x: (usize, usize)| (x.0 as int, x.1 as int)) == arg_items(*tree, k as int),
        forall|m: int| 0 <= m < r@.len() ==> (#[trigger] r@[m]).0 < r@[m].1 <= tree.text@.len(),
{
    match curly_arg_exec(tree, k, 0) {
        Some(g) => {
            if tree.nodes[g].first < tree.nodes[g].last {
                let (s, e) = group_inner_range(tree, g);
                split_items(&tree.text, s, e)
            } else {
                let r: Vec<(usize, usize)> = Vec::new();
                assert(r@.map_values(|x: (usize, usize)| (x.0 as int, x.1 as int)) =~= Seq::<(int, int)>::empty());
                r
            }
        },
        None => {
            let r: Vec<(usize, usize)> = Vec::new();
            assert(r@.map_values(|x: (usize, usize)| (x.0 as int, x.1 as int)) =~= Seq::<(int, int)>::empty());
            r
        },
    }
}

/// Whether node `k` is a command named `name`.
pub fn command_is(tree: &SyntaxTree, k: usize, name: &str) -> (r: bool)
    requires
        tree.wf(),
        k < tree.nodes@.len(),
    ensures
        r == (is_command(*tree, k as int) && first_token_text(*tree, k as int) == name@),
{
    assert(node_ok(tree.nodes@, k as int, tree.tokens@.len()));
    let n = tree.nodes[k];
    if n.kind == NodeKind::Command && n.first < n.last {
        token_is(&tree.text, &tree.tokens, n.first, name)
    } else {
        false
    }
}

} // verus!
