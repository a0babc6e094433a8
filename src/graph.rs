//! The document graph: explicit links between documents, compilation units
//! as the reachability closure over links taken in both directions, and the
//! choice of a unit's root.
use vstd::prelude::*;

verus! {

pub open spec fn links_view(links: Seq<Vec<usize>>) -> Seq<Seq<usize>> {
    links.map_values(|v: Vec<usize>| v@)
}

/// Every link target is a document of the graph.
pub open spec fn links_ok(links: Seq<Seq<usize>>) -> bool {
    forall|i: int, j: int| 0 <= i < links.len() && 0 <= j < links[i].len() ==> #[trigger] links[i][j] < links.len()
}

/// `a` links to `b` or `b` links to `a`.
pub open spec fn adjacent(links: Seq<Seq<usize>>, a: int, b: int) -> bool {
    &&& 0 <= a < links.len()
    &&& 0 <= b < links.len()
    &&& (links[a].contains(b as usize) || links[b].contains(a as usize))
}

pub open spec fn is_path(links: Seq<Seq<usize>>, p: Seq<int>) -> bool {
    &&& p.len() >= 1
    &&& forall|i: int| 0 <= i < p.len() ==> 0 <= #[trigger] p[i] < links.len()
    &&& forall|i: int| 0 <= i < p.len() - 1 ==> #[trigger] adjacent(links, p[i], p[i + 1])
}

/// `b` can be reached from `a` along links, in either direction.
pub open spec fn reachable(links: Seq<Seq<usize>>, a: int, b: int) -> bool {
    exists|p: Seq<int>| #[trigger] is_path(links, p) && p[0] == a && p[p.len() - 1] == b
}

proof fn lemma_reach_start(links: Seq<Seq<usize>>, a: int)
    requires
        0 <= a < links.len(),
    ensures
        reachable(links, a, a),
{
    let p = seq![a];
    assert(is_path(links, p));
}

proof fn lemma_reach_step(links: Seq<Seq<usize>>, a: int, u: int, v: int)
    requires
        reachable(links, a, u),
        adjacent(links, u, v),
    ensures
        reachable(links, a, v),
{
    let p = choose|p: Seq<int>| #[trigger] is_path(links, p) && p[0] == a && p[p.len() - 1] == u;
    let q = p.push(v);
    assert forall|i: int| 0 <= i < q.len() - 1 implies #[trigger] adjacent(links, q[i], q[i + 1]) by {
        if i < p.len() - 1 {
            assert(adjacent(links, p[i], p[i + 1]));
        }
    }
    assert(is_path(links, q));
}

/// A set that holds `a` and is closed under adjacency holds all that `a` reaches.
proof fn lemma_closed_holds_reachable(links: Seq<Seq<usize>>, s: Seq<usize>, a: int, b: int)
    requires
        s.contains(a as usize),
        forall|u: int, v: int| 0 <= u < links.len() && s.contains(u as usize) && #[trigger] adjacent(links, u, v) ==> s.contains(v as usize),
        reachable(links, a, b),
    ensures
        s.contains(b as usize),
{
    let p = choose|p: Seq<int>| #[trigger] is_path(links, p) && p[0] == a && p[p.len() - 1] == b;
    lemma_closed_holds_path(links, s, p, p.len() - 1);
}

proof fn lemma_closed_holds_path(links: Seq<Seq<usize>>, s: Seq<usize>, p: Seq<int>, i: int)
    requires
        is_path(links, p),
        0 <= i < p.len(),
        s.contains(p[0] as usize),
        forall|u: int, v: int| 0 <= u < links.len() && s.contains(u as usize) && #[trigger] adjacent(links, u, v) ==> s.contains(v as usize),
    ensures
        s.contains(p[i] as usize),
    decreases i,
{
    if i > 0 {
        lemma_closed_holds_path(links, s, p, i - 1);
        let j = i - 1;
        assert(adjacent(links, p[j], p[j + 1]));
    }
}

/// A direct link makes each end reachable from the other.
pub proof fn lemma_link_symmetric(links: Seq<Seq<usize>>, a: int, b: int)
    requires
        0 <= a < links.len(),
        0 <= b < links.len(),
        links[a].contains(b as usize),
    ensures
        reachable(links, a, b),
        reachable(links, b, a),
{
    lemma_reach_start(links, a);
    lemma_reach_step(links, a, a, b);
    lemma_reach_start(links, b);
    lemma_reach_step(links, b, b, a);
}

pub open spec fn count_false(s: Seq<bool>) -> nat
    decreases s.len(),
{
    if s.len() == 0 {
        0
    } else {
        count_false(s.drop_last()) + if s.last() { 0nat } else { 1nat }
    }
}

proof fn lemma_count_false_mark(s: Seq<bool>, i: int)
    requires
        0 <= i < s.len(),
        !s[i],
    ensures
        count_false(s.update(i, true)) + 1 == count_false(s),
    decreases s.len(),
{
    let t = s.update(i, true);
    if i == s.len() - 1 {
        assert(t.drop_last() =~= s.drop_last());
    } else {
        assert(t.drop_last() =~= s.drop_last().update(i, true));
        lemma_count_false_mark(s.drop_last(), i);
    }
}

pub fn vec_contains(v: &Vec<usize>, x: usize) -> (r: bool)
    ensures
        r == v@.contains(x),
{
    let mut i: usize = 0;
    while i < v.len()
        invariant
            i <= v@.len(),
            forall|j: int| 0 <= j < i ==> v@[j] != x,
        decreases v.len() - i,
    {
        if v[i] == x {
            return true;
        }
        i = i + 1;
    }
    false
}

/// The compilation unit of `start`: breadth-first over links in both
/// directions, each document once, `start` first. It holds exactly the
/// documents reachable from `start`.
pub fn compilation_unit(links: &Vec<Vec<usize>>, start: usize) -> (r: Vec<usize>)
    requires
        start < links@.len(),
        links_ok(links_view(links@)),
    ensures
        r@.len() >= 1,
        r@[0] == start,
        r@.no_duplicates(),
        forall|j: int| 0 <= j < r@.len() ==> #[trigger] r@[j] < links@.len(),
        forall|x: int| 0 <= x < links@.len() ==> (r@.contains(x as usize) <==> reachable(links_view(links@), start as int, x)),
{
    let ghost lv = links_view(links@);
    let n = links.len();
    let mut visited: Vec<bool> = Vec::new();
    let mut i: usize = 0;
    while i < n
        invariant
            i <= n,
            n == links@.len(),
            visited@.len() == i,
            forall|j: int| 0 <= j < i ==> !#[trigger] visited@[j],
        decreases n - i,
    {
        visited.push(false);
        i = i + 1;
    }
    let mut r: Vec<usize> = Vec::new();
    r.push(start);
    proof {
        lemma_count_false_mark(visited@, start as int);
        lemma_reach_start(lv, start as int);
    }
    visited.set(start, true);
    proof {
        assert forall|x: int| 0 <= x < n implies (#[trigger] visited@[x] <==> r@.contains(x as usize)) by {
            if x == start {
                assert(r@[0] == start);
            } else if r@.contains(x as usize) {
                let j = choose|j: int| 0 <= j < r@.len() && r@[j] == x as usize;
                assert(j == 0);
            }
        }
    }
    let mut head: usize = 0;
    while head < r.len()
        invariant
            n == links@.len(),
            lv == links_view(links@),
            links_ok(lv),
            visited@.len() == n,
            start < n,
            head <= r@.len(),
            r@.len() >= 1,
            r@[0] == start,
            r@.no_duplicates(),
            forall|j: int| 0 <= j < r@.len() ==> #[trigger] r@[j] < n,
            forall|x: int| 0 <= x < n ==> (#[trigger] visited@[x] <==> r@.contains(x as usize)),
            forall|j: int| 0 <= j < r@.len() ==> reachable(lv, start as int, #[trigger] r@[j] as int),
            forall|j: int, v: int| 0 <= j < head && #[trigger] adjacent(lv, r@[j] as int, v) ==> r@.contains(v as usize),
        decreases count_false(visited@) + (r@.len() - head),
    {
        let u = r[head];
        let ghost c0 = count_false(visited@);
        let ghost len0 = r@.len();
        let mut v: usize = 0;
        while v < n
            invariant
                n == links@.len(),
                lv == links_view(links@),
                links_ok(lv),
                visited@.len() == n,
                head < r@.len(),
                u == r@[head as int],
                v <= n,
                r@.len() >= len0,
                r@[0] == start,
                r@.no_duplicates(),
                forall|j: int| 0 <= j < r@.len() ==> #[trigger] r@[j] < n,
                forall|x: int| 0 <= x < n ==> (#[trigger] visited@[x] <==> r@.contains(x as usize)),
                forall|j: int| 0 <= j < r@.len() ==> reachable(lv, start as int, #[trigger] r@[j] as int),
                forall|j: int, w: int| 0 <= j < head && #[trigger] adjacent(lv, r@[j] as int, w) ==> r@.contains(w as usize),
                forall|w: int| 0 <= w < v && #[trigger] adjacent(lv, u as int, w) ==> r@.contains(w as usize),
                count_false(visited@) + r@.len() == c0 + len0,
            decreases n - v,
        {
            if !visited[v] {
                let adj = vec_contains(&links[u], v) || vec_contains(&links[v], u);
                if adj {
                    proof {
                        assert(links@[u as int]@ == lv[u as int]);
                        assert(links@[v as int]@ == lv[v as int]);
                        assert(adjacent(lv, u as int, v as int));
                        lemma_reach_step(lv, start as int, u as int, v as int);
                        lemma_count_false_mark(visited@, v as int);
                        assert(!r@.contains(v));
                    }
                    let ghost r0 = r@;
                    r.push(v);
                    visited.set(v, true);
                    proof {
                        assert forall|x: int| 0 <= x < n implies (#[trigger] visited@[x] <==> r@.contains(x as usize)) by {
                            if x != v {
                                if r@.contains(x as usize) {
                                    let j = choose|j: int| 0 <= j < r@.len() && r@[j] == x as usize;
                                    assert(r0[j] == x as usize);
                                }
                                if r0.contains(x as usize) {
                                    let j = choose|j: int| 0 <= j < r0.len() && r0[j] == x as usize;
                                    assert(r@[j] == x as usize);
                                }
                            } else {
                                assert(r@[r@.len() - 1] == v);
                            }
                        }
                        assert forall|j: int, w: int| 0 <= j < head && #[trigger] adjacent(lv, r@[j] as int, w) implies r@.contains(w as usize) by {
                            assert(r@[j] == r0[j]);
                            assert(r0.contains(w as usize));
                            let m = choose|m: int| 0 <= m < r0.len() && r0[m] == w as usize;
                            assert(r@[m] == w as usize);
                        }
                        assert forall|w: int| 0 <= w <= v && #[trigger] adjacent(lv, u as int, w) implies r@.contains(w as usize) by {
                            if w < v {
                                assert(r0.contains(w as usize));
                                let m = choose|m: int| 0 <= m < r0.len() && r0[m] == w as usize;
                                assert(r@[m] == w as usize);
                            } else {
                                assert(r@[r@.len() - 1] == v);
                            }
                        }
                    }
                } else {
                    proof {
                        assert(links@[u as int]@ == lv[u as int]);
                        assert(links@[v as int]@ == lv[v as int]);
                    }
                }
            } else {
                assert(r@.contains(v));
            }
            v = v + 1;
        }
        proof {
            assert forall|j: int, w: int| 0 <= j < head + 1 && #[trigger] adjacent(lv, r@[j] as int, w) implies r@.contains(w as usize) by {
                if j == head {
                    assert(r@[j] == u);
                    assert(0 <= w < n);
                }
            }
        }
        head = head + 1;
    }
    proof {
        assert forall|x: int| 0 <= x < n implies (r@.contains(x as usize) <==> reachable(lv, start as int, x)) by {
            if r@.contains(x as usize) {
                let j = choose|j: int| 0 <= j < r@.len() && r@[j] == x as usize;
                assert(reachable(lv, start as int, r@[j] as int));
            }
            if reachable(lv, start as int, x) {
                assert forall|u2: int, v2: int| 0 <= u2 < lv.len() && r@.contains(u2 as usize) && #[trigger] adjacent(lv, u2, v2) implies r@.contains(v2 as usize) by {
                    let j = choose|j: int| 0 <= j < r@.len() && r@[j] == u2 as usize;
                    assert(adjacent(lv, r@[j] as int, v2));
                }
                assert(r@[0] == start);
                lemma_closed_holds_reachable(lv, r@, start as int, x);
            }
        }
    }
    r
}

/// The first member of `unit` whose flag says it holds a document
/// environment, or the first member if none does.
pub open spec fn root_from(unit: Seq<usize>, has_document: Seq<bool>, i: int) -> usize
    decreases unit.len() - i,
{
    if i >= unit.len() || i < 0 {
        unit[0]
    } else if 0 <= unit[i] < has_document.len() && has_document[unit[i] as int] {
        unit[i]
    } else {
        root_from(unit, has_document, i + 1)
    }
}

/// Picks the root of a compilation unit listed in breadth-first order: the
/// nearest member with a document environment, else the start document.
pub fn unit_root(unit: &Vec<usize>, has_document: &Vec<bool>) -> (r: usize)
    requires
        unit@.len() >= 1,
    ensures
        r == root_from(unit@, has_document@, 0),
{
    let mut i: usize = 0;
    while i < unit.len()
        invariant
            unit@.len() >= 1,
            i <= unit@.len(),
            root_from(unit@, has_document@, i as int) == root_from(unit@, has_document@, 0),
        decreases unit.len() - i,
    {
        let d = unit[i];
        if d < has_document.len() && has_document[d] {
            return d;
        }
        i = i + 1;
    }
    unit[0]
}

} // verus!
