use vstd::prelude::*;
use crate::graph::GraphList;
use crate::paths::{is_path, reachable};

verus! {

/// A path cost: a finite sum of edge weights, or positive infinity for "no path".
#[derive(Clone, Copy, PartialEq, Eq, Structural, Debug)]
pub enum Cost {
    Finite(i128),
    Infinite,
}

pub open spec fn fin(c: Cost) -> bool {
    c is Finite
}

pub open spec fn val(c: Cost) -> int {
    match c {
        Cost::Finite(x) => x as int,
        Cost::Infinite => 0,
    }
}

/// The summed weight of the edges along a path.
pub open spec fn path_weight(g: &GraphList, p: Seq<int>) -> int
    decreases p.len(),
{
    if p.len() < 2 {
        0
    } else {
        path_weight(g, p.drop_last()) + g.w(p[p.len() - 2], p.last())
    }
}

/// `d` is the least weight of a path from `s` to `t`, and some path has it.
pub open spec fn is_min_weight(g: &GraphList, s: int, t: int, d: int) -> bool {
    &&& exists|p: Seq<int>| is_path(g, p) && p[0] == s && p.last() == t && path_weight(g, p) == d
    &&& forall|p: Seq<int>| is_path(g, p) && p[0] == s && p.last() == t ==> d <= path_weight(g, p)
}

/// A closed path of negative weight through a node reachable from `s`.
pub open spec fn negative_cycle_from(g: &GraphList, s: int) -> bool {
    exists|p: Seq<int>|
        is_path(g, p) && p.len() >= 2 && p[0] == p.last() && reachable(g, s, p[0]) && path_weight(g, p) < 0
}

/// The exact single-source distances: least path weight where reachable, infinity elsewhere.
pub open spec fn exact_distances(g: &GraphList, s: int, d: Seq<Cost>) -> bool {
    &&& d.len() == g.n()
    &&& forall|v: int| 0 <= v < g.n() ==> (fin(#[trigger] d[v]) <==> reachable(g, s, v))
    &&& forall|v: int| 0 <= v < g.n() && fin(#[trigger] d[v]) ==> is_min_weight(g, s, v, val(d[v]))
}

/// No edge out of a node with a finite cost can lower the cost at its end.
pub open spec fn relaxed(g: &GraphList, d: Seq<Cost>) -> bool {
    forall|u: int, v: int| #[trigger] g.has(u, v) && fin(d[u]) ==> fin(d[v]) && val(d[v]) <= val(d[u]) + g.w(u, v)
}

/// Along any path out of a finite node, relaxed costs grow by at most the path weight.
pub proof fn lemma_relaxed_path(g: &GraphList, d: Seq<Cost>, p: Seq<int>)
    requires
        d.len() == g.n(),
        relaxed(g, d),
        is_path(g, p),
        fin(d[p[0]]),
    ensures
        fin(d[p.last()]),
        val(d[p.last()]) <= val(d[p[0]]) + path_weight(g, p),
    decreases p.len(),
{
    if p.len() >= 2 {
        let q = p.drop_last();
        assert forall|k: int| 0 <= k < q.len() - 1 implies #[trigger] g.has(q[k], q[k + 1]) by {
            assert(g.has(p[k], p[k + 1]));
        }
        lemma_relaxed_path(g, d, q);
        let k = p.len() - 2;
        assert(g.has(p[k], p[k + 1]));
    }
}

/// Extending a path by one edge adds that edge's weight.
pub proof fn lemma_path_weight_push(g: &GraphList, p: Seq<int>, t: int)
    requires
        p.len() >= 1,
    ensures
        path_weight(g, p.push(t)) == path_weight(g, p) + g.w(p.last(), t),
{
    assert(p.push(t).drop_last() =~= p);
}

/// Splitting a path at position `a` splits its weight.
pub proof fn lemma_weight_split(g: &GraphList, p: Seq<int>, a: int)
    requires
        0 <= a < p.len(),
    ensures
        path_weight(g, p) == path_weight(g, p.subrange(0, a + 1)) + path_weight(g, p.subrange(a, p.len() as int)),
    decreases p.len(),
{
    if p.len() > a + 1 {
        let q = p.drop_last();
        lemma_weight_split(g, q, a);
        assert(q.subrange(0, a + 1) =~= p.subrange(0, a + 1));
        let t = p.subrange(a, p.len() as int);
        assert(t.drop_last() =~= q.subrange(a, q.len() as int));
        assert(t[t.len() - 2] == p[p.len() - 2]);
    } else {
        assert(p.subrange(0, a + 1) =~= p);
        assert(p.subrange(a, p.len() as int).len() == 1);
    }
}

/// Every interior node of `p` (all but its two ends) is below `k`.
pub open spec fn interior_below(p: Seq<int>, k: int) -> bool {
    forall|t: int| 0 < t < p.len() - 1 ==> #[trigger] p[t] < k
}

/// A list of distinct nodes holds at most as many entries as the graph has nodes.
pub proof fn lemma_distinct_nodes(p: Seq<int>, n: int)
    requires
        n >= 0,
        p.no_duplicates(),
        forall|k: int| 0 <= k < p.len() ==> 0 <= #[trigger] p[k] < n,
    ensures
        p.len() <= n,
{
    p.unique_seq_to_set();
    vstd::set_lib::lemma_int_range(0, n);
    assert(p.to_set().subset_of(vstd::set_lib::set_int_range(0, n))) by {
        assert forall|x: int| p.to_set().contains(x) implies vstd::set_lib::set_int_range(0, n).contains(x) by {
            let k = choose|k: int| 0 <= k < p.len() && p[k] == x;
        }
    }
    vstd::set_lib::lemma_len_subset(p.to_set(), vstd::set_lib::set_int_range(0, n));
}

/// Cutting the closed stretch between two visits of one node out of a path from `s`.
proof fn lemma_cut_cycle(g: &GraphList, s: int, p: Seq<int>, a: int, b: int) -> (q: Seq<int>)
    requires
        !negative_cycle_from(g, s),
        is_path(g, p),
        p[0] == s,
        0 <= a < b < p.len(),
        p[a] == p[b],
    ensures
        is_path(g, q),
        q[0] == s,
        q.last() == p.last(),
        q.len() < p.len(),
        path_weight(g, q) <= path_weight(g, p),
        forall|k: int| #[trigger] interior_below(p, k) ==> interior_below(q, k),
{
    let c = p.subrange(a, b + 1);
    let pre = p.subrange(0, a + 1);
    assert(is_path(g, c)) by {
        assert forall|k: int| 0 <= k < c.len() - 1 implies #[trigger] g.has(c[k], c[k + 1]) by {
            assert(g.has(p[a + k], p[a + k + 1]));
        }
        assert(g.has(p[a], p[a + 1]));
    }
    assert(is_path(g, pre)) by {
        assert forall|k: int| 0 <= k < pre.len() - 1 implies #[trigger] g.has(pre[k], pre[k + 1]) by {
            assert(g.has(p[k], p[k + 1]));
        }
    }
    assert(is_path(g, pre) && pre[0] == s && pre.last() == c[0]);
    assert(reachable(g, s, c[0]));
    assert(c.len() >= 2 && c[0] == c.last());
    assert(path_weight(g, c) >= 0);
    let q = p.subrange(0, a + 1) + p.subrange(b + 1, p.len() as int);
    assert(is_path(g, q)) by {
        assert forall|k: int| 0 <= k < q.len() - 1 implies #[trigger] g.has(q[k], q[k + 1]) by {
            if k < a {
                assert(g.has(p[k], p[k + 1]));
            } else if k == a {
                assert(q[k] == p[b]);
                assert(q[k + 1] == p[b + 1]);
                assert(g.has(p[b], p[b + 1]));
            } else {
                let t = k - a + b;
                assert(q[k] == p[t] && q[k + 1] == p[t + 1]);
                assert(g.has(p[t], p[t + 1]));
            }
        }
    }
    assert(q.last() == p.last()) by {
        if b + 1 >= p.len() {
            assert(q.len() == a + 1);
            assert(q.last() == p[a]);
        }
    }
    lemma_weight_split(g, p, a);
    lemma_weight_split(g, p.subrange(a, p.len() as int), b - a);
    assert(p.subrange(a, p.len() as int).subrange(0, b - a + 1) =~= c);
    assert(p.subrange(a, p.len() as int).subrange(b - a, p.len() - a) =~= p.subrange(b, p.len() as int));
    lemma_weight_split(g, q, a);
    assert(q.subrange(0, a + 1) =~= pre);
    assert(q.subrange(a, q.len() as int) =~= p.subrange(b, p.len() as int));
    assert forall|k: int| #[trigger] interior_below(p, k) implies interior_below(q, k) by {
        assert forall|t: int| 0 < t < q.len() - 1 implies #[trigger] q[t] < k by {
            if t <= a {
                assert(q[t] == p[t]);
            } else {
                assert(q[t] == p[t - a + b]);
            }
        }
    }
    q
}

/// With no negative cycle reachable from `s`, every path from `s` can be replaced by one
/// with the same ends, at most `n` nodes, and no greater weight.
pub proof fn lemma_shorten(g: &GraphList, s: int, p: Seq<int>) -> (r: Seq<int>)
    requires
        !negative_cycle_from(g, s),
        is_path(g, p),
        p[0] == s,
    ensures
        is_path(g, r),
        r[0] == s,
        r.last() == p.last(),
        r.len() <= g.n(),
        path_weight(g, r) <= path_weight(g, p),
        r.no_duplicates(),
        forall|k: int| #[trigger] interior_below(p, k) ==> interior_below(r, k),
    decreases p.len(),
{
    assert forall|k: int| 0 <= k < p.len() implies 0 <= #[trigger] p[k] < g.n() by {
        if k > 0 {
            assert(g.has(p[k - 1], p[(k - 1) + 1]));
        }
    }
    if p.no_duplicates() {
        lemma_distinct_nodes(p, g.n());
        p
    } else {
        let (a0, b0) = choose|a: int, b: int| 0 <= a < p.len() && 0 <= b < p.len() && a != b && p[a] == p[b];
        let a = if a0 < b0 { a0 } else { b0 };
        let b = if a0 < b0 { b0 } else { a0 };
        let q = lemma_cut_cycle(g, s, p, a, b);
        let r = lemma_shorten(g, s, q);
        assert forall|k: int| #[trigger] interior_below(p, k) implies interior_below(r, k) by {
            assert(interior_below(q, k));
        }
        r
    }
}

/// Every edge weight is non-negative.
pub open spec fn nonneg_weights(g: &GraphList) -> bool {
    forall|u: int, v: int| #[trigger] g.has(u, v) ==> g.w(u, v) >= 0
}

pub proof fn lemma_nonneg_path(g: &GraphList, p: Seq<int>)
    requires
        nonneg_weights(g),
        is_path(g, p),
    ensures
        path_weight(g, p) >= 0,
    decreases p.len(),
{
    if p.len() >= 2 {
        let q = p.drop_last();
        assert forall|k: int| 0 <= k < q.len() - 1 implies #[trigger] g.has(q[k], q[k + 1]) by {
            assert(g.has(p[k], p[k + 1]));
        }
        lemma_nonneg_path(g, q);
        let k = p.len() - 2;
        assert(g.has(p[k], p[k + 1]));
    }
}

/// With non-negative weights a prefix of a path weighs no more than the path.
pub proof fn lemma_nonneg_prefix(g: &GraphList, p: Seq<int>, a: int)
    requires
        nonneg_weights(g),
        is_path(g, p),
        0 <= a < p.len(),
    ensures
        is_path(g, p.subrange(0, a + 1)),
        path_weight(g, p.subrange(0, a + 1)) <= path_weight(g, p),
{
    let pre = p.subrange(0, a + 1);
    let suf = p.subrange(a, p.len() as int);
    assert forall|k: int| 0 <= k < pre.len() - 1 implies #[trigger] g.has(pre[k], pre[k + 1]) by {
        assert(g.has(p[k], p[k + 1]));
    }
    assert forall|k: int| 0 <= k < suf.len() - 1 implies #[trigger] g.has(suf[k], suf[k + 1]) by {
        assert(g.has(p[a + k], p[a + k + 1]));
    }
    if a > 0 {
        assert(g.has(p[a - 1], p[(a - 1) + 1]));
    }
    lemma_weight_split(g, p, a);
    lemma_nonneg_path(g, suf);
}

/// A path without repeated nodes weighs between -(n-1) and (n-1) times the largest weight magnitude.
pub proof fn lemma_simple_weight_bound(g: &GraphList, q: Seq<int>)
    requires
        is_path(g, q),
        q.len() <= g.n(),
    ensures
        -((g.n() - 1) * 0x8000_0000) <= path_weight(g, q) <= (g.n() - 1) * 0x8000_0000,
    decreases q.len(),
{
    lemma_path_weight_len(g, q);
    assert((q.len() - 1) * 0x8000_0000 <= (g.n() - 1) * 0x8000_0000) by (nonlinear_arith)
        requires q.len() <= g.n();
}

proof fn lemma_path_weight_len(g: &GraphList, q: Seq<int>)
    requires
        is_path(g, q),
    ensures
        -((q.len() - 1) * 0x8000_0000) <= path_weight(g, q) <= (q.len() - 1) * 0x8000_0000,
    decreases q.len(),
{
    if q.len() >= 2 {
        let r = q.drop_last();
        assert forall|k: int| 0 <= k < r.len() - 1 implies #[trigger] g.has(r[k], r[k + 1]) by {
            assert(g.has(q[k], q[k + 1]));
        }
        lemma_path_weight_len(g, r);
        assert((q.len() - 1) * 0x8000_0000 == (r.len() - 1) * 0x8000_0000 + 0x8000_0000) by (nonlinear_arith)
            requires r.len() == q.len() - 1;
    }
}

} // verus!
