use vstd::prelude::*;
use crate::cost::{
    exact_distances, fin, is_min_weight, lemma_path_weight_push, lemma_relaxed_path, lemma_shorten,
    negative_cycle_from, path_weight, relaxed, val, Cost,
};
use crate::graph::{Edge, GraphList};
use crate::paths::{is_path, lemma_path_push, lemma_reach_self, reachable};

verus! {

/// Every finite cost is the weight of some path from `s`, and no larger in magnitude than `bound`.
pub open spec fn costs_from(g: &GraphList, s: int, d: Seq<Cost>, bound: int) -> bool {
    forall|v: int| 0 <= v < g.n() && fin(#[trigger] d[v]) ==> -bound <= val(d[v]) <= bound
        && exists|p: Seq<int>| is_path(g, p) && p[0] == s && p.last() == v && path_weight(g, p) == val(d[v])
}

/// No path from `s` with at most `len` edges is cheaper than the cost at its end.
pub open spec fn bounded_upto(g: &GraphList, s: int, d: Seq<Cost>, len: int) -> bool {
    forall|p: Seq<int>| #[trigger] is_path(g, p) && p[0] == s && p.len() <= len + 1 ==> fin(d[p.last()]) && val(
        d[p.last()],
    ) <= path_weight(g, p)
}

/// The last edge of `p` is one of the first `j` edges of `es`.
pub open spec fn ends_in(es: Seq<Edge>, j: int, p: Seq<int>) -> bool {
    exists|k: int| 0 <= k < j && es[k].from == p[p.len() - 2] && es[k].to == p.last()
}

/// No path from `s` with exactly `len + 1` edges, ending in one of the first `j` edges of `es`,
/// is cheaper than the cost at its end.
pub open spec fn bounded_through(g: &GraphList, s: int, d: Seq<Cost>, es: Seq<Edge>, j: int, len: int) -> bool {
    forall|p: Seq<int>| #[trigger] is_path(g, p) && p[0] == s && p.len() == len + 2 && ends_in(es, j, p) ==> fin(
        d[p.last()],
    ) && val(d[p.last()]) <= path_weight(g, p)
}

pub open spec fn weight_limit() -> int {
    0x8000_0000
}

proof fn lemma_step_bound(n: int, m: int, round: int, j: int)
    requires
        1 <= n <= 0xffff_ffff,
        0 <= m <= n * n,
        0 <= round < n,
        0 <= j <= m,
    ensures
        round * m + j <= n * n * n,
        n * n * n < 0x1_0000_0000_0000_0000_0000_0000,
{
    assert(n * n <= 0xffff_ffff * 0xffff_ffff) by (nonlinear_arith)
        requires 1 <= n <= 0xffff_ffff;
    assert(n * n * n <= 0xffff_ffff * 0xffff_ffff * 0xffff_ffff) by (nonlinear_arith)
        requires 1 <= n <= 0xffff_ffff, n * n <= 0xffff_ffff * 0xffff_ffff;
    assert(round * m + j <= (round + 1) * m) by (nonlinear_arith)
        requires 0 <= j <= m;
    assert((round + 1) * m <= n * m) by (nonlinear_arith)
        requires round + 1 <= n, 0 <= m;
    assert(n * m <= n * (n * n)) by (nonlinear_arith)
        requires 0 <= n, m <= n * n;
    assert(n * (n * n) == n * n * n) by (nonlinear_arith);
}

/// Relaxes one edge: lowers the cost at its end when the path through it is cheaper.
fn relax(g: &GraphList, start: usize, cost: &mut Vec<Cost>, e: Edge, Ghost(bound): Ghost<int>)
    requires
        g.wf(),
        start < g.n(),
        old(cost)@.len() == g.n(),
        g.has(e.from as int, e.to as int),
        g.w(e.from as int, e.to as int) == e.weight,
        costs_from(g, start as int, old(cost)@, bound),
        0 <= bound,
        bound + weight_limit() < 0x7fff_ffff_ffff_ffff_ffff_ffff_ffff_ffff,
    ensures
        final(cost)@.len() == g.n(),
        costs_from(g, start as int, final(cost)@, bound + weight_limit()),
        forall|v: int| 0 <= v < g.n() && fin(#[trigger] old(cost)@[v]) ==> fin(final(cost)@[v])
            && val(final(cost)@[v]) <= val(old(cost)@[v]),
        fin(old(cost)@[e.from as int]) ==> fin(final(cost)@[e.to as int]) && val(final(cost)@[e.to as int])
            <= val(old(cost)@[e.from as int]) + e.weight,
        fin(final(cost)@[e.from as int]) == fin(old(cost)@[e.from as int]),
{
    let ghost d0 = cost@;
    if let Cost::Finite(a) = cost[e.from] {
        let through = a + e.weight as i128;
        let better = match cost[e.to] {
            Cost::Finite(b) => through < b,
            Cost::Infinite => true,
        };
        if better {
            cost.set(e.to, Cost::Finite(through));
            proof {
                let p = choose|p: Seq<int>|
                    is_path(g, p) && p[0] == start as int && p.last() == e.from as int && path_weight(g, p) == val(
                        d0[e.from as int],
                    );
                lemma_path_push(g, p, e.to as int);
                lemma_path_weight_push(g, p, e.to as int);
                let q = p.push(e.to as int);
                assert(is_path(g, q) && q[0] == start as int && q.last() == e.to as int && path_weight(g, q)
                    == val(cost@[e.to as int]));
            }
        }
    }
}

/// Bellman-Ford shortest distances from `start`, or `None` when a negative cycle
/// is reachable from it and the distances are undefined.
pub fn bellman_ford(g: &GraphList, start: usize) -> (r: Option<Vec<Cost>>)
    requires
        g.wf(),
        start < g.n(),
        g.n() <= u32::MAX,
    ensures
        r is Some ==> exact_distances(g, start as int, r->0@) && r->0@[start as int] == Cost::Finite(0),
        negative_cycle_from(g, start as int) <==> r is None,
{
    let n = g.num_nodes();
    let mut cost: Vec<Cost> = vec![Cost::Infinite; n];
    let all_edges = g.make_edge_list();
    let m = all_edges.len();
    cost.set(start, Cost::Finite(0));
    proof {
        lemma_reach_self(g, start as int);
        assert forall|v: int| 0 <= v < g.n() && fin(#[trigger] cost@[v]) implies 0 <= val(cost@[v]) <= 0
            && exists|p: Seq<int>| is_path(g, p) && p[0] == start as int && p.last() == v && path_weight(g, p)
            == val(cost@[v]) by {
            assert(v == start);
            let p = seq![start as int];
            assert(is_path(g, p) && p[0] == start as int && p.last() == v && path_weight(g, p) == 0);
        }
        assert forall|p: Seq<int>| #[trigger] is_path(g, p) && p[0] == start as int && p.len() <= 0 + 1 implies fin(
            cost@[p.last()],
        ) && val(cost@[p.last()]) <= path_weight(g, p) by {
            assert(p.last() == p[0]);
        }
    }
    let mut round: usize = 1;
    while round < n
        invariant
            g.wf(),
            n == g.n(),
            1 <= round <= n,
            start < n,
            n <= u32::MAX,
            m == all_edges@.len(),
            m <= n * n,
            cost@.len() == n,
            forall|k: int| 0 <= k < all_edges@.len() ==> g.has((#[trigger] all_edges@[k]).from as int,
                all_edges@[k].to as int) && g.nodes@[all_edges@[k].from as int]@[all_edges@[k].to] == all_edges@[k],
            costs_from(g, start as int, cost@, ((round - 1) * m) * weight_limit()),
            fin(cost@[start as int]) && val(cost@[start as int]) <= 0,
            forall|u: int, v: int| #[trigger] g.has(u, v) ==> exists|k: int|
                0 <= k < all_edges@.len() && all_edges@[k].from == u && all_edges@[k].to == v,
            bounded_upto(g, start as int, cost@, round - 1),
        decreases n - round,
    {
        let mut j: usize = 0;
        while j < m
            invariant
                g.wf(),
                n == g.n(),
                1 <= round < n,
                start < n,
                n <= u32::MAX,
                m == all_edges@.len(),
                m <= n * n,
                j <= m,
                cost@.len() == n,
                forall|k: int| 0 <= k < all_edges@.len() ==> g.has((#[trigger] all_edges@[k]).from as int,
                    all_edges@[k].to as int) && g.nodes@[all_edges@[k].from as int]@[all_edges@[k].to] == all_edges@[k],
                costs_from(g, start as int, cost@, ((round - 1) * m + j) * weight_limit()),
                fin(cost@[start as int]) && val(cost@[start as int]) <= 0,
                forall|u: int, v: int| #[trigger] g.has(u, v) ==> exists|k: int|
                    0 <= k < all_edges@.len() && all_edges@[k].from == u && all_edges@[k].to == v,
                bounded_upto(g, start as int, cost@, round - 1),
                bounded_through(g, start as int, cost@, all_edges@, j as int, round - 1),
            decreases m - j,
        {
            let e = all_edges[j];
            proof {
                lemma_step_bound(n as int, m as int, (round - 1) as int, j as int);
                lemma_step_bound(n as int, m as int, (round - 1) as int, (j + 1) as int);
                assert(((round - 1) * m + j + 1) * weight_limit() < 0x7fff_ffff_ffff_ffff_ffff_ffff_ffff_ffff)
                    by (nonlinear_arith)
                    requires
                        (round - 1) * m + j + 1 <= n * n * n,
                        n * n * n < 0x1_0000_0000_0000_0000_0000_0000;
                assert(((round - 1) * m + j + 1) * weight_limit() == ((round - 1) * m + j) * weight_limit()
                    + weight_limit()) by (nonlinear_arith);
                assert(0 <= ((round - 1) * m + j) * weight_limit()) by (nonlinear_arith)
                    requires 0 <= (round - 1) * m + j;
            }
            let ghost d0 = cost@;
            relax(g, start, &mut cost, e, Ghost(((round - 1) * m + j) * weight_limit()));
            proof {
                lemma_round_step(g, start as int, d0, cost@, all_edges@, j as int, round - 1);
            }
            j = j + 1;
        }
        proof {
            assert((round - 1) * m + m == round * m) by (nonlinear_arith);
            assert forall|p: Seq<int>| #[trigger] is_path(g, p) && p[0] == start as int && p.len() <= round + 1
                implies fin(cost@[p.last()]) && val(cost@[p.last()]) <= path_weight(g, p) by {
                if p.len() == round + 1 {
                    let k0 = p.len() - 2;
                    assert(g.has(p[k0], p[k0 + 1]));
                    assert(ends_in(all_edges@, m as int, p));
                }
            }
        }
        round = round + 1;
    }
    let mut j: usize = 0;
    while j < m
        invariant
            g.wf(),
            n == g.n(),
            start < n,
            n <= u32::MAX,
            m == all_edges@.len(),
            m <= n * n,
            j <= m,
            cost@.len() == n,
            forall|k: int| 0 <= k < all_edges@.len() ==> g.has((#[trigger] all_edges@[k]).from as int,
                all_edges@[k].to as int) && g.nodes@[all_edges@[k].from as int]@[all_edges@[k].to] == all_edges@[k],
            forall|u: int, v: int| #[trigger] g.has(u, v) ==> exists|k: int|
                0 <= k < all_edges@.len() && all_edges@[k].from == u && all_edges@[k].to == v,
            costs_from(g, start as int, cost@, ((n - 1) * m) * weight_limit()),
            fin(cost@[start as int]) && val(cost@[start as int]) <= 0,
            bounded_upto(g, start as int, cost@, n - 1),
            forall|k: int| 0 <= k < j ==> #[trigger] fin(cost@[all_edges@[k].from as int]) ==> fin(
                cost@[all_edges@[k].to as int],
            ) && val(cost@[all_edges@[k].to as int]) <= val(cost@[all_edges@[k].from as int])
                + all_edges@[k].weight,
        decreases m - j,
    {
        let e = all_edges[j];
        proof {
            lemma_step_bound(n as int, m as int, (n - 1) as int, m as int);
            assert(((n - 1) * m + 1) * weight_limit() < 0x7fff_ffff_ffff_ffff_ffff_ffff_ffff_ffff)
                by (nonlinear_arith)
                requires
                    (n - 1) * m + m <= n * n * n,
                    1 <= n,
                    m <= n * n,
                    n * n * n < 0x1_0000_0000_0000_0000_0000_0000;
            assert(((n - 1) * m + 1) * weight_limit() == ((n - 1) * m) * weight_limit() + weight_limit())
                by (nonlinear_arith);
        }
        if let Cost::Finite(a) = cost[e.from] {
            let through = a + e.weight as i128;
            let improves = match cost[e.to] {
                Cost::Finite(b) => b > through,
                Cost::Infinite => true,
            };
            if improves {
                proof {
                    lemma_improvement_means_cycle(g, start as int, cost@, e, ((n - 1) * m) * weight_limit());
                }
                return None;
            }
        }
        j = j + 1;
    }
    proof {
        let d = cost@;
        assert(relaxed(g, d)) by {
            assert forall|u: int, v: int| #[trigger] g.has(u, v) && fin(d[u]) implies fin(d[v]) && val(d[v])
                <= val(d[u]) + g.w(u, v) by {
                let k = choose|k: int| 0 <= k < all_edges@.len() && all_edges@[k].from == u && all_edges@[k].to == v;
                assert(fin(d[all_edges@[k].from as int]));
            }
        }
        lemma_relaxed_exact(g, start as int, d, ((n - 1) * m) * weight_limit());
    }
    Some(cost)
}

/// Relaxing edge `j` extends the bound to paths that end in it, and keeps every earlier bound.
proof fn lemma_round_step(g: &GraphList, s: int, d0: Seq<Cost>, d1: Seq<Cost>, es: Seq<Edge>, j: int, len: int)
    requires
        0 <= j < es.len(),
        0 <= len,
        d0.len() == g.n(),
        d1.len() == g.n(),
        g.has(es[j].from as int, es[j].to as int),
        g.w(es[j].from as int, es[j].to as int) == es[j].weight,
        bounded_upto(g, s, d0, len),
        bounded_through(g, s, d0, es, j, len),
        forall|v: int| 0 <= v < g.n() && fin(#[trigger] d0[v]) ==> fin(d1[v]) && val(d1[v]) <= val(d0[v]),
        fin(d0[es[j].from as int]) ==> fin(d1[es[j].to as int]) && val(d1[es[j].to as int]) <= val(
            d0[es[j].from as int],
        ) + es[j].weight,
    ensures
        bounded_upto(g, s, d1, len),
        bounded_through(g, s, d1, es, j + 1, len),
{
    assert forall|p: Seq<int>| #[trigger] is_path(g, p) && p[0] == s && p.len() <= len + 1 implies fin(d1[p.last()])
        && val(d1[p.last()]) <= path_weight(g, p) by {
        assert(0 <= p.last() < g.n()) by {
            if p.len() > 1 {
                let k0 = p.len() - 2;
                assert(g.has(p[k0], p[k0 + 1]));
            }
        }
    }
    assert forall|p: Seq<int>| #[trigger] is_path(g, p) && p[0] == s && p.len() == len + 2 && ends_in(es, j + 1, p)
        implies fin(d1[p.last()]) && val(d1[p.last()]) <= path_weight(g, p) by {
        let k0 = p.len() - 2;
        assert(g.has(p[k0], p[k0 + 1]));
        let k = choose|k: int| 0 <= k < j + 1 && es[k].from == p[p.len() - 2] && es[k].to == p.last();
        if k < j {
            assert(ends_in(es, j, p));
        } else {
            let q = p.drop_last();
            assert(is_path(g, q)) by {
                assert forall|i: int| 0 <= i < q.len() - 1 implies #[trigger] g.has(q[i], q[i + 1]) by {
                    assert(g.has(p[i], p[i + 1]));
                }
            }
            assert(p =~= q.push(p.last()));
            lemma_path_weight_push(g, q, p.last());
        }
    }
}

/// An edge that still lowers a cost after `n - 1` rounds exposes a negative cycle reachable
/// from the start: otherwise a path of at most `n` nodes would be cheaper than the cost at its end.
proof fn lemma_improvement_means_cycle(g: &GraphList, s: int, d: Seq<Cost>, e: Edge, bound: int)
    requires
        d.len() == g.n(),
        g.n() >= 1,
        g.has(e.from as int, e.to as int),
        g.w(e.from as int, e.to as int) == e.weight,
        costs_from(g, s, d, bound),
        bounded_upto(g, s, d, g.n() - 1),
        fin(d[e.from as int]),
        !fin(d[e.to as int]) || val(d[e.to as int]) > val(d[e.from as int]) + e.weight,
    ensures
        negative_cycle_from(g, s),
{
    if !negative_cycle_from(g, s) {
        let q = choose|p: Seq<int>|
            is_path(g, p) && p[0] == s && p.last() == e.from as int && path_weight(g, p) == val(d[e.from as int]);
        lemma_path_push(g, q, e.to as int);
        lemma_path_weight_push(g, q, e.to as int);
        let p = q.push(e.to as int);
        let r = lemma_shorten(g, s, p);
        assert(is_path(g, r) && r[0] == s && r.len() <= g.n() - 1 + 1);
    }
}

/// Costs that are relaxed everywhere and realised by paths are exactly the least path weights,
/// and leave no room for a reachable negative cycle.
pub proof fn lemma_relaxed_exact(g: &GraphList, s: int, d: Seq<Cost>, bound: int)
    requires
        0 <= s < g.n(),
        d.len() == g.n(),
        relaxed(g, d),
        costs_from(g, s, d, bound),
        fin(d[s]),
        val(d[s]) <= 0,
    ensures
        exact_distances(g, s, d),
        !negative_cycle_from(g, s),
        d[s] == Cost::Finite(0),
{
    let q = choose|p: Seq<int>| is_path(g, p) && p[0] == s && p.last() == s && path_weight(g, p) == val(d[s]);
    lemma_relaxed_path(g, d, q);
    assert(val(d[s]) == 0);
    assert forall|v: int| 0 <= v < g.n() implies (fin(#[trigger] d[v]) <==> reachable(g, s, v)) by {
        if reachable(g, s, v) {
            let p = choose|p: Seq<int>| is_path(g, p) && p[0] == s && p.last() == v;
            lemma_relaxed_path(g, d, p);
        }
        if fin(d[v]) {
            let p = choose|p: Seq<int>| is_path(g, p) && p[0] == s && p.last() == v && path_weight(g, p) == val(d[v]);
            assert(reachable(g, s, v));
        }
    }
    assert forall|v: int| 0 <= v < g.n() && fin(#[trigger] d[v]) implies is_min_weight(g, s, v, val(d[v])) by {
        assert forall|p: Seq<int>| is_path(g, p) && p[0] == s && p.last() == v implies val(d[v]) <= path_weight(g, p) by {
            lemma_relaxed_path(g, d, p);
        }
    }
    if negative_cycle_from(g, s) {
        let c = choose|p: Seq<int>|
            is_path(g, p) && p.len() >= 2 && p[0] == p.last() && reachable(g, s, p[0]) && path_weight(g, p) < 0;
        assert(fin(d[c[0]]));
        lemma_relaxed_path(g, d, c);
    }
}

} // verus!
