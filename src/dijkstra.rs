use vstd::prelude::*;
use crate::bellman_ford::{costs_from, weight_limit};
use crate::cost::{
    exact_distances, fin, is_min_weight, lemma_nonneg_path, negative_cycle_from, lemma_nonneg_prefix, lemma_path_weight_push,
    nonneg_weights, path_weight, val, Cost,
};
use crate::graph::{lemma_edge_map_at, lemma_node_map_value, GraphList};
use crate::paths::{
    count_false, is_path, lemma_count_false_all, lemma_count_false_none, lemma_count_false_set, lemma_count_false_zero, lemma_path_push,
    reachable,
};

verus! {

/// Orders costs as the priority structure does: ascending, infinity last.
pub open spec fn cost_lt(a: Cost, b: Cost) -> bool {
    match (a, b) {
        (Cost::Finite(x), Cost::Finite(y)) => x < y,
        (Cost::Finite(_), Cost::Infinite) => true,
        _ => false,
    }
}

/// Every path from `s` to a settled node weighs at least the node's (finite) cost.
pub open spec fn settled_exact(g: &GraphList, s: int, d: Seq<Cost>, settled: Seq<bool>) -> bool {
    forall|p: Seq<int>| #[trigger] is_path(g, p) && p[0] == s && settled[p.last()] ==> fin(d[p.last()]) && val(
        d[p.last()],
    ) <= path_weight(g, p)
}

/// Every edge out of a settled node of finite cost has been relaxed, unless it enters a settled node.
pub open spec fn frontier_relaxed(g: &GraphList, d: Seq<Cost>, settled: Seq<bool>) -> bool {
    forall|u: int, v: int| #[trigger] g.has(u, v) && settled[u] && fin(d[u]) ==> settled[v] || (fin(d[v]) && val(d[v])
        <= val(d[u]) + g.w(u, v))
}

/// The first position on `p`, from `i` on, whose node is not settled.
proof fn lemma_first_unsettled(p: Seq<int>, settled: Seq<bool>, i: int) -> (r: int)
    requires
        0 <= i < p.len(),
        !settled[p.last()],
        forall|k: int| 0 <= k < i ==> settled[p[k]],
    ensures
        i <= r < p.len(),
        !settled[p[r]],
        forall|k: int| 0 <= k < r ==> settled[p[k]],
    decreases p.len() - i,
{
    if !settled[p[i]] {
        i
    } else {
        lemma_first_unsettled(p, settled, i + 1)
    }
}

/// With non-negative weights, the unsettled node of least cost costs no more than any path to it.
proof fn lemma_pick_optimal(g: &GraphList, s: int, d: Seq<Cost>, settled: Seq<bool>, u: int, p: Seq<int>)
    requires
        nonneg_weights(g),
        0 <= s < g.n(),
        d.len() == g.n(),
        settled.len() == g.n(),
        0 <= u < g.n(),
        !settled[u],
        d[s] == Cost::Finite(0),
        !settled[s] ==> u == s,
        forall|v: int| 0 <= v < g.n() && !settled[v] ==> !cost_lt(#[trigger] d[v], d[u]),
        settled_exact(g, s, d, settled),
        frontier_relaxed(g, d, settled),
        is_path(g, p),
        p[0] == s,
        p.last() == u,
    ensures
        fin(d[u]),
        val(d[u]) <= path_weight(g, p),
{
    let i0 = lemma_first_unsettled(p, settled, 0);
    if i0 == 0 {
        lemma_nonneg_path(g, p);
    } else {
        let x = p[i0];
        let y = p[i0 - 1];
        lemma_nonneg_prefix(g, p, i0 - 1);
        lemma_nonneg_prefix(g, p, i0);
        let py = p.subrange(0, i0);
        let px = p.subrange(0, i0 + 1);
        assert(py.last() == y);
        assert(settled[py.last()]);
        assert(fin(d[y]) && val(d[y]) <= path_weight(g, py));
        assert(g.has(p[i0 - 1], p[(i0 - 1) + 1]));
        assert(g.has(y, x));
        assert(0 <= x < g.n());
        assert(px =~= py.push(x));
        lemma_path_weight_push(g, py, x);
        assert(fin(d[x]) && val(d[x]) <= path_weight(g, px));
        assert(!cost_lt(d[x], d[u]));
    }
}

fn less(a: Cost, b: Cost) -> (r: bool)
    ensures
        r == cost_lt(a, b),
{
    match (a, b) {
        (Cost::Finite(x), Cost::Finite(y)) => x < y,
        (Cost::Finite(_), Cost::Infinite) => true,
        _ => false,
    }
}

/// The unsettled node of least cost, the smaller index first among equal costs.
fn next_unsettled(cost: &Vec<Cost>, settled: &Vec<bool>) -> (r: Option<usize>)
    requires
        cost@.len() == settled@.len(),
    ensures
        r is Some ==> r->0 < cost@.len() && !settled@[r->0 as int]
            && forall|v: int| 0 <= v < cost@.len() && !settled@[v] ==> !cost_lt(#[trigger] cost@[v], cost@[r->0 as int])
            && (v < r->0 ==> cost_lt(cost@[r->0 as int], cost@[v])),
        r is None ==> forall|v: int| 0 <= v < cost@.len() ==> settled@[v],
{
    let mut best: Option<usize> = None;
    let mut i: usize = 0;
    while i < cost.len()
        invariant
            cost@.len() == settled@.len(),
            i <= cost@.len(),
            best is Some ==> best->0 < i && !settled@[best->0 as int]
                && forall|v: int| 0 <= v < i && !settled@[v] ==> !cost_lt(#[trigger] cost@[v], cost@[best->0 as int])
                && (v < best->0 ==> cost_lt(cost@[best->0 as int], cost@[v])),
            best is None ==> forall|v: int| 0 <= v < i ==> settled@[v],
        decreases cost@.len() - i,
    {
        if !settled[i] {
            match best {
                None => {
                    best = Some(i);
                },
                Some(b) => {
                    if less(cost[i], cost[b]) {
                        best = Some(i);
                    }
                },
            }
        }
        i = i + 1;
    }
    best
}

/// Dijkstra shortest distances from `start`, meant for non-negative weights: nodes are
/// settled in ascending order of (cost, index), and a settled node is never revisited.
pub fn dijkstra(g: &GraphList, start: usize) -> (r: Vec<Cost>)
    requires
        g.wf(),
        start < g.n(),
        g.n() <= u32::MAX,
    ensures
        r@.len() == g.n(),
        r@[start as int] == Cost::Finite(0),
        forall|v: int| 0 <= v < g.n() && fin(#[trigger] r@[v]) ==> exists|p: Seq<int>|
            is_path(g, p) && p[0] == start && p.last() == v && path_weight(g, p) == val(r@[v]),
        forall|v: int| 0 <= v < g.n() && !reachable(g, start as int, v) ==> #[trigger] r@[v] == Cost::Infinite,
        nonneg_weights(g) ==> exact_distances(g, start as int, r@),
{
    let n = g.num_nodes();
    let mut costs: Vec<Cost> = vec![Cost::Infinite; n];
    let mut settled: Vec<bool> = vec![false; n];
    costs.set(start, Cost::Finite(0));
    proof {
        assert forall|v: int| 0 <= v < g.n() && fin(#[trigger] costs@[v]) implies 0 <= val(costs@[v]) <= 0
            && exists|p: Seq<int>| is_path(g, p) && p[0] == start as int && p.last() == v && path_weight(g, p)
            == val(costs@[v]) by {
            assert(v == start);
            let p = seq![start as int];
            assert(is_path(g, p) && p[0] == start as int && p.last() == v && path_weight(g, p) == 0);
        }
    }
    proof {
        lemma_count_false_all(settled@);
        assert forall|p: Seq<int>| #[trigger] is_path(g, p) && p[0] == start as int && settled@[p.last()] implies fin(
            costs@[p.last()],
        ) && val(costs@[p.last()]) <= path_weight(g, p) by {
            assert(0 <= p.last() < n) by {
                if p.len() > 1 {
                    let k0 = p.len() - 2;
                    assert(g.has(p[k0], p[k0 + 1]));
                }
            }
        }
    }
    let mut round: usize = 0;
    while round < n
        invariant
            g.wf(),
            n == g.n(),
            start < n,
            n <= u32::MAX,
            round <= n,
            costs@.len() == n,
            settled@.len() == n,
            costs_from(g, start as int, costs@, round * weight_limit()),
            costs@[start as int] == Cost::Finite(0),
            !settled@[start as int] ==> forall|v: int| 0 <= v < n && v != start ==> costs@[v] == Cost::Infinite
                && !settled@[v],
            count_false(settled@) == n - round,
            nonneg_weights(g) ==> settled_exact(g, start as int, costs@, settled@),
            frontier_relaxed(g, costs@, settled@),
        decreases n - round,
    {
        let pick = next_unsettled(&costs, &settled);
        if let Some(u) = pick {
        proof {
            if !settled@[start as int] && u != start {
                assert(cost_lt(costs@[start as int], costs@[u as int]));
            }
            lemma_count_false_set(settled@, u as int);
        }
        let ghost s0 = settled@;
        let ghost d_pick = costs@;
        proof {
            if nonneg_weights(g) {
                assert forall|p: Seq<int>| #[trigger] is_path(g, p) && p[0] == start as int && p.last() == u as int
                    implies fin(d_pick[u as int]) && val(d_pick[u as int]) <= path_weight(g, p) by {
                    lemma_pick_optimal(g, start as int, d_pick, s0, u as int, p);
                }
            }
        }
        settled.set(u, true);
        assert(g.nodes@[u as int].wf());
        let edges = g.nodes[u].get_ordered_edge_list();
        let mut j: usize = 0;
        proof {
            assert(round * weight_limit() + weight_limit() == (round + 1) * weight_limit()) by (nonlinear_arith);
            assert((round + 1) * weight_limit() <= 0x1_0000_0000 * 0x8000_0000) by (nonlinear_arith)
                requires round + 1 <= 0x1_0000_0000;
        }
        while j < edges.len()
            invariant
                g.wf(),
                n == g.n(),
                start < n,
                round < n,
                n <= u32::MAX,
                u < n,
                settled@[u as int],
                settled@[start as int],
                costs@.len() == n,
                settled@.len() == n,
                edges@ == g.nodes@[u as int].edges@,
                j <= edges@.len(),
                costs_from(g, start as int, costs@, (round + 1) * weight_limit()),
                fin(costs@[u as int]) ==> -(round * weight_limit()) <= val(costs@[u as int]) <= round * weight_limit(),
                round * weight_limit() + weight_limit() == (round + 1) * weight_limit(),
                (round + 1) * weight_limit() <= 0x1_0000_0000 * 0x8000_0000,
                costs@[start as int] == Cost::Finite(0),
                settled@ == s0.update(u as int, true),
                !s0[u as int],
                forall|v: int| 0 <= v < n && s0[v] ==> #[trigger] costs@[v] == d_pick[v],
                costs@[u as int] == d_pick[u as int],
                forall|v: int| 0 <= v < n && fin(#[trigger] d_pick[v]) ==> fin(costs@[v]) && val(costs@[v]) <= val(d_pick[v]),
                forall|k: int| 0 <= k < j && fin(costs@[u as int]) ==> settled@[#[trigger] edges@[k].to as int] || (fin(
                    costs@[edges@[k].to as int],
                ) && val(costs@[edges@[k].to as int]) <= val(costs@[u as int]) + edges@[k].weight),
                d_pick.len() == n,
                s0.len() == n,
            decreases edges@.len() - j,
        {
            let e = edges[j];
            proof {
                assert(g.nodes@[u as int].wf());
                lemma_edge_map_at(edges@, j as int);
                lemma_node_map_value(&g.nodes@[u as int], e.to);
                assert(g.nodes@[u as int]@.contains_key(e.to));
                assert(g.has(u as int, e.to as int));
            }
            let neighbor = e.to;
            if !settled[neighbor] {
                if let Cost::Finite(a) = costs[u] {
                    let new_cost = a + e.weight as i128;
                    if less(Cost::Finite(new_cost), costs[neighbor]) {
                        let ghost d0 = costs@;
                        costs.set(neighbor, Cost::Finite(new_cost));
                        proof {
                            let p = choose|p: Seq<int>|
                                is_path(g, p) && p[0] == start as int && p.last() == u as int && path_weight(g, p)
                                    == val(d0[u as int]);
                            lemma_path_push(g, p, neighbor as int);
                            lemma_path_weight_push(g, p, neighbor as int);
                            let q = p.push(neighbor as int);
                            assert(is_path(g, q) && q[0] == start as int && q.last() == neighbor as int
                                && path_weight(g, q) == val(costs@[neighbor as int]));
                        }
                    }
                }
            }
            j = j + 1;
        }
        proof {
            let d = costs@;
            assert forall|a: int, b: int| #[trigger] g.has(a, b) && settled@[a] && fin(d[a]) implies settled@[b] || (fin(
                d[b],
            ) && val(d[b]) <= val(d[a]) + g.w(a, b)) by {
                if a == u as int {
                    let node = g.nodes@[u as int];
                    assert(node.wf());
                    let c = choose|c: int| 0 <= c < node.edges@.len() && node.edges@[c].to == b as usize;
                    lemma_edge_map_at(edges@, c);
                    lemma_node_map_value(&node, b as usize);
                    assert(edges@[c].weight == g.w(a, b));
                } else {
                    assert(s0[a]);
                    assert(d[a] == d_pick[a]);
                }
            }
            if nonneg_weights(g) {
                assert forall|p: Seq<int>| #[trigger] is_path(g, p) && p[0] == start as int && settled@[p.last()]
                    implies fin(d[p.last()]) && val(d[p.last()]) <= path_weight(g, p) by {
                    let v = p.last();
                    assert(0 <= v < n) by {
                        if p.len() > 1 {
                            let k0 = p.len() - 2;
                            assert(g.has(p[k0], p[k0 + 1]));
                        }
                    }
                    if v != u as int {
                        assert(s0[v]);
                        assert(d[v] == d_pick[v]);
                    }
                }
            }
            assert forall|v: int| 0 <= v < n && v != start implies !settled@[start as int] ==> costs@[v] == Cost::Infinite
                && !settled@[v] by {}
        }
        } else {
            proof {
                lemma_count_false_none(settled@);
                assert(false);
            }
        }
        round = round + 1;
    }
    proof {
        assert forall|v: int| 0 <= v < n implies settled@[v] by {
            if !settled@[v] {
                lemma_count_false_zero(settled@, v);
            }
        }
        if nonneg_weights(g) {
            assert forall|v: int| 0 <= v < g.n() implies (fin(#[trigger] costs@[v]) <==> reachable(g, start as int, v))
                by {
                if reachable(g, start as int, v) {
                    let p = choose|p: Seq<int>| is_path(g, p) && p[0] == start as int && p.last() == v;
                    assert(settled@[p.last()]);
                }
                if fin(costs@[v]) {
                    let p = choose|p: Seq<int>|
                        is_path(g, p) && p[0] == start as int && p.last() == v && path_weight(g, p) == val(costs@[v]);
                    assert(is_path(g, p) && p[0] == start as int && p.last() == v);
                }
            }
            assert forall|v: int| 0 <= v < g.n() && fin(#[trigger] costs@[v]) implies is_min_weight(
                g,
                start as int,
                v,
                val(costs@[v]),
            ) by {
                assert forall|p: Seq<int>| is_path(g, p) && p[0] == start as int && p.last() == v implies val(costs@[v])
                    <= path_weight(g, p) by {
                    assert(settled@[p.last()]);
                }
            }
        }
        assert forall|v: int| 0 <= v < g.n() && !reachable(g, start as int, v) implies #[trigger] costs@[v]
            == Cost::Infinite by {
            if fin(costs@[v]) {
                let p = choose|p: Seq<int>|
                    is_path(g, p) && p[0] == start as int && p.last() == v && path_weight(g, p) == val(costs@[v]);
            }
        }
    }
    costs
}

/// With non-negative weights no negative cycle is reachable, so Bellman-Ford yields distances,
/// and two exact distance vectors from one start (such as Bellman-Ford's and Dijkstra's) are equal.
pub proof fn lemma_dijkstra_agrees_with_bellman_ford(g: &GraphList, s: int, d1: Seq<Cost>, d2: Seq<Cost>)
    requires
        0 <= s < g.n(),
        nonneg_weights(g),
        exact_distances(g, s, d1),
        exact_distances(g, s, d2),
    ensures
        !negative_cycle_from(g, s),
        d1 == d2,
{
    if negative_cycle_from(g, s) {
        let c = choose|p: Seq<int>|
            is_path(g, p) && p.len() >= 2 && p[0] == p.last() && reachable(g, s, p[0]) && path_weight(g, p) < 0;
        lemma_nonneg_path(g, c);
    }
    assert forall|v: int| 0 <= v < d1.len() implies d1[v] == d2[v] by {
        if fin(d1[v]) {
            assert(fin(d2[v]));
            let path_one = choose|p: Seq<int>| is_path(g, p) && p[0] == s && p.last() == v && path_weight(g, p) == val(d1[v]);
            let path_two = choose|p: Seq<int>| is_path(g, p) && p[0] == s && p.last() == v && path_weight(g, p) == val(d2[v]);
            assert(val(d1[v]) <= path_weight(g, path_two));
            assert(val(d2[v]) <= path_weight(g, path_one));
        } else {
            assert(!fin(d2[v]));
        }
    }
    assert(d1 =~= d2);
}

} // verus!
