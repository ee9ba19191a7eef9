use vstd::prelude::*;
use crate::cost::{
    fin, interior_below, is_min_weight, lemma_shorten, lemma_simple_weight_bound, lemma_weight_split,
    negative_cycle_from, path_weight, val, Cost, lemma_path_weight_push,
};
use crate::graph::GraphList;
use crate::paths::{is_path, lemma_path_push, lemma_reach_self, lemma_reach_step, lemma_reach_trans, reachable};

verus! {

/// No negative cycle is reachable from any node.
pub open spec fn no_negative_cycles(g: &GraphList) -> bool {
    forall|s: int| 0 <= s < g.n() ==> !negative_cycle_from(g, s)
}

/// The matrix invariant: finite costs join reachable pairs, and every predecessor entry names
/// a node reachable from the row's node with an edge into the column's node.
pub open spec fn fw_matrix_ok(g: &GraphList, cost: Seq<Vec<Cost>>, last: Seq<Vec<isize>>) -> bool {
    &&& cost.len() == g.n()
    &&& last.len() == g.n()
    &&& forall|i: int| 0 <= i < g.n() ==> (#[trigger] cost[i])@.len() == g.n()
    &&& forall|i: int| 0 <= i < g.n() ==> (#[trigger] last[i])@.len() == g.n()
    &&& forall|i: int, j: int| 0 <= i < g.n() && 0 <= j < g.n() && fin(#[trigger] cost[i]@[j]) ==> reachable(g, i, j)
    &&& forall|i: int, j: int| 0 <= i < g.n() && 0 <= j < g.n() && #[trigger] last[i]@[j] != -1 ==> 0 <= last[i]@[j]
        < g.n() && g.has(last[i]@[j] as int, j) && reachable(g, i, last[i]@[j] as int)
}

/// The diagonal costs 0 with no predecessor; off the diagonal a predecessor is recorded
/// exactly where the cost is finite.
pub open spec fn diag_linked(g: &GraphList, cost: Seq<Vec<Cost>>, last: Seq<Vec<isize>>) -> bool {
    &&& forall|i: int| 0 <= i < g.n() ==> #[trigger] cost[i]@[i] == Cost::Finite(0) && last[i]@[i] == -1
    &&& forall|i: int, j: int| 0 <= i < g.n() && 0 <= j < g.n() && i != j ==> (#[trigger] last[i]@[j] != -1 <==> fin(
        cost[i]@[j],
    ))
}

/// A path from `i` to `j` with interior below `k` whose weight is the finite cost, ending
/// (when `i != j`) with the recorded predecessor.
pub open spec fn witness(g: &GraphList, c: Cost, l: isize, i: int, j: int, k: int, p: Seq<int>) -> bool {
    &&& is_path(g, p)
    &&& p[0] == i
    &&& p.last() == j
    &&& interior_below(p, k)
    &&& path_weight(g, p) == val(c)
    &&& i != j ==> p.len() >= 2 && p[p.len() - 2] == l
}

pub open spec fn witnessed(g: &GraphList, cost: Seq<Vec<Cost>>, last: Seq<Vec<isize>>, k: int) -> bool {
    forall|i: int, j: int| 0 <= i < g.n() && 0 <= j < g.n() && fin(#[trigger] cost[i]@[j]) ==> exists|p: Seq<int>|
        witness(g, cost[i]@[j], last[i]@[j], i, j, k, p)
}

/// No path from `i` to `j` with interior below `k` is cheaper than the entry.
pub open spec fn covers(g: &GraphList, c: Cost, i: int, j: int, k: int) -> bool {
    forall|p: Seq<int>| #[trigger] is_path(g, p) && p[0] == i && p.last() == j && interior_below(p, k) ==> fin(c)
        && val(c) <= path_weight(g, p)
}

pub open spec fn covered(g: &GraphList, cost: Seq<Vec<Cost>>, k: int) -> bool {
    forall|i: int, j: int| 0 <= i < g.n() && 0 <= j < g.n() ==> covers(g, #[trigger] cost[i]@[j], i, j, k)
}

proof fn lemma_path_nodes(g: &GraphList, p: Seq<int>)
    requires
        is_path(g, p),
    ensures
        forall|t: int| 0 <= t < p.len() ==> 0 <= #[trigger] p[t] < g.n(),
        interior_below(p, g.n()),
{
    assert forall|t: int| 0 <= t < p.len() implies 0 <= #[trigger] p[t] < g.n() by {
        if t > 0 {
            assert(g.has(p[t - 1], p[(t - 1) + 1]));
        }
    }
}

/// Joining a path ending at `x` with a path starting at `x`.
proof fn lemma_concat(g: &GraphList, p: Seq<int>, q: Seq<int>, k: int) -> (r: Seq<int>)
    requires
        is_path(g, p),
        is_path(g, q),
        p.last() == q[0],
        interior_below(p, k),
        interior_below(q, k),
        p.last() < k + 1,
    ensures
        is_path(g, r),
        r[0] == p[0],
        r.last() == q.last(),
        r.len() == p.len() + q.len() - 1,
        path_weight(g, r) == path_weight(g, p) + path_weight(g, q),
        interior_below(r, k + 1),
        q.len() >= 2 ==> r[r.len() - 2] == q[q.len() - 2],
{
    let r = p + q.subrange(1, q.len() as int);
    let a = p.len() - 1;
    assert forall|t: int| 0 <= t < r.len() - 1 implies #[trigger] g.has(r[t], r[t + 1]) by {
        if t < a {
            assert(g.has(p[t], p[t + 1]));
        } else {
            let u = t - a;
            assert(r[t] == q[u] && r[t + 1] == q[u + 1]);
            assert(g.has(q[u], q[u + 1]));
        }
    }
    assert forall|t: int| 0 < t < r.len() - 1 implies #[trigger] r[t] < k + 1 by {
        if t < a {
            assert(r[t] == p[t]);
        } else if t > a {
            assert(r[t] == q[t - a]);
        }
    }
    lemma_weight_split(g, r, a);
    assert(r.subrange(0, a + 1) =~= p);
    assert(r.subrange(a, r.len() as int) =~= q);
    if q.len() < 2 {
        assert(r =~= p);
    }
    r
}

/// The matrix built from single edges is witnessed and covers paths with no interior node.
proof fn lemma_fw_init(g: &GraphList, cost: Seq<Vec<Cost>>, last: Seq<Vec<isize>>)
    requires
        no_negative_cycles(g),
        fw_matrix_ok(g, cost, last),
        forall|a: int, b: int| 0 <= a < g.n() && 0 <= b < g.n() ==> #[trigger] cost[a]@[b] == initial_cost(g, a, b)
            && last[a]@[b] as int == initial_last(g, a, b),
    ensures
        witnessed(g, cost, last, 0),
        covered(g, cost, 0),
        diag_linked(g, cost, last),
{
    assert forall|i: int, j: int| 0 <= i < g.n() && 0 <= j < g.n() && fin(#[trigger] cost[i]@[j]) implies exists|p: Seq<int>|
        witness(g, cost[i]@[j], last[i]@[j], i, j, 0, p) by {
        if i == j {
            let p = seq![i];
            assert(witness(g, cost[i]@[j], last[i]@[j], i, j, 0, p));
        } else {
            let p = seq![i, j];
            assert(g.has(i, j));
            assert forall|t: int| 0 <= t < p.len() - 1 implies #[trigger] g.has(p[t], p[t + 1]) by {
                assert(t == 0);
                assert(p[t] == i && p[t + 1] == j);
            }
            assert(is_path(g, p));
            assert(p.drop_last() =~= seq![i]);
            assert(path_weight(g, seq![i]) == 0);
            assert(path_weight(g, p) == path_weight(g, p.drop_last()) + g.w(p[0], p[1]));
            assert(path_weight(g, p) == g.w(i, j));
            assert(last[i]@[j] as int == i);
            assert(witness(g, cost[i]@[j], last[i]@[j], i, j, 0, p));
        }
    }
    assert forall|i: int, j: int| 0 <= i < g.n() && 0 <= j < g.n() implies covers(g, #[trigger] cost[i]@[j], i, j, 0) by {
        assert forall|p: Seq<int>| #[trigger] is_path(g, p) && p[0] == i && p.last() == j && interior_below(p, 0)
            implies fin(cost[i]@[j]) && val(cost[i]@[j]) <= path_weight(g, p) by {
            lemma_path_nodes(g, p);
            if p.len() > 2 {
                assert(p[1] < 0);
            }
            if p.len() == 1 {
                assert(path_weight(g, p) == 0);
            }
            if p.len() == 2 {
                let z = 0int;
                assert(g.has(p[z], p[z + 1]));
                assert(p.drop_last() =~= seq![i]);
                assert(path_weight(g, seq![i]) == 0);
                assert(path_weight(g, p) == path_weight(g, p.drop_last()) + g.w(p[0], p[1]));
                assert(path_weight(g, p) == g.w(i, j));
                if i == j {
                    assert(reachable(g, i, i)) by {
                        lemma_reach_self(g, i);
                    }
                    assert(!negative_cycle_from(g, i));
                }
            }
        }
    }
}

/// Under no negative cycle, a witnessed and covering entry is bounded by the simple paths.
proof fn lemma_fw_bound(g: &GraphList, cost: Seq<Vec<Cost>>, last: Seq<Vec<isize>>, k: int, a: int, b: int)
    requires
        no_negative_cycles(g),
        fw_matrix_ok(g, cost, last),
        witnessed(g, cost, last, k),
        covered(g, cost, k),
        0 <= a < g.n(),
        0 <= b < g.n(),
        fin(cost[a]@[b]),
    ensures
        -((g.n() - 1) * 0x8000_0000) <= val(cost[a]@[b]) <= (g.n() - 1) * 0x8000_0000,
{
    let p = choose|p: Seq<int>| witness(g, cost[a]@[b], last[a]@[b], a, b, k, p);
    let q = lemma_shorten(g, a, p);
    assert(interior_below(q, k));
    assert(covers(g, cost[a]@[b], a, b, k));
    assert(is_path(g, q) && q[0] == a && q.last() == b && interior_below(q, k));
    lemma_simple_weight_bound(g, q);
}

/// After phase `k` handles a pair, no path with interior below `k + 1` is cheaper than it.
proof fn lemma_fw_step_covers(g: &GraphList, cs: Seq<Vec<Cost>>, k: int, i: int, j: int, c: Cost)
    requires
        no_negative_cycles(g),
        cs.len() == g.n(),
        forall|a: int| 0 <= a < g.n() ==> (#[trigger] cs[a])@.len() == g.n(),
        covered(g, cs, k),
        0 <= k < g.n(),
        0 <= i < g.n(),
        0 <= j < g.n(),
        fin(cs[i]@[k]) && fin(cs[k]@[j]) ==> fin(c) && val(c) <= val(cs[i]@[k]) + val(cs[k]@[j]),
        fin(cs[i]@[j]) ==> fin(c) && val(c) <= val(cs[i]@[j]),
    ensures
        covers(g, c, i, j, k + 1),
{
    assert forall|p: Seq<int>| #[trigger] is_path(g, p) && p[0] == i && p.last() == j && interior_below(p, k + 1)
        implies fin(c) && val(c) <= path_weight(g, p) by {
        let q = lemma_shorten(g, i, p);
        assert(interior_below(q, k + 1));
        if interior_below(q, k) {
            assert(covers(g, cs[i]@[j], i, j, k));
        } else {
            let t = choose|t: int| 0 < t < q.len() - 1 && !(#[trigger] q[t] < k);
            assert(q[t] == k);
            let pre = q.subrange(0, t + 1);
            let suf = q.subrange(t, q.len() as int);
            assert(is_path(g, pre)) by {
                assert forall|u: int| 0 <= u < pre.len() - 1 implies #[trigger] g.has(pre[u], pre[u + 1]) by {
                    assert(g.has(q[u], q[u + 1]));
                }
            }
            assert(is_path(g, suf)) by {
                assert forall|u: int| 0 <= u < suf.len() - 1 implies #[trigger] g.has(suf[u], suf[u + 1]) by {
                    assert(g.has(q[t + u], q[t + u + 1]));
                }
                assert(g.has(q[t - 1], q[(t - 1) + 1]));
            }
            assert(interior_below(pre, k)) by {
                assert forall|u: int| 0 < u < pre.len() - 1 implies #[trigger] pre[u] < k by {
                    assert(pre[u] == q[u]);
                    assert(q[u] < k + 1);
                    assert(q[u] != q[t]);
                }
            }
            assert(interior_below(suf, k)) by {
                assert forall|u: int| 0 < u < suf.len() - 1 implies #[trigger] suf[u] < k by {
                    assert(suf[u] == q[t + u]);
                    assert(q[t + u] < k + 1);
                    assert(q[t + u] != q[t]);
                }
            }
            assert(covers(g, cs[i]@[k], i, k, k));
            assert(covers(g, cs[k]@[j], k, j, k));
            assert(is_path(g, pre) && pre[0] == i && pre.last() == k && interior_below(pre, k));
            assert(is_path(g, suf) && suf[0] == k && suf.last() == j && interior_below(suf, k));
            lemma_weight_split(g, q, t);
        }
    }
}

/// What the final matrix says under no negative cycle.
proof fn lemma_fw_final(g: &GraphList, cost: Seq<Vec<Cost>>, last: Seq<Vec<isize>>, i: int, j: int)
    requires
        no_negative_cycles(g),
        fw_matrix_ok(g, cost, last),
        witnessed(g, cost, last, g.n()),
        covered(g, cost, g.n()),
        diag_linked(g, cost, last),
        0 <= i < g.n(),
        0 <= j < g.n(),
        i != j,
    ensures
        last[i]@[j] != -1 <==> reachable(g, i, j),
        last[i]@[j] != -1 ==> exists|d: int| is_min_weight(g, i, last[i]@[j] as int, d)
            && is_min_weight(g, i, j, d + g.w(last[i]@[j] as int, j)),
{
    if reachable(g, i, j) {
        let p = choose|p: Seq<int>| is_path(g, p) && p[0] == i && p.last() == j;
        lemma_path_nodes(g, p);
        assert(covers(g, cost[i]@[j], i, j, g.n()));
    }
    if last[i]@[j] != -1 {
        let l = last[i]@[j] as int;
        let p = choose|p: Seq<int>| witness(g, cost[i]@[j], last[i]@[j], i, j, g.n(), p);
        let pre = p.drop_last();
        assert(is_path(g, pre)) by {
            assert forall|u: int| 0 <= u < pre.len() - 1 implies #[trigger] g.has(pre[u], pre[u + 1]) by {
                assert(g.has(p[u], p[u + 1]));
            }
        }
        assert(p =~= pre.push(j));
        lemma_path_weight_push(g, pre, j);
        let d = path_weight(g, pre);
        let k0 = p.len() - 2;
        assert(g.has(p[k0], p[k0 + 1]));
        assert(g.has(l, j));
        assert forall|q: Seq<int>| is_path(g, q) && q[0] == i && q.last() == l implies d <= path_weight(g, q) by {
            lemma_path_push(g, q, j);
            lemma_path_weight_push(g, q, j);
            lemma_path_nodes(g, q.push(j));
            assert(covers(g, cost[i]@[j], i, j, g.n()));
            assert(is_path(g, q.push(j)) && q.push(j)[0] == i && q.push(j).last() == j && interior_below(q.push(j), g.n()));
        }
        assert forall|q: Seq<int>| is_path(g, q) && q[0] == i && q.last() == j implies val(cost[i]@[j]) <= path_weight(g, q) by {
            lemma_path_nodes(g, q);
            assert(covers(g, cost[i]@[j], i, j, g.n()));
        }
        assert(is_path(g, pre) && pre[0] == i && pre.last() == l && path_weight(g, pre) == d);
        assert(is_min_weight(g, i, l, d));
        assert(is_min_weight(g, i, j, d + g.w(l, j)));
    }
}

/// Sum of two costs, `None` when the sum leaves the range of `i128`.
fn add_costs(a: Cost, b: Cost) -> (r: Option<Cost>)
    ensures
        (a is Infinite || b is Infinite) ==> r == Some(Cost::Infinite),
        (a is Finite && b is Finite && -0x8000_0000_0000_0000_0000_0000_0000_0000 <= val(a) + val(b)
            <= 0x7fff_ffff_ffff_ffff_ffff_ffff_ffff_ffff) ==> r == Some(Cost::Finite((val(a) + val(b)) as i128)),
{
    match (a, b) {
        (Cost::Finite(x), Cost::Finite(y)) => match x.checked_add(y) {
            Some(s) => Some(Cost::Finite(s)),
            None => None,
        },
        _ => Some(Cost::Infinite),
    }
}

pub open spec fn processed(a: int, b: int, i: int, j: int) -> bool {
    a < i || (a == i && b < j)
}

/// The matrix midway through phase `k`, at pair `(i, j)`, against its state `cs`/`cl` at the
/// start of the phase: handled pairs cover paths with interior below `k + 1`, the others and
/// row and column `k` are unchanged.
pub open spec fn phase_state(
    g: &GraphList,
    cs: Seq<Vec<Cost>>,
    cl: Seq<Vec<isize>>,
    c: Seq<Vec<Cost>>,
    l: Seq<Vec<isize>>,
    k: int,
    i: int,
    j: int,
) -> bool {
    &&& diag_linked(g, c, l)
    &&& witnessed(g, c, l, k + 1)
    &&& forall|a: int, b: int| 0 <= a < g.n() && 0 <= b < g.n() && (!processed(a, b, i, j) || a == k || b == k) ==> (
    #[trigger] c[a]@[b]) == cs[a]@[b] && l[a]@[b] == cl[a]@[b]
    &&& forall|a: int, b: int| 0 <= a < g.n() && 0 <= b < g.n() && processed(a, b, i, j) ==> covers(
        g,
        #[trigger] c[a]@[b],
        a,
        b,
        k + 1,
    )
}

proof fn lemma_phase_start(g: &GraphList, cs: Seq<Vec<Cost>>, cl: Seq<Vec<isize>>, k: int)
    requires
        fw_matrix_ok(g, cs, cl),
        witnessed(g, cs, cl, k),
        diag_linked(g, cs, cl),
    ensures
        phase_state(g, cs, cl, cs, cl, k, 0, 0),
{
    let k1 = k + 1;
    assert forall|i: int, j: int| 0 <= i < g.n() && 0 <= j < g.n() && fin(#[trigger] cs[i]@[j]) implies exists|p: Seq<int>|
        witness(g, cs[i]@[j], cl[i]@[j], i, j, k1, p) by {
        let p = choose|p: Seq<int>| witness(g, cs[i]@[j], cl[i]@[j], i, j, k, p);
        assert(witness(g, cs[i]@[j], cl[i]@[j], i, j, k1, p));
    }
    assert(witnessed(g, cs, cl, k1));
}

proof fn lemma_phase_next_row(
    g: &GraphList,
    cs: Seq<Vec<Cost>>,
    cl: Seq<Vec<isize>>,
    c: Seq<Vec<Cost>>,
    l: Seq<Vec<isize>>,
    k: int,
    i: int,
)
    requires
        phase_state(g, cs, cl, c, l, k, i, g.n()),
    ensures
        phase_state(g, cs, cl, c, l, k, i + 1, 0),
{
    assert forall|a: int, b: int| 0 <= a < g.n() && 0 <= b < g.n() && processed(a, b, i + 1, 0) implies covers(
        g,
        #[trigger] c[a]@[b],
        a,
        b,
        k + 1,
    ) by {
        assert(processed(a, b, i, g.n()));
    }
    assert forall|a: int, b: int| 0 <= a < g.n() && 0 <= b < g.n() && (!processed(a, b, i + 1, 0) || a == k || b == k)
        implies (#[trigger] c[a]@[b]) == cs[a]@[b] && l[a]@[b] == cl[a]@[b] by {
        if !processed(a, b, i + 1, 0) {
            assert(!processed(a, b, i, g.n()));
        }
    }
}

proof fn lemma_phase_end(
    g: &GraphList,
    cs: Seq<Vec<Cost>>,
    cl: Seq<Vec<isize>>,
    c: Seq<Vec<Cost>>,
    l: Seq<Vec<isize>>,
    k: int,
)
    requires
        phase_state(g, cs, cl, c, l, k, g.n(), 0),
    ensures
        witnessed(g, c, l, k + 1),
        covered(g, c, k + 1),
        diag_linked(g, c, l),
{
    assert forall|a: int, b: int| 0 <= a < g.n() && 0 <= b < g.n() implies covers(g, #[trigger] c[a]@[b], a, b, k + 1) by {
        assert(processed(a, b, g.n(), 0));
    }
}

/// An improving sum at `(i, j)` in phase `k` joins three distinct nodes, and the two witnesses
/// through `k` give a witness for the new entry.
proof fn lemma_fw_update_ok(
    g: &GraphList,
    cs: Seq<Vec<Cost>>,
    cl: Seq<Vec<isize>>,
    c0: Seq<Vec<Cost>>,
    l0: Seq<Vec<isize>>,
    k: int,
    i: int,
    j: int,
)
    requires
        no_negative_cycles(g),
        fw_matrix_ok(g, cs, cl),
        fw_matrix_ok(g, c0, l0),
        witnessed(g, cs, cl, k),
        diag_linked(g, cs, cl),
        phase_state(g, cs, cl, c0, l0, k, i, j),
        0 <= k < g.n(),
        0 <= i < g.n(),
        0 <= j < g.n(),
        fin(c0[i]@[k]),
        fin(c0[k]@[j]),
        !fin(c0[i]@[j]) || val(c0[i]@[k]) + val(c0[k]@[j]) < val(c0[i]@[j]),
    ensures
        i != j && i != k && j != k,
        l0[k]@[j] != -1,
        exists|p: Seq<int>| is_path(g, p) && p[0] == i && p.last() == j && interior_below(p, k + 1) && path_weight(g, p)
            == val(c0[i]@[k]) + val(c0[k]@[j]) && p.len() >= 2 && p[p.len() - 2] == l0[k]@[j],
{
    assert(c0[i]@[j] == cs[i]@[j]);
    assert(c0[i]@[k] == cs[i]@[k]);
    assert(c0[k]@[j] == cs[k]@[j]);
    assert(l0[k]@[j] == cl[k]@[j]);
    assert(cs[k]@[k] == Cost::Finite(0));
    assert(cs[i]@[i] == Cost::Finite(0));
    assert(cs[j]@[j] == Cost::Finite(0));
    assert(k != j);
    assert(k != i);
    let p1 = choose|p: Seq<int>| witness(g, cs[i]@[k], cl[i]@[k], i, k, k, p);
    let p2 = choose|p: Seq<int>| witness(g, cs[k]@[j], cl[k]@[j], k, j, k, p);
    let r = lemma_concat(g, p1, p2, k);
    if i == j {
        lemma_reach_self(g, i);
        assert(is_path(g, r) && r.len() >= 2 && r[0] == r.last() && reachable(g, i, r[0]) && path_weight(g, r) < 0);
        assert(negative_cycle_from(g, i));
    }
    assert(is_path(g, r) && r[0] == i && r.last() == j && interior_below(r, k + 1) && path_weight(g, r) == val(
        c0[i]@[k],
    ) + val(c0[k]@[j]) && r.len() >= 2 && r[r.len() - 2] == l0[k]@[j]);
}

/// Handling pair `(i, j)` moves the phase state on to the next pair.
proof fn lemma_fw_step_state(
    g: &GraphList,
    cs: Seq<Vec<Cost>>,
    cl: Seq<Vec<isize>>,
    c0: Seq<Vec<Cost>>,
    l0: Seq<Vec<isize>>,
    c1: Seq<Vec<Cost>>,
    l1: Seq<Vec<isize>>,
    k: int,
    k1: int,
    i: int,
    j: int,
)
    requires
        k1 == k + 1,
        no_negative_cycles(g),
        fw_matrix_ok(g, cs, cl),
        fw_matrix_ok(g, c0, l0),
        fw_matrix_ok(g, c1, l1),
        covered(g, cs, k),
        phase_state(g, cs, cl, c0, l0, k, i, j),
        0 <= k < g.n(),
        0 <= i < g.n(),
        0 <= j < g.n(),
        forall|a: int, b: int| 0 <= a < g.n() && 0 <= b < g.n() && (a != i || b != j) ==> #[trigger] c1[a]@[b] == c0[a]@[b]
            && l1[a]@[b] == l0[a]@[b],
        (c1[i]@[j] == c0[i]@[j] && l1[i]@[j] == l0[i]@[j]) || (i != j && i != k && j != k && fin(c1[i]@[j])
            && l1[i]@[j] != -1 && exists|p: Seq<int>| witness(g, c1[i]@[j], l1[i]@[j], i, j, k1, p)),
        fin(c0[i]@[k]) && fin(c0[k]@[j]) ==> fin(c1[i]@[j]) && val(c1[i]@[j]) <= val(c0[i]@[k]) + val(c0[k]@[j]),
        fin(c0[i]@[j]) ==> fin(c1[i]@[j]) && val(c1[i]@[j]) <= val(c0[i]@[j]),
    ensures
        phase_state(g, cs, cl, c1, l1, k, i, j + 1),
{
    assert(c0[i]@[j] == cs[i]@[j]);
    assert(c0[i]@[k] == cs[i]@[k]);
    assert(c0[k]@[j] == cs[k]@[j]);
    lemma_fw_step_covers(g, cs, k, i, j, c1[i]@[j]);
    assert forall|a: int, b: int| 0 <= a < g.n() && 0 <= b < g.n() && fin(#[trigger] c1[a]@[b]) implies exists|p: Seq<int>|
        witness(g, c1[a]@[b], l1[a]@[b], a, b, k1, p) by {
        if a != i || b != j {
            assert(c1[a]@[b] == c0[a]@[b]);
        } else if c1[i]@[j] == c0[i]@[j] && l1[i]@[j] == l0[i]@[j] {
        }
    }
    assert forall|a: int| 0 <= a < g.n() implies #[trigger] c1[a]@[a] == Cost::Finite(0) && l1[a]@[a] == -1 by {
        assert(c0[a]@[a] == Cost::Finite(0));
    }
    assert forall|a: int, b: int| 0 <= a < g.n() && 0 <= b < g.n() && a != b implies (#[trigger] l1[a]@[b] != -1 <==> fin(
        c1[a]@[b],
    )) by {
        assert(l0[a]@[b] != -1 <==> fin(c0[a]@[b]));
    }
    assert forall|a: int, b: int| 0 <= a < g.n() && 0 <= b < g.n() && processed(a, b, i, j + 1) implies covers(
        g,
        #[trigger] c1[a]@[b],
        a,
        b,
        k + 1,
    ) by {
        if a != i || b != j {
            assert(processed(a, b, i, j));
            assert(c1[a]@[b] == c0[a]@[b]);
        }
    }
    assert forall|a: int, b: int| 0 <= a < g.n() && 0 <= b < g.n() && (!processed(a, b, i, j + 1) || a == k || b == k)
        implies (#[trigger] c1[a]@[b]) == cs[a]@[b] && l1[a]@[b] == cl[a]@[b] by {
        assert(c1[a]@[b] == c0[a]@[b] && l1[a]@[b] == l0[a]@[b]);
    }
}

/// The entry an unimproved matrix holds: 0 on the diagonal, the edge weight, or infinity.
pub open spec fn initial_cost(g: &GraphList, a: int, b: int) -> Cost {
    if a == b {
        Cost::Finite(0)
    } else if g.has(a, b) {
        Cost::Finite(g.w(a, b) as i128)
    } else {
        Cost::Infinite
    }
}

pub open spec fn initial_last(g: &GraphList, a: int, b: int) -> int {
    if a == b {
        -1
    } else if g.has(a, b) {
        a
    } else {
        -1
    }
}

/// Floyd-Warshall all-pairs predecessors: `r[i][j]` is the node before `j` on a cheapest path
/// from `i` to `j`, or -1 when there is none (and on the diagonal). When no negative cycle is
/// reachable, entries off the diagonal are set exactly for connected pairs, and each recorded
/// predecessor ends a cheapest path to it that extends by one edge to a cheapest path to `j`.
/// A sum that leaves the range of `i128` is not taken as an improvement; this happens only
/// when a negative cycle is reachable.
pub fn floyd_warshall(g: &GraphList) -> (r: Vec<Vec<isize>>)
    requires
        g.wf(),
        g.n() <= u32::MAX,
        g.n() <= isize::MAX,
    ensures
        r@.len() == g.n(),
        forall|i: int| 0 <= i < g.n() ==> (#[trigger] r@[i])@.len() == g.n(),
        forall|i: int, j: int| 0 <= i < g.n() && 0 <= j < g.n() && #[trigger] r@[i]@[j] != -1 ==> 0 <= r@[i]@[j]
            < g.n() && g.has(r@[i]@[j] as int, j) && reachable(g, i, r@[i]@[j] as int),
        no_negative_cycles(g) ==> forall|i: int| 0 <= i < g.n() ==> #[trigger] r@[i]@[i] == -1,
        no_negative_cycles(g) ==> forall|i: int, j: int| 0 <= i < g.n() && 0 <= j < g.n() && i != j ==> (
        #[trigger] r@[i]@[j] != -1 <==> reachable(g, i, j)),
        no_negative_cycles(g) ==> forall|i: int, j: int| 0 <= i < g.n() && 0 <= j < g.n() && i != j
            && #[trigger] r@[i]@[j] != -1 ==> exists|d: int| is_min_weight(g, i, r@[i]@[j] as int, d)
            && is_min_weight(g, i, j, d + g.w(r@[i]@[j] as int, j)),
{
    let n = g.num_nodes();
    let mut cost: Vec<Vec<Cost>> = Vec::new();
    let mut last: Vec<Vec<isize>> = Vec::new();
    let mut i: usize = 0;
    while i < n
        invariant
            g.wf(),
            n == g.n(),
            n <= isize::MAX,
            i <= n,
            cost@.len() == i,
            last@.len() == i,
            forall|a: int| 0 <= a < i ==> (#[trigger] cost@[a])@.len() == n,
            forall|a: int| 0 <= a < i ==> (#[trigger] last@[a])@.len() == n,
            forall|a: int, b: int| 0 <= a < i && 0 <= b < n ==> #[trigger] cost@[a]@[b] == initial_cost(g, a, b)
                && last@[a]@[b] as int == initial_last(g, a, b),
        decreases n - i,
    {
        let mut crow: Vec<Cost> = Vec::new();
        let mut lrow: Vec<isize> = Vec::new();
        let mut j: usize = 0;
        while j < n
            invariant
                g.wf(),
                n == g.n(),
                n <= isize::MAX,
                i < n,
                j <= n,
                crow@.len() == j,
                lrow@.len() == j,
                forall|b: int| 0 <= b < j ==> #[trigger] crow@[b] == initial_cost(g, i as int, b) && lrow@[b] as int
                    == initial_last(g, i as int, b),
            decreases n - j,
        {
            if i == j {
                crow.push(Cost::Finite(0));
                lrow.push(-1);
            } else {
                match g.get_edge(i, j) {
                    Ok(Some(e)) => {
                        crow.push(Cost::Finite(e.weight as i128));
                        lrow.push(i as isize);
                    },
                    _ => {
                        crow.push(Cost::Infinite);
                        lrow.push(-1);
                    },
                }
            }
            j = j + 1;
        }
        let ghost cprev = cost@;
        let ghost lprev = last@;
        cost.push(crow);
        last.push(lrow);
        proof {
            assert forall|a: int| 0 <= a < i implies cost@[a] == cprev[a] && last@[a] == lprev[a] by {}
        }
        i = i + 1;
    }
    proof {
        assert forall|a: int, b: int| 0 <= a < n && 0 <= b < n && fin(#[trigger] cost@[a]@[b]) implies reachable(g, a, b) by {
            assert(cost@[a]@[b] == initial_cost(g, a, b));
            lemma_reach_self(g, a);
            if a != b {
                lemma_reach_step(g, a, a, b);
            }
        }
        assert forall|a: int, b: int| 0 <= a < n && 0 <= b < n && #[trigger] last@[a]@[b] != -1 implies 0 <= last@[a]@[b]
            < n && g.has(last@[a]@[b] as int, b) && reachable(g, a, last@[a]@[b] as int) by {
            assert(cost@[a]@[b] == initial_cost(g, a, b));
            lemma_reach_self(g, a);
        }
        assert(fw_matrix_ok(g, cost@, last@));
        if no_negative_cycles(g) {
            lemma_fw_init(g, cost@, last@);
        }
    }
    let mut k: usize = 0;
    while k < n
        invariant
            g.wf(),
            n == g.n(),
            n <= u32::MAX,
            k <= n,
            fw_matrix_ok(g, cost@, last@),
            no_negative_cycles(g) ==> witnessed(g, cost@, last@, k as int) && covered(g, cost@, k as int)
                && diag_linked(g, cost@, last@),
        decreases n - k,
    {
        let ghost cs = cost@;
        let ghost cl = last@;
        proof {
            if no_negative_cycles(g) {
                lemma_phase_start(g, cs, cl, k as int);
            }
        }
        let mut i: usize = 0;
        while i < n
            invariant
                g.wf(),
                n == g.n(),
                n <= u32::MAX,
                k < n,
                i <= n,
                fw_matrix_ok(g, cost@, last@),
                fw_matrix_ok(g, cs, cl),
                no_negative_cycles(g) ==> witnessed(g, cs, cl, k as int) && covered(g, cs, k as int) && diag_linked(
                    g,
                    cs,
                    cl,
                ),
                no_negative_cycles(g) ==> phase_state(g, cs, cl, cost@, last@, k as int, i as int, 0),
            decreases n - i,
        {
            let mut j: usize = 0;
            while j < n
                invariant
                    g.wf(),
                    n == g.n(),
                    n <= u32::MAX,
                    k < n,
                    i < n,
                    j <= n,
                    fw_matrix_ok(g, cost@, last@),
                    fw_matrix_ok(g, cs, cl),
                    no_negative_cycles(g) ==> witnessed(g, cs, cl, k as int) && covered(g, cs, k as int)
                        && diag_linked(g, cs, cl),
                    no_negative_cycles(g) ==> phase_state(g, cs, cl, cost@, last@, k as int, i as int, j as int),
                decreases n - j,
            {
                let ghost c0 = cost@;
                let ghost l0 = last@;
                proof {
                    if no_negative_cycles(g) {
                        if fin(c0[i as int]@[k as int]) {
                            lemma_fw_bound(g, cs, cl, k as int, i as int, k as int);
                        }
                        if fin(c0[k as int]@[j as int]) {
                            lemma_fw_bound(g, cs, cl, k as int, k as int, j as int);
                        }
                        assert((n - 1) * 0x8000_0000 <= 0x1_0000_0000 * 0x8000_0000) by (nonlinear_arith)
                            requires n <= 0xffff_ffff;
                    }
                }
                let through = add_costs(cost[i][k], cost[k][j]);
                if let Some(Cost::Finite(s)) = through {
                    let better = match cost[i][j] {
                        Cost::Finite(c) => s < c,
                        Cost::Infinite => true,
                    };
                    if better {
                        let lk = last[k][j];
                        proof {
                            assert(fin(c0[i as int]@[k as int]) && fin(c0[k as int]@[j as int]));
                            lemma_reach_trans(g, i as int, k as int, j as int);
                            if lk != -1 {
                                lemma_reach_trans(g, i as int, k as int, lk as int);
                            }
                            if no_negative_cycles(g) {
                                lemma_fw_update_ok(g, cs, cl, c0, l0, k as int, i as int, j as int);
                            }
                        }
                        cost[i].set(j, Cost::Finite(s));
                        last[i].set(j, lk);
                        proof {
                            assert forall|a: int| 0 <= a < n && a != i implies cost@[a] == c0[a] && last@[a] == l0[a] by {}
                            assert(fw_matrix_ok(g, cost@, last@));
                            if no_negative_cycles(g) {
                                let p = choose|p: Seq<int>| is_path(g, p) && p[0] == i && p.last() == j && interior_below(
                                    p,
                                    k + 1,
                                ) && path_weight(g, p) == val(c0[i as int]@[k as int]) + val(c0[k as int]@[j as int])
                                    && p.len() >= 2 && p[p.len() - 2] == l0[k as int]@[j as int];
                                assert(witness(g, cost@[i as int]@[j as int], last@[i as int]@[j as int], i as int, j as int, k + 1, p));
                                assert(cost@[i as int]@[j as int] != c0[i as int]@[j as int]);
                            }
                        }
                    }
                }
                proof {
                    if no_negative_cycles(g) {
                        lemma_fw_step_state(g, cs, cl, c0, l0, cost@, last@, k as int, k + 1, i as int, j as int);
                    }
                }
                j = j + 1;
            }
            proof {
                if no_negative_cycles(g) {
                    lemma_phase_next_row(g, cs, cl, cost@, last@, k as int, i as int);
                }
            }
            i = i + 1;
        }
        proof {
            if no_negative_cycles(g) {
                lemma_phase_end(g, cs, cl, cost@, last@, k as int);
            }
        }
        k = k + 1;
    }
    proof {
        if no_negative_cycles(g) {
            assert forall|i: int| 0 <= i < g.n() implies #[trigger] last@[i]@[i] == -1 by {
                assert(cost@[i]@[i] == Cost::Finite(0));
            }
            assert forall|i: int, j: int| 0 <= i < g.n() && 0 <= j < g.n() && i != j implies (#[trigger] last@[i]@[j]
                != -1 <==> reachable(g, i, j)) by {
                lemma_fw_final(g, cost@, last@, i, j);
            }
            assert forall|i: int, j: int| 0 <= i < g.n() && 0 <= j < g.n() && i != j && #[trigger] last@[i]@[j] != -1
                implies exists|d: int| is_min_weight(g, i, last@[i]@[j] as int, d) && is_min_weight(
                g,
                i,
                j,
                d + g.w(last@[i]@[j] as int, j),
            ) by {
                lemma_fw_final(g, cost@, last@, i, j);
            }
        }
    }
    last
}

} // verus!
