use vstd::prelude::*;
use vstd::set_lib::{lemma_int_range, lemma_len_subset, set_int_range};
use crate::graph::GraphList;

verus! {

/// A sequence of nodes in which every consecutive pair is joined by an edge.
pub open spec fn is_path(g: &GraphList, p: Seq<int>) -> bool {
    &&& p.len() >= 1
    &&& 0 <= p[0] < g.n()
    &&& forall|k: int| 0 <= k < p.len() - 1 ==> #[trigger] g.has(p[k], p[k + 1])
}

/// `t` can be reached from `s` by following edges (every node reaches itself).
pub open spec fn reachable(g: &GraphList, s: int, t: int) -> bool {
    exists|p: Seq<int>| is_path(g, p) && p[0] == s && p.last() == t
}

/// Following the predecessor entries back from `p.last()` visits `p` in reverse and ends at `start`.
pub open spec fn pred_path(last: Seq<int>, start: int, p: Seq<int>) -> bool {
    &&& p.len() >= 1
    &&& p[0] == start
    &&& forall|k: int| 1 <= k < p.len() ==> last[#[trigger] p[k]] == p[k - 1]
}

/// A set of nodes (given as flags) that every edge leaving it stays inside.
pub open spec fn closed(g: &GraphList, s: Seq<bool>) -> bool {
    forall|u: int, t: int| 0 <= u < s.len() && s[u] && #[trigger] g.has(u, t) ==> s[t]
}

/// A set closed under edges holds every node reachable from one of its members.
pub proof fn lemma_closed_reach(g: &GraphList, s: Seq<bool>, p: Seq<int>)
    requires
        s.len() == g.n(),
        closed(g, s),
        is_path(g, p),
        s[p[0]],
    ensures
        s[p.last()],
    decreases p.len(),
{
    if p.len() > 1 {
        let q = p.drop_last();
        assert forall|k: int| 0 <= k < q.len() - 1 implies #[trigger] g.has(q[k], q[k + 1]) by {
            assert(g.has(p[k], p[k + 1]));
        }
        lemma_closed_reach(g, s, q);
        let k = p.len() - 2;
        assert(g.has(p[k], p[k + 1]));
    }
}

/// Extending a path by one edge.
pub proof fn lemma_path_push(g: &GraphList, p: Seq<int>, t: int)
    requires
        is_path(g, p),
        g.has(p.last(), t),
    ensures
        is_path(g, p.push(t)),
        p.push(t)[0] == p[0],
        p.push(t).last() == t,
{
    let q = p.push(t);
    assert forall|k: int| 0 <= k < q.len() - 1 implies #[trigger] g.has(q[k], q[k + 1]) by {
        if k < p.len() - 1 {
            assert(g.has(p[k], p[k + 1]));
        }
    }
}

/// A chain of predecessors whose every link is an edge of the graph is a path.
pub proof fn lemma_pred_path_is_path(g: &GraphList, last: Seq<int>, start: int, p: Seq<int>)
    requires
        pred_path(last, start, p),
        0 <= start < g.n(),
        forall|v: int| 0 <= v < g.n() && v != start && last[v] != -1 ==> g.has(last[v], v),
        forall|k: int| 1 <= k < p.len() ==> 0 <= #[trigger] p[k] < g.n() && p[k] != start,
        forall|k: int| 1 <= k < p.len() ==> last[#[trigger] p[k]] != -1,
    ensures
        is_path(g, p),
{
    assert forall|k: int| 0 <= k < p.len() - 1 implies #[trigger] g.has(p[k], p[k + 1]) by {
        assert(last[p[k + 1]] == p[k]);
    }
}

/// A list of distinct indices below `n` holds at most `n` of them.
pub proof fn lemma_distinct_len(s: Seq<usize>, n: int)
    requires
        n >= 0,
        s.no_duplicates(),
        forall|k: int| 0 <= k < s.len() ==> s[k] < n,
    ensures
        s.len() <= n,
{
    let t = s.map_values(|x: usize| x as int);
    assert(t.no_duplicates()) by {
        assert forall|i: int, j: int| 0 <= i < t.len() && 0 <= j < t.len() && i != j implies t[i] != t[j] by {
            assert(s[i] != s[j]);
        }
    }
    t.unique_seq_to_set();
    lemma_int_range(0, n);
    assert(t.to_set().subset_of(set_int_range(0, n))) by {
        assert forall|x: int| t.to_set().contains(x) implies set_int_range(0, n).contains(x) by {
            let k = choose|k: int| 0 <= k < t.len() && t[k] == x;
        }
    }
    lemma_len_subset(t.to_set(), set_int_range(0, n));
}

/// A node that has a predecessor entry, or is the start itself.
pub open spec fn marked(last: Seq<int>, start: int, v: int) -> bool {
    v == start || last[v] != -1
}

/// Every marked node is reached from `start` by a predecessor chain through marked nodes.
#[verifier::opaque]
pub open spec fn pred_forest(last: Seq<int>, start: int, n: int) -> bool {
    forall|v: int| 0 <= v < n && #[trigger] marked(last, start, v) ==> exists|p: Seq<int>|
        pred_path(last, start, p) && p.last() == v
        && forall|k: int| 0 <= k < p.len() ==> 0 <= #[trigger] p[k] < n && marked(last, start, p[k])
}

pub proof fn lemma_pred_forest_init(last: Seq<int>, start: int, n: int)
    requires
        0 <= start < n,
        last.len() == n,
        forall|v: int| 0 <= v < n ==> last[v] == -1,
    ensures
        pred_forest(last, start, n),
{
    reveal(pred_forest);
    assert forall|v: int| 0 <= v < n && #[trigger] marked(last, start, v) implies exists|p: Seq<int>|
        pred_path(last, start, p) && p.last() == v
        && forall|k: int| 0 <= k < p.len() ==> 0 <= #[trigger] p[k] < n && marked(last, start, p[k]) by {
        let p = seq![start];
        assert(pred_path(last, start, p) && p.last() == v
            && forall|k: int| 0 <= k < p.len() ==> 0 <= #[trigger] p[k] < n && marked(last, start, p[k]));
    }
}

/// Giving an unmarked node a marked predecessor keeps every chain intact.
pub proof fn lemma_pred_forest_extend(last: Seq<int>, start: int, n: int, nb: int, next: int)
    requires
        pred_forest(last, start, n),
        last.len() == n,
        0 <= nb < n,
        0 <= next < n,
        !marked(last, start, nb),
        marked(last, start, next),
    ensures
        pred_forest(last.update(nb, next), start, n),
{
    reveal(pred_forest);
    let nl = last.update(nb, next);
    let pn = choose|p: Seq<int>|
        pred_path(last, start, p) && p.last() == next
        && forall|k: int| 0 <= k < p.len() ==> 0 <= #[trigger] p[k] < n && marked(last, start, p[k]);
    assert forall|v: int| 0 <= v < n && #[trigger] marked(nl, start, v) implies exists|p: Seq<int>|
        pred_path(nl, start, p) && p.last() == v
        && forall|k: int| 0 <= k < p.len() ==> 0 <= #[trigger] p[k] < n && marked(nl, start, p[k]) by {
        if v == nb {
            let q = pn.push(nb);
            assert forall|k: int| 1 <= k < q.len() implies nl[#[trigger] q[k]] == q[k - 1] by {
                if k < q.len() - 1 {
                    assert(q[k] == pn[k]);
                    assert(marked(last, start, pn[k]));
                    assert(last[pn[k]] == pn[k - 1]);
                }
            }
            assert forall|k: int| 0 <= k < q.len() implies 0 <= #[trigger] q[k] < n && marked(nl, start, q[k]) by {
                if k < q.len() - 1 {
                    assert(q[k] == pn[k]);
                    assert(marked(last, start, pn[k]));
                }
            }
            assert(pred_path(nl, start, q) && q.last() == v);
        } else {
            assert(marked(last, start, v));
            let p = choose|p: Seq<int>|
                pred_path(last, start, p) && p.last() == v
                && forall|k: int| 0 <= k < p.len() ==> 0 <= #[trigger] p[k] < n && marked(last, start, p[k]);
            assert forall|k: int| 1 <= k < p.len() implies nl[#[trigger] p[k]] == p[k - 1] by {
                assert(marked(last, start, p[k]));
                assert(last[p[k]] == p[k - 1]);
            }
            assert forall|k: int| 0 <= k < p.len() implies 0 <= #[trigger] p[k] < n && marked(nl, start, p[k]) by {
                assert(marked(last, start, p[k]));
            }
            assert(pred_path(nl, start, p));
        }
    }
}

/// A predecessor forest whose links are edges: every marked node is reachable, and has a chain.
pub proof fn lemma_pred_forest_reach(g: &GraphList, last: Seq<int>, start: int, v: int)
    requires
        pred_forest(last, start, g.n()),
        last.len() == g.n(),
        0 <= start < g.n(),
        last[start] == -1,
        forall|u: int| 0 <= u < g.n() && last[u] != -1 ==> 0 <= last[u] < g.n() && g.has(last[u], u),
        0 <= v < g.n(),
        marked(last, start, v),
    ensures
        reachable(g, start, v),
        exists|p: Seq<int>| pred_path(last, start, p) && p.last() == v
            && forall|k: int| 0 <= k < p.len() ==> 0 <= #[trigger] p[k] < g.n(),
        v != start ==> marked(last, start, last[v]),
{
    reveal(pred_forest);
    assert(marked(last, start, v));
    let n = g.n();
    let p = choose|p: Seq<int>|
        pred_path(last, start, p) && p.last() == v
        && forall|k: int| 0 <= k < p.len() ==> 0 <= #[trigger] p[k] < n && marked(last, start, p[k]);
    assert forall|k: int| 1 <= k < p.len() implies 0 <= #[trigger] p[k] < g.n() && p[k] != start by {
        assert(last[p[k]] == p[k - 1]);
        assert(0 <= p[k - 1]);
    }
    assert forall|k: int| 1 <= k < p.len() implies last[#[trigger] p[k]] != -1 by {
        assert(last[p[k]] == p[k - 1]);
        assert(0 <= p[k - 1]);
    }
    lemma_pred_path_is_path(g, last, start, p);
    if v != start {
        let k = p.len() - 1;
        assert(last[p[k]] == p[k - 1]);
        assert(marked(last, start, p[k - 1]));
    }
}

/// One more edge extends reachability.
pub proof fn lemma_reach_step(g: &GraphList, s: int, u: int, t: int)
    requires
        reachable(g, s, u),
        g.has(u, t),
    ensures
        reachable(g, s, t),
{
    let p = choose|p: Seq<int>| is_path(g, p) && p[0] == s && p.last() == u;
    lemma_path_push(g, p, t);
}

pub proof fn lemma_reach_self(g: &GraphList, s: int)
    requires
        0 <= s < g.n(),
    ensures
        reachable(g, s, s),
{
    let p = seq![s];
    assert(is_path(g, p) && p[0] == s && p.last() == s);
}

/// The number of unset flags.
pub open spec fn count_false(s: Seq<bool>) -> nat
    decreases s.len(),
{
    if s.len() == 0 {
        0
    } else {
        count_false(s.drop_last()) + if s.last() { 0nat } else { 1nat }
    }
}

pub proof fn lemma_count_false_set(s: Seq<bool>, i: int)
    requires
        0 <= i < s.len(),
        !s[i],
    ensures
        count_false(s.update(i, true)) + 1 == count_false(s),
    decreases s.len(),
{
    let u = s.update(i, true);
    if i == s.len() - 1 {
        assert(u.drop_last() =~= s.drop_last());
    } else {
        assert(u.drop_last() =~= s.drop_last().update(i, true));
        lemma_count_false_set(s.drop_last(), i);
    }
}

/// Reachability composes.
pub proof fn lemma_reach_trans(g: &GraphList, s: int, u: int, t: int)
    requires
        reachable(g, s, u),
        reachable(g, u, t),
    ensures
        reachable(g, s, t),
{
    let p = choose|p: Seq<int>| is_path(g, p) && p[0] == u && p.last() == t;
    lemma_reach_along(g, s, p);
}

proof fn lemma_reach_along(g: &GraphList, s: int, p: Seq<int>)
    requires
        is_path(g, p),
        reachable(g, s, p[0]),
    ensures
        reachable(g, s, p.last()),
    decreases p.len(),
{
    if p.len() > 1 {
        let q = p.drop_last();
        assert forall|k: int| 0 <= k < q.len() - 1 implies #[trigger] g.has(q[k], q[k + 1]) by {
            assert(g.has(p[k], p[k + 1]));
        }
        lemma_reach_along(g, s, q);
        let k = p.len() - 2;
        assert(g.has(p[k], p[k + 1]));
        lemma_reach_step(g, s, q.last(), p.last());
    }
}

pub proof fn lemma_count_false_all(s: Seq<bool>)
    requires
        forall|i: int| 0 <= i < s.len() ==> !s[i],
    ensures
        count_false(s) == s.len(),
    decreases s.len(),
{
    if s.len() > 0 {
        lemma_count_false_all(s.drop_last());
    }
}

pub proof fn lemma_count_false_zero(s: Seq<bool>, i: int)
    requires
        0 <= i < s.len(),
        !s[i],
    ensures
        count_false(s) > 0,
    decreases s.len(),
{
    if i < s.len() - 1 {
        lemma_count_false_zero(s.drop_last(), i);
    }
}

pub proof fn lemma_count_false_none(s: Seq<bool>)
    requires
        forall|i: int| 0 <= i < s.len() ==> s[i],
    ensures
        count_false(s) == 0,
    decreases s.len(),
{
    if s.len() > 0 {
        lemma_count_false_none(s.drop_last());
    }
}

/// `t` is reached from `s` by a path whose nodes after `s` are all unflagged in `m`.
pub open spec fn reachable_avoiding(g: &GraphList, s: int, t: int, m: Seq<bool>) -> bool {
    exists|p: Seq<int>| is_path(g, p) && p[0] == s && p.last() == t && forall|k: int| 1 <= k < p.len() ==> !m[#[trigger] p[k]]
}

pub proof fn lemma_avoid_self(g: &GraphList, s: int, m: Seq<bool>)
    requires
        0 <= s < g.n(),
    ensures
        reachable_avoiding(g, s, s, m),
{
    let p = seq![s];
    assert(is_path(g, p) && p[0] == s && p.last() == s && forall|k: int| 1 <= k < p.len() ==> !m[#[trigger] p[k]]);
}

pub proof fn lemma_avoid_step(g: &GraphList, s: int, u: int, t: int, m: Seq<bool>)
    requires
        reachable_avoiding(g, s, u, m),
        g.has(u, t),
        !m[t],
    ensures
        reachable_avoiding(g, s, t, m),
        reachable(g, s, t),
{
    let p = choose|p: Seq<int>| is_path(g, p) && p[0] == s && p.last() == u && forall|k: int| 1 <= k < p.len() ==> !m[#[trigger] p[k]];
    lemma_path_push(g, p, t);
    let q = p.push(t);
    assert forall|k: int| 1 <= k < q.len() implies !m[#[trigger] q[k]] by {
        if k < p.len() {
            assert(q[k] == p[k]);
        }
    }
}

pub proof fn lemma_avoid_reach(g: &GraphList, s: int, t: int, m: Seq<bool>)
    requires
        reachable_avoiding(g, s, t, m),
    ensures
        reachable(g, s, t),
{
}

/// A set holding `s` whose members other than those flagged in `m` (and `s` itself) lead only
/// into the set holds everything reached from `s` through unflagged nodes.
pub proof fn lemma_avoid_closed(g: &GraphList, s: int, m: Seq<bool>, f: Seq<bool>, p: Seq<int>)
    requires
        f.len() == g.n(),
        m.len() == g.n(),
        0 <= s < g.n(),
        f[s],
        forall|u: int, t: int| 0 <= u < g.n() && f[u] && (u == s || !m[u]) && #[trigger] g.has(u, t) ==> f[t],
        is_path(g, p),
        p[0] == s,
        forall|k: int| 1 <= k < p.len() ==> !m[#[trigger] p[k]],
    ensures
        f[p.last()],
    decreases p.len(),
{
    if p.len() > 1 {
        let q = p.drop_last();
        assert forall|k: int| 0 <= k < q.len() - 1 implies #[trigger] g.has(q[k], q[k + 1]) by {
            assert(g.has(p[k], p[k + 1]));
        }
        assert forall|k: int| 1 <= k < q.len() implies !m[#[trigger] q[k]] by {
            assert(q[k] == p[k]);
        }
        lemma_avoid_closed(g, s, m, f, q);
        let k = p.len() - 2;
        assert(g.has(p[k], p[k + 1]));
        if k > 0 {
            assert(!m[p[k]]);
        }
    }
}

} // verus!
