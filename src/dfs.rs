use vstd::prelude::*;
use crate::bfs::isize_ints;
use crate::graph::{lemma_edge_map_at, GraphList};
use crate::paths::{
    closed, count_false, is_path, lemma_avoid_closed, lemma_avoid_reach, lemma_avoid_self, lemma_avoid_step,
    lemma_closed_reach, lemma_count_false_set, lemma_pred_forest_extend, lemma_pred_forest_init,
    lemma_pred_forest_reach, lemma_reach_self, lemma_reach_step, lemma_reach_trans, marked, pred_forest, pred_path,
    reachable, reachable_avoiding,
};

verus! {

/// Marks `u` as seen and pushes its unseen neighbors, largest index first.
fn explore(g: &GraphList, u: usize, seen: &mut Vec<bool>, stack: &mut Vec<usize>)
    requires
        g.wf(),
        u < g.n(),
        old(seen)@.len() == g.n(),
    ensures
        final(seen)@ == old(seen)@.update(u as int, true),
        final(stack)@.len() >= old(stack)@.len(),
        forall|k: int| 0 <= k < old(stack)@.len() ==> final(stack)@[k] == old(stack)@[k],
        forall|k: int| old(stack)@.len() <= k < final(stack)@.len() ==> g.has(u as int, #[trigger] final(stack)@[k] as int)
            && !old(seen)@[final(stack)@[k] as int],
        forall|t: int| #[trigger] g.has(u as int, t) ==> final(seen)@[t] || final(stack)@.contains(t as usize),
{
    let n = g.num_nodes();
    seen.set(u, true);
    assert(g.nodes@[u as int].wf());
    let es = g.nodes[u].get_ordered_edge_list();
    let mut j: usize = es.len();
    let ghost base = stack@;
    while j > 0
        invariant
            g.wf(),
            u < g.n(),
            n == g.n(),
            es@ == g.nodes@[u as int].edges@,
            j <= es@.len(),
            seen@ == old(seen)@.update(u as int, true),
            old(seen)@.len() == g.n(),
            stack@.len() >= base.len(),
            base == old(stack)@,
            forall|k: int| 0 <= k < base.len() ==> stack@[k] == base[k],
            forall|k: int| base.len() <= k < stack@.len() ==> g.has(u as int, #[trigger] stack@[k] as int)
                && !old(seen)@[stack@[k] as int],
            forall|k: int| j <= k < es@.len() ==> seen@[#[trigger] es@[k].to as int] || stack@.contains(es@[k].to),
        decreases j,
    {
        j = j - 1;
        let t = es[j].to;
        proof {
            assert(g.nodes@[u as int].wf());
            lemma_edge_map_at(es@, j as int);
            assert(g.nodes@[u as int]@.contains_key(t));
            assert(g.has(u as int, t as int));
        }
        if !seen[t] {
            let ghost prev = stack@;
            stack.push(t);
            proof {
                assert(stack@[stack@.len() - 1] == t);
                assert forall|k: int| j <= k < es@.len() implies seen@[#[trigger] es@[k].to as int]
                    || stack@.contains(es@[k].to) by {
                    if k > j && !seen@[es@[k].to as int] {
                        let c = choose|c: int| 0 <= c < prev.len() && prev[c] == es@[k].to;
                        assert(stack@[c] == prev[c]);
                    }
                }
            }
        }
    }
    proof {
        assert forall|t: int| #[trigger] g.has(u as int, t) implies seen@[t] || stack@.contains(t as usize) by {
            let node = g.nodes@[u as int];
            let c = choose|c: int| 0 <= c < node.edges@.len() && node.edges@[c].to == t as usize;
            assert(seen@[es@[c].to as int] || stack@.contains(es@[c].to));
        }
    }
}

/// Depth-first exploration from `ind`: marks `ind` and every node reachable from it
/// that was not already marked, visiting neighbors by ascending index.
pub fn dfs_recursive(g: &GraphList, ind: usize, seen: &mut Vec<bool>)
    requires
        g.wf(),
        ind < g.n(),
        old(seen)@.len() == g.n(),
    ensures
        final(seen)@.len() == g.n(),
        final(seen)@[ind as int],
        forall|v: int| 0 <= v < g.n() && old(seen)@[v] ==> final(seen)@[v],
        forall|v: int| 0 <= v < g.n() && final(seen)@[v] && !old(seen)@[v] ==> reachable(g, ind as int, v),
        forall|v: int| 0 <= v < g.n() ==> (#[trigger] final(seen)@[v] <==> (old(seen)@[v] || v == ind
            || reachable_avoiding(g, ind as int, v, old(seen)@))),
        forall|t: int| #[trigger] g.has(ind as int, t) ==> final(seen)@[t],
        forall|u: int, t: int| 0 <= u < g.n() && final(seen)@[u] && !old(seen)@[u] && #[trigger] g.has(u, t)
            ==> final(seen)@[t],
{
    let ghost s0 = seen@;
    let n = g.num_nodes();
    let mut stack: Vec<usize> = Vec::new();
    proof {
        lemma_reach_self(g, ind as int);
    }
    explore(g, ind, seen, &mut stack);
    proof {
        lemma_avoid_self(g, ind as int, s0);
        assert forall|k: int| 0 <= k < stack@.len() implies (#[trigger] stack@[k]) < g.n() && reachable_avoiding(
            g,
            ind as int,
            stack@[k] as int,
            s0,
        ) by {
            lemma_avoid_step(g, ind as int, ind as int, stack@[k] as int, s0);
        }
    }
    while stack.len() > 0
        invariant
            g.wf(),
            ind < g.n(),
            n == g.n(),
            seen@.len() == g.n(),
            s0.len() == g.n(),
            seen@[ind as int],
            forall|v: int| 0 <= v < g.n() && s0[v] ==> seen@[v],
            forall|v: int| 0 <= v < g.n() && seen@[v] && !s0[v] ==> reachable_avoiding(g, ind as int, v, s0),
            forall|k: int| 0 <= k < stack@.len() ==> (#[trigger] stack@[k]) < g.n() && reachable_avoiding(
                g,
                ind as int,
                stack@[k] as int,
                s0,
            ),
            forall|t: int| #[trigger] g.has(ind as int, t) ==> seen@[t] || stack@.contains(t as usize),
            forall|u: int, t: int| 0 <= u < g.n() && seen@[u] && !s0[u] && #[trigger] g.has(u, t)
                ==> seen@[t] || stack@.contains(t as usize),
        decreases count_false(seen@), stack@.len(),
    {
        let ghost before = stack@;
        let ghost seen_before = seen@;
        let u = stack.pop().unwrap();
        proof {
            assert(before[before.len() - 1] == u);
            assert forall|x: usize| before.contains(x) && x != u implies stack@.contains(x) by {
                let c = choose|c: int| 0 <= c < before.len() && before[c] == x;
                assert(stack@[c] == before[c]);
            }
        }
        if !seen[u] {
            let ghost mid = stack@;
            proof {
                lemma_count_false_set(seen@, u as int);
            }
            explore(g, u, seen, &mut stack);
            proof {
                assert forall|x: usize| mid.contains(x) implies stack@.contains(x) by {
                    let c = choose|c: int| 0 <= c < mid.len() && mid[c] == x;
                    assert(stack@[c] == mid[c]);
                }
                assert(reachable_avoiding(g, ind as int, u as int, s0));
                assert forall|k: int| 0 <= k < stack@.len() implies (#[trigger] stack@[k]) < g.n() && reachable_avoiding(
                    g,
                    ind as int,
                    stack@[k] as int,
                    s0,
                ) by {
                    if k < mid.len() {
                        assert(stack@[k] == mid[k]);
                        assert(mid[k] == before[k]);
                    } else {
                        assert(!seen_before[stack@[k] as int]);
                        lemma_avoid_step(g, ind as int, u as int, stack@[k] as int, s0);
                    }
                }
            }
        }
        proof {
            assert(seen@[u as int]);
            assert(forall|v: int| 0 <= v < g.n() && seen_before[v] ==> seen@[v]);
            assert(forall|x: usize| before.contains(x) && x != u ==> stack@.contains(x));
            assert forall|t: int| #[trigger] g.has(ind as int, t) implies seen@[t] || stack@.contains(t as usize) by {
                assert(seen_before[t] || before.contains(t as usize));
                if seen_before[t] {
                    assert(seen@[t]);
                } else if t == u as int {
                    assert(seen@[t]);
                } else {
                    assert(before.contains(t as usize));
                    assert(t as usize != u);
                    assert(stack@.contains(t as usize));
                }
            }
            assert forall|w: int, t: int| 0 <= w < g.n() && seen@[w] && !s0[w] && #[trigger] g.has(w, t)
                implies seen@[t] || stack@.contains(t as usize) by {
                if w == u as int && !seen_before[w] {
                } else if seen_before[t] {
                    assert(seen@[t]);
                } else if t == u as int {
                    assert(seen@[t]);
                } else {
                    assert(seen_before[w]);
                    assert(before.contains(t as usize));
                    assert(t as usize != u);
                    assert(stack@.contains(t as usize));
                }
            }
        }
    }
    proof {
        assert forall|u: int, t: int| 0 <= u < g.n() && seen@[u] && !s0[u] && #[trigger] g.has(u, t)
            implies seen@[t] by {
            assert(!stack@.contains(t as usize));
        }
        assert forall|t: int| #[trigger] g.has(ind as int, t) implies seen@[t] by {
            assert(!stack@.contains(t as usize));
        }
        assert forall|v: int| 0 <= v < g.n() && seen@[v] && !s0[v] implies reachable(g, ind as int, v) by {
            lemma_avoid_reach(g, ind as int, v, s0);
        }
        assert forall|v: int| 0 <= v < g.n() implies (#[trigger] seen@[v] <==> (s0[v] || v == ind
            || reachable_avoiding(g, ind as int, v, s0))) by {
            if reachable_avoiding(g, ind as int, v, s0) {
                let p = choose|p: Seq<int>| is_path(g, p) && p[0] == ind as int && p.last() == v && forall|k: int|
                    1 <= k < p.len() ==> !s0[#[trigger] p[k]];
                lemma_avoid_closed(g, ind as int, s0, seen@, p);
            }
        }
    }
}

/// Depth-first exploration of everything reachable from `start`.
pub fn dfs(g: &GraphList, start: usize)
    requires
        g.wf(),
        start < g.n(),
{
    let mut seen: Vec<bool> = vec![false; g.num_nodes()];
    dfs_recursive(g, start, &mut seen);
}

/// Depth-first exploration started from every node not yet reached, in ascending order.
pub fn dfs_all(g: &GraphList)
    requires
        g.wf(),
{
    let n = g.num_nodes();
    let mut seen: Vec<bool> = vec![false; n];
    let mut i: usize = 0;
    while i < n
        invariant
            g.wf(),
            n == g.n(),
            seen@.len() == n,
        decreases n - i,
    {
        if !seen[i] {
            dfs_recursive(g, i, &mut seen);
        }
        i = i + 1;
    }
}

pub open spec fn i64_ints(s: Seq<i64>) -> Seq<int> {
    s.map_values(|x: i64| x as int)
}

/// Depth-first search with an explicit stack: each reached node's predecessor is the node
/// that first pushed it; -1 for `start` and for every node not reached.
#[verifier::spinoff_prover]
pub fn dfs_stack(g: &GraphList, start: usize) -> (r: Vec<i64>)
    requires
        g.wf(),
        start < g.n(),
        g.n() <= i64::MAX,
    ensures
        r@.len() == g.n(),
        r@[start as int] == -1,
        forall|v: int| 0 <= v < g.n() && r@[v] != -1 ==> v != start && g.has(r@[v] as int, v),
        forall|v: int| 0 <= v < g.n() && v != start ==> (r@[v] != -1 <==> reachable(g, start as int, v)),
        forall|v: int| 0 <= v < g.n() && r@[v] != -1 ==> r@[v] == start || r@[r@[v] as int] != -1,
        forall|v: int| 0 <= v < g.n() && (v == start || r@[v] != -1) ==> exists|p: Seq<int>|
            pred_path(i64_ints(r@), start as int, p) && p.last() == v
            && forall|k: int| 0 <= k < p.len() ==> 0 <= #[trigger] p[k] < g.n(),
{
    let n = g.num_nodes();
    let mut seen: Vec<bool> = vec![false; n];
    let mut last: Vec<i64> = vec![-1; n];
    assert(forall|i: int| 0 <= i < n ==> !seen@[i] && i64_ints(last@)[i] == -1);
    proof {
        lemma_pred_forest_init(i64_ints(last@), start as int, n as int);
    }
    let mut to_explore: Vec<usize> = Vec::new();
    to_explore.push(start);
    proof {
        assert(to_explore@[0] == start);
        assert forall|v: int| 0 <= v < n implies (marked(i64_ints(last@), start as int, v) <==> seen@[v]
            || to_explore@.contains(v as usize)) by {
            if to_explore@.contains(v as usize) {
                let k = choose|k: int| 0 <= k < to_explore@.len() && to_explore@[k] == v as usize;
            }
        }
    }
    while to_explore.len() > 0
        invariant
            g.wf(),
            n == g.n(),
            start < n,
            n <= i64::MAX,
            seen@.len() == n,
            last@.len() == n,
            forall|k: int| 0 <= k < to_explore@.len() ==> (#[trigger] to_explore@[k]) < n,
            forall|v: int| 0 <= v < n ==> (#[trigger] marked(i64_ints(last@), start as int, v) <==> seen@[v]
                || to_explore@.contains(v as usize)),
            last@[start as int] == -1,
            forall|v: int| 0 <= v < n && last@[v] != -1 ==> 0 <= last@[v] < n && g.has(last@[v] as int, v),
            pred_forest(i64_ints(last@), start as int, n as int),
            forall|u: int, t: int| 0 <= u < n && seen@[u] && #[trigger] g.has(u, t)
                ==> seen@[t] || to_explore@.contains(t as usize),
        decreases count_false(seen@), to_explore@.len(),
    {
        let ghost before = to_explore@;
        let ghost seen_before = seen@;
        let ghost li0 = i64_ints(last@);
        assert(forall|v: int| 0 <= v < n ==> (#[trigger] marked(li0, start as int, v) <==> seen_before[v]
            || before.contains(v as usize)));
        let ind = to_explore.pop().unwrap();
        proof {
            assert(before[before.len() - 1] == ind);
            assert forall|x: usize| before.contains(x) && x != ind implies to_explore@.contains(x) by {
                let c = choose|c: int| 0 <= c < before.len() && before[c] == x;
                assert(to_explore@[c] == before[c]);
            }
            assert(before.contains(ind));
        }
        if !seen[ind] {
            proof {
                lemma_count_false_set(seen@, ind as int);
            }
            seen.set(ind, true);
            assert(g.nodes@[ind as int].wf());
            let edges = g.nodes[ind].get_ordered_edge_list();
            let mut j: usize = edges.len();
            let ghost mid = to_explore@;
            proof {
                assert forall|v: int| 0 <= v < n implies (marked(i64_ints(last@), start as int, v) <==> seen@[v]
                    || to_explore@.contains(v as usize) || v == ind) by {
                    assert(i64_ints(last@) == li0);
                    assert(marked(li0, start as int, v) <==> seen_before[v] || before.contains(v as usize));
                    if v == ind as int {
                        assert(seen_before[v] || before.contains(v as usize));
                    } else if before.contains(v as usize) {
                        assert(to_explore@.contains(v as usize));
                    } else if to_explore@.contains(v as usize) {
                        let c = choose|c: int| 0 <= c < to_explore@.len() && to_explore@[c] == v as usize;
                        assert(before[c] == v as usize);
                    }
                }
            }
            while j > 0
                invariant
                    g.wf(),
                    n == g.n(),
                    start < n,
                    n <= i64::MAX,
                    ind < n,
                    seen@.len() == n,
                    last@.len() == n,
                    seen@[ind as int],
                    edges@ == g.nodes@[ind as int].edges@,
                    j <= edges@.len(),
                    forall|x: usize| mid.contains(x) ==> to_explore@.contains(x),
                    forall|k: int| 0 <= k < to_explore@.len() ==> (#[trigger] to_explore@[k]) < n,
                    forall|v: int| 0 <= v < n ==> (#[trigger] marked(i64_ints(last@), start as int, v) <==> seen@[v]
                        || to_explore@.contains(v as usize) || v == ind),
                    last@[start as int] == -1,
                    forall|v: int| 0 <= v < n && last@[v] != -1 ==> 0 <= last@[v] < n && g.has(last@[v] as int, v),
                    pred_forest(i64_ints(last@), start as int, n as int),
                    forall|k: int| j <= k < edges@.len() ==> seen@[#[trigger] edges@[k].to as int]
                        || to_explore@.contains(edges@[k].to),
                decreases j,
            {
                j = j - 1;
                let neighbor = edges[j].to;
                proof {
                    assert(g.nodes@[ind as int].wf());
                    lemma_edge_map_at(edges@, j as int);
                    assert(g.nodes@[ind as int]@.contains_key(neighbor));
                    assert(g.has(ind as int, neighbor as int));
                }
                if !seen[neighbor] {
                    let ghost prev = to_explore@;
                    let ghost old_last = last@;
                    if neighbor != start && last[neighbor] == -1 {
                        proof {
                            assert(marked(i64_ints(last@), start as int, ind as int));
                            lemma_pred_forest_extend(
                                i64_ints(last@),
                                start as int,
                                n as int,
                                neighbor as int,
                                ind as int,
                            );
                        }
                        last.set(neighbor, ind as i64);
                        assert(i64_ints(last@) =~= i64_ints(old_last).update(neighbor as int, ind as int));
                    }
                    to_explore.push(neighbor);
                    proof {
                        assert(to_explore@[to_explore@.len() - 1] == neighbor);
                        assert forall|x: usize| prev.contains(x) implies to_explore@.contains(x) by {
                            let c = choose|c: int| 0 <= c < prev.len() && prev[c] == x;
                            assert(to_explore@[c] == prev[c]);
                        }
                        assert forall|v: int| 0 <= v < n implies (marked(i64_ints(last@), start as int, v)
                            <==> seen@[v] || to_explore@.contains(v as usize) || v == ind) by {
                            assert(marked(i64_ints(old_last), start as int, v) <==> seen@[v]
                                || prev.contains(v as usize) || v == ind);
                            if v == neighbor as int {
                                assert(to_explore@.contains(v as usize));
                                assert(marked(i64_ints(last@), start as int, v));
                            } else {
                                assert(marked(i64_ints(last@), start as int, v) == marked(
                                    i64_ints(old_last),
                                    start as int,
                                    v,
                                ));
                                if to_explore@.contains(v as usize) {
                                    let c = choose|c: int| 0 <= c < to_explore@.len() && to_explore@[c] == v as usize;
                                    if c < prev.len() {
                                        assert(prev[c] == v as usize);
                                    }
                                }
                            }
                        }
                    }
                }
            }
            proof {
                assert forall|t: int| #[trigger] g.has(ind as int, t) implies seen@[t] || to_explore@.contains(
                    t as usize,
                ) by {
                    let node = g.nodes@[ind as int];
                    let c = choose|c: int| 0 <= c < node.edges@.len() && node.edges@[c].to == t as usize;
                    assert(seen@[edges@[c].to as int] || to_explore@.contains(edges@[c].to));
                }
            }
        } else {
            proof {
                assert forall|v: int| 0 <= v < n implies (marked(i64_ints(last@), start as int, v) <==> seen@[v]
                    || to_explore@.contains(v as usize)) by {
                    assert(i64_ints(last@) == li0);
                    assert(marked(li0, start as int, v) <==> seen_before[v] || before.contains(v as usize));
                    if v == ind as int {
                    } else if before.contains(v as usize) {
                        assert(to_explore@.contains(v as usize));
                    } else if to_explore@.contains(v as usize) {
                        let c = choose|c: int| 0 <= c < to_explore@.len() && to_explore@[c] == v as usize;
                        assert(before[c] == v as usize);
                    }
                }
            }
        }
        proof {
            assert forall|v: int| 0 <= v < n implies (marked(i64_ints(last@), start as int, v) <==> seen@[v]
                || to_explore@.contains(v as usize)) by {
                if v == ind as int {
                    assert(seen@[v]);
                }
            }
            assert forall|u: int, t: int| 0 <= u < n && seen@[u] && #[trigger] g.has(u, t)
                implies seen@[t] || to_explore@.contains(t as usize) by {
                if u == ind as int && !seen_before[u] {
                } else if seen_before[t] {
                    assert(seen@[t]);
                } else if t == ind as int {
                    assert(seen@[t]);
                } else {
                    assert(seen_before[u]);
                    assert(before.contains(t as usize));
                    assert(t as usize != ind);
                    assert(to_explore@.contains(t as usize));
                }
            }
        }
    }
    proof {
        let li = i64_ints(last@);
        assert(closed(g, seen@)) by {
            assert forall|u: int, t: int| 0 <= u < seen@.len() && seen@[u] && #[trigger] g.has(u, t)
                implies seen@[t] by {
                assert(!to_explore@.contains(t as usize));
            }
        }
        assert forall|v: int| 0 <= v < n && (v == start || last@[v] != -1) implies reachable(g, start as int, v)
            && (exists|p: Seq<int>| pred_path(li, start as int, p) && p.last() == v
            && forall|k: int| 0 <= k < p.len() ==> 0 <= #[trigger] p[k] < g.n())
            && (v != start ==> last@[last@[v] as int] != -1 || last@[v] == start) by {
            lemma_pred_forest_reach(g, li, start as int, v);
            if v != start {
                assert(li[v] == last@[v] as int);
                assert(marked(li, start as int, li[v]));
            }
        }
        assert forall|v: int| 0 <= v < g.n() && last@[v] != -1 implies last@[v] == start || last@[last@[v] as int]
            != -1 by {
            lemma_pred_forest_reach(g, li, start as int, v);
            assert(li[v] == last@[v] as int);
            assert(marked(li, start as int, li[v]));
        }
        assert forall|v: int| 0 <= v < g.n() && (v == start || last@[v] != -1) implies exists|p: Seq<int>|
            pred_path(i64_ints(last@), start as int, p) && p.last() == v
            && forall|k: int| 0 <= k < p.len() ==> 0 <= #[trigger] p[k] < g.n() by {
            lemma_pred_forest_reach(g, li, start as int, v);
        }
        assert forall|v: int| 0 <= v < n && v != start && reachable(g, start as int, v) implies last@[v] != -1 by {
            let p = choose|p: Seq<int>| is_path(g, p) && p[0] == start as int && p.last() == v;
            assert(marked(li, start as int, start as int));
            assert(seen@[start as int]) by {
                assert(!to_explore@.contains(start));
            }
            lemma_closed_reach(g, seen@, p);
            assert(!to_explore@.contains(v as usize));
            assert(marked(li, start as int, v));
        }
    }
    last
}

/// The nodes that carry a label.
pub open spec fn labelled(c: Seq<isize>) -> Seq<bool> {
    c.map_values(|x: isize| x != -1)
}

/// Labels `ind`, and every node reachable from it through nodes with no label yet, with `curr_comp`.
pub fn dfs_recursive_connected_componentes(
    g: &GraphList,
    ind: usize,
    component: &mut Vec<isize>,
    curr_comp: isize,
)
    requires
        g.wf(),
        ind < g.n(),
        old(component)@.len() == g.n(),
        curr_comp >= 0,
    ensures
        final(component)@.len() == g.n(),
        final(component)@[ind as int] == curr_comp,
        forall|v: int| 0 <= v < g.n() && v != ind && old(component)@[v] != -1
            ==> #[trigger] final(component)@[v] == old(component)@[v],
        forall|v: int| 0 <= v < g.n() && v != ind && old(component)@[v] == -1 && #[trigger] final(component)@[v] != -1
            ==> final(component)@[v] == curr_comp && reachable(g, ind as int, v),
        forall|u: int, t: int| 0 <= u < g.n() && (u == ind || old(component)@[u] == -1)
            && final(component)@[u] != -1 && #[trigger] g.has(u, t) ==> final(component)@[t] != -1,
        forall|v: int| 0 <= v < g.n() ==> #[trigger] final(component)@[v] == (if v == ind || (old(component)@[v] == -1
            && reachable_avoiding(g, ind as int, v, labelled(old(component)@))) {
            curr_comp
        } else {
            old(component)@[v]
        }),
{
    let n = g.num_nodes();
    let mut seen: Vec<bool> = Vec::new();
    let mut i: usize = 0;
    while i < n
        invariant
            n == g.n(),
            component@.len() == n,
            i <= n,
            seen@.len() == i,
            forall|k: int| 0 <= k < i ==> seen@[k] == (component@[k] != -1),
        decreases n - i,
    {
        seen.push(component[i] != -1);
        i = i + 1;
    }
    let ghost s0 = seen@;
    dfs_recursive(g, ind, &mut seen);
    let ghost c0 = component@;
    let mut i: usize = 0;
    while i < n
        invariant
            g.wf(),
            n == g.n(),
            ind < n,
            curr_comp >= 0,
            c0.len() == n,
            seen@.len() == n,
            component@.len() == n,
            i <= n,
            forall|k: int| 0 <= k < n ==> s0[k] == (c0[k] != -1),
            forall|k: int| 0 <= k < i ==> #[trigger] component@[k] == (if k == ind || (seen@[k] && c0[k] == -1) {
                curr_comp
            } else {
                c0[k]
            }),
            forall|k: int| i <= k < n ==> #[trigger] component@[k] == c0[k],
        decreases n - i,
    {
        let ghost before = component@;
        assert(before[i as int] == c0[i as int]);
        if i == ind || (seen[i] && component[i] == -1) {
            component.set(i, curr_comp);
        }
        assert(forall|k: int| 0 <= k < n && k != i ==> component@[k] == before[k]);
        assert(component@[i as int] == (if i == ind || (seen@[i as int] && c0[i as int] == -1) {
            curr_comp
        } else {
            c0[i as int]
        }));
        i = i + 1;
    }
    proof {
        assert(s0 =~= labelled(c0));
        assert forall|v: int| 0 <= v < g.n() implies #[trigger] component@[v] == (if v == ind || (c0[v] == -1
            && reachable_avoiding(g, ind as int, v, labelled(c0))) {
            curr_comp
        } else {
            c0[v]
        }) by {
            assert(component@[v] == (if v == ind || (seen@[v] && c0[v] == -1) { curr_comp } else { c0[v] }));
            assert(seen@[v] <==> (s0[v] || v == ind || reachable_avoiding(g, ind as int, v, s0)));
        }
        assert(component@[ind as int] == curr_comp);
        assert forall|u: int, t: int| 0 <= u < g.n() && (u == ind || c0[u] == -1) && component@[u] != -1
            && #[trigger] g.has(u, t) implies component@[t] != -1 by {
            assert(component@[u] == (if u == ind || (seen@[u] && c0[u] == -1) { curr_comp } else { c0[u] }));
            assert(component@[t] == (if t == ind || (seen@[t] && c0[t] == -1) { curr_comp } else { c0[t] }));
            if u == ind {
                assert(seen@[t]);
            } else {
                assert(seen@[u] && !s0[u]);
                assert(seen@[t]);
            }
        }
    }
}

/// Each component is a set of labelled nodes together with its root: the smallest node
/// carrying its label, from which every node of the component is reachable.
pub open spec fn components_ok(g: &GraphList, comp: Seq<int>, roots: Seq<int>) -> bool {
    &&& comp.len() == g.n()
    &&& forall|c: int| 0 <= c < roots.len() ==> 0 <= #[trigger] roots[c] < g.n() && comp[roots[c]] == c
    &&& forall|c: int, d: int| 0 <= c < d < roots.len() ==> roots[c] < roots[d]
    &&& forall|v: int| 0 <= v < g.n() ==> 0 <= #[trigger] comp[v] < roots.len() && roots[comp[v]] <= v
        && reachable(g, roots[comp[v]], v)
    &&& forall|u: int, t: int| #[trigger] g.has(u, t) ==> comp[t] <= comp[u]
}

/// Labels every node with a component id; ids are given in ascending order of the
/// smallest node of each component, starting from 0.
pub fn dfs_connected_componentes(g: &GraphList) -> (r: Vec<isize>)
    requires
        g.wf(),
        g.n() <= isize::MAX,
    ensures
        r@.len() == g.n(),
        exists|roots: Seq<int>| components_ok(g, isize_ints(r@), roots),
{
    let n = g.num_nodes();
    let mut component: Vec<isize> = vec![-1; n];
    assert(forall|i: int| 0 <= i < n ==> component@[i] == -1);
    let mut curr_comp: isize = 0;
    let ghost mut roots: Seq<int> = Seq::empty();
    let mut ind: usize = 0;
    while ind < n
        invariant
            g.wf(),
            n == g.n(),
            n <= isize::MAX,
            ind <= n,
            component@.len() == n,
            0 <= curr_comp <= ind,
            roots.len() == curr_comp,
            forall|v: int| 0 <= v < ind ==> component@[v] != -1,
            forall|v: int| 0 <= v < n ==> component@[v] == -1 || 0 <= component@[v] < curr_comp,
            forall|c: int| 0 <= c < roots.len() ==> 0 <= #[trigger] roots[c] < ind && component@[roots[c]] == c,
            forall|c: int, d: int| 0 <= c < d < roots.len() ==> roots[c] < roots[d],
            forall|v: int| 0 <= v < n && component@[v] != -1 ==> roots[component@[v] as int] <= v
                && reachable(g, roots[component@[v] as int], v),
            forall|u: int, t: int| #[trigger] g.has(u, t) && component@[u] != -1 ==> component@[t] != -1
                && component@[t] <= component@[u],
        decreases n - ind,
    {
        if component[ind] == -1 {
            let ghost c0 = component@;
            dfs_recursive_connected_componentes(g, ind, &mut component, curr_comp);
            proof {
                roots = roots.push(ind as int);
                lemma_reach_self(g, ind as int);
                assert forall|v: int| 0 <= v < n && component@[v] != -1 implies roots[component@[v] as int] <= v
                    && reachable(g, roots[component@[v] as int], v) by {
                    if v == ind as int {
                    } else if c0[v] != -1 {
                        assert(component@[v] == c0[v]);
                        assert(roots[c0[v] as int] == roots.drop_last()[c0[v] as int]);
                    } else {
                        assert(v != ind && c0[v] == -1 && component@[v] != -1);
                        assert(component@[v] == curr_comp && reachable(g, ind as int, v));
                        assert(v >= ind);
                    }
                }
                assert forall|c: int| 0 <= c < roots.len() implies 0 <= #[trigger] roots[c] < ind + 1
                    && component@[roots[c]] == c by {
                    if c < roots.len() - 1 {
                        assert(roots[c] == roots.drop_last()[c]);
                        assert(c0[roots[c]] == c);
                    }
                }
                assert forall|u: int, t: int| #[trigger] g.has(u, t) && component@[u] != -1 implies component@[t] != -1
                    && component@[t] <= component@[u] by {
                    if u == ind as int || c0[u] == -1 {
                        assert(component@[t] != -1);
                        if u != ind as int {
                            assert(component@[u] == curr_comp);
                        }
                        if t == ind as int {
                        } else if c0[t] != -1 {
                            assert(component@[t] == c0[t]);
                        } else {
                            assert(component@[t] == curr_comp);
                        }
                    } else {
                        assert(u != ind as int);
                        assert(component@[u] == c0[u]);
                        assert(g.has(u, t) && c0[u] != -1);
                        assert(c0[t] != -1 && c0[t] <= c0[u]);
                        assert(t != ind as int);
                        assert(component@[t] == c0[t]);
                    }
                }
            }
            curr_comp = curr_comp + 1;
        }
        ind = ind + 1;
    }
    proof {
        let ci = isize_ints(component@);
        assert(components_ok(g, ci, roots));
    }
    component
}

/// In an undirected graph, two nodes share a component id exactly when one reaches the other.
pub proof fn lemma_components_undirected(g: &GraphList, comp: Seq<int>, roots: Seq<int>, u: int, v: int)
    requires
        g.wf(),
        g.undirected,
        components_ok(g, comp, roots),
        0 <= u < g.n(),
        0 <= v < g.n(),
    ensures
        comp[u] == comp[v] <==> reachable(g, u, v),
{
    if reachable(g, u, v) {
        let p = choose|p: Seq<int>| is_path(g, p) && p[0] == u && p.last() == v;
        lemma_label_along(g, comp, roots, p);
    }
    if comp[u] == comp[v] {
        let r = roots[comp[u]];
        lemma_reach_reverse(g, r, u);
        lemma_reach_trans(g, u, r, v);
    }
}

proof fn lemma_label_along(g: &GraphList, comp: Seq<int>, roots: Seq<int>, p: Seq<int>)
    requires
        g.wf(),
        g.undirected,
        components_ok(g, comp, roots),
        is_path(g, p),
    ensures
        comp[p[0]] == comp[p.last()],
    decreases p.len(),
{
    if p.len() > 1 {
        let q = p.drop_last();
        assert forall|k: int| 0 <= k < q.len() - 1 implies #[trigger] g.has(q[k], q[k + 1]) by {
            assert(g.has(p[k], p[k + 1]));
        }
        lemma_label_along(g, comp, roots, q);
        let k = p.len() - 2;
        assert(g.has(p[k], p[k + 1]));
        assert(g.has(p[k + 1], p[k]));
    }
}

/// In an undirected graph reachability is symmetric.
pub proof fn lemma_reach_reverse(g: &GraphList, s: int, t: int)
    requires
        g.wf(),
        g.undirected,
        reachable(g, s, t),
    ensures
        reachable(g, t, s),
{
    let p = choose|p: Seq<int>| is_path(g, p) && p[0] == s && p.last() == t;
    let q = p.reverse();
    assert forall|k: int| 0 <= k < q.len() - 1 implies #[trigger] g.has(q[k], q[k + 1]) by {
        let a = p.len() - 2 - k;
        assert(g.has(p[a], p[a + 1]));
        assert(q[k] == p[a + 1] && q[k + 1] == p[a]);
    }
    if p.len() > 1 {
        let k = p.len() - 2;
        assert(g.has(p[k], p[k + 1]));
    }
    assert(q[0] == p[p.len() - 1]);
    assert(q.last() == p[0]);
    assert(is_path(g, q) && q[0] == t && q.last() == s);
}

} // verus!
