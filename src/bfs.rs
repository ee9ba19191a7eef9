use vstd::prelude::*;
use crate::graph::{lemma_edge_map_at, GraphList};
use crate::paths::{
    closed, is_path, lemma_closed_reach, lemma_distinct_len, lemma_pred_forest_extend,
    lemma_pred_forest_init, lemma_pred_forest_reach, marked, pred_forest, pred_path, reachable,
};

verus! {

pub open spec fn isize_ints(s: Seq<isize>) -> Seq<int> {
    s.map_values(|x: isize| x as int)
}

/// Breadth-first search from `start`: the node that first discovered each reached node,
/// with -1 for `start` and for every node not reached.
pub fn bfs(g: &GraphList, start: usize) -> (r: Vec<isize>)
    requires
        g.wf(),
        start < g.n(),
        g.n() <= isize::MAX,
    ensures
        r@.len() == g.n(),
        r@[start as int] == -1,
        forall|v: int| 0 <= v < g.n() && r@[v] != -1 ==> v != start && g.has(r@[v] as int, v),
        forall|v: int| 0 <= v < g.n() && v != start ==> (r@[v] != -1 <==> reachable(g, start as int, v)),
        forall|v: int| 0 <= v < g.n() && r@[v] != -1 ==> r@[v] == start || r@[r@[v] as int] != -1,
        forall|v: int| 0 <= v < g.n() && (v == start || r@[v] != -1) ==> exists|p: Seq<int>|
            pred_path(isize_ints(r@), start as int, p) && p.last() == v
            && forall|k: int| 0 <= k < p.len() ==> 0 <= #[trigger] p[k] < g.n(),
{
    let n = g.num_nodes();
    let mut seen: Vec<bool> = vec![false; n];
    let mut last: Vec<isize> = vec![-1; n];
    assert(forall|i: int| 0 <= i < n ==> !seen@[i] && isize_ints(last@)[i] == -1);
    proof {
        lemma_pred_forest_init(isize_ints(last@), start as int, n as int);
    }
    let mut queue: Vec<usize> = Vec::new();
    queue.push(start);
    seen.set(start, true);
    proof {
        assert(queue@[0] == start);
        assert forall|v: int| 0 <= v < n implies (seen@[v] <==> queue@.contains(v as usize)) by {
            if queue@.contains(v as usize) {
                let k = choose|k: int| 0 <= k < queue@.len() && queue@[k] == v as usize;
            }
        }
    }
    let mut head: usize = 0;
    while head < queue.len()
        invariant
            g.wf(),
            n == g.n(),
            start < n,
            n <= isize::MAX,
            seen@.len() == n,
            last@.len() == n,
            head <= queue@.len(),
            queue@.no_duplicates(),
            forall|k: int| 0 <= k < queue@.len() ==> queue@[k] < n,
            forall|v: int| 0 <= v < n ==> (seen@[v] <==> queue@.contains(v as usize)),
            forall|v: int| 0 <= v < n ==> (seen@[v] <==> marked(isize_ints(last@), start as int, v)),
            last@[start as int] == -1,
            forall|v: int| 0 <= v < n && last@[v] != -1 ==> 0 <= last@[v] < n && g.has(last@[v] as int, v),
            pred_forest(isize_ints(last@), start as int, n as int),
            forall|k: int, t: int| 0 <= k < head && #[trigger] g.has(queue@[k] as int, t) ==> seen@[t],
        decreases n - head,
    {
        proof {
            lemma_distinct_len(queue@, n as int);
        }
        let next = queue[head];
        assert(g.nodes@[next as int].wf());
        let es = g.nodes[next].get_ordered_edge_list();
        let mut j: usize = 0;
        while j < es.len()
            invariant
                g.wf(),
                n == g.n(),
                start < n,
                n <= isize::MAX,
                seen@.len() == n,
                last@.len() == n,
                head < queue@.len(),
                next == queue@[head as int],
                es@ == g.nodes@[next as int].edges@,
                j <= es@.len(),
                queue@.no_duplicates(),
                forall|k: int| 0 <= k < queue@.len() ==> queue@[k] < n,
                forall|v: int| 0 <= v < n ==> (seen@[v] <==> queue@.contains(v as usize)),
                forall|v: int| 0 <= v < n ==> (seen@[v] <==> marked(isize_ints(last@), start as int, v)),
                last@[start as int] == -1,
                forall|v: int| 0 <= v < n && last@[v] != -1 ==> 0 <= last@[v] < n && g.has(last@[v] as int, v),
                pred_forest(isize_ints(last@), start as int, n as int),
                forall|k: int, t: int| 0 <= k < head && #[trigger] g.has(queue@[k] as int, t) ==> seen@[t],
                forall|k: int| 0 <= k < j ==> seen@[#[trigger] es@[k].to as int],
            decreases es@.len() - j,
        {
            let nb = es[j].to;
            proof {
                assert(g.nodes@[next as int].wf());
                lemma_edge_map_at(es@, j as int);
                assert(g.nodes@[next as int]@.contains_key(nb));
                assert(g.has(next as int, nb as int));
            }
            if !seen[nb] {
                let ghost old_last = last@;
                let ghost old_seen = seen@;
                let ghost old_queue = queue@;
                proof {
                    assert(queue@.contains(next));
                    assert(seen@[next as int]);
                    lemma_pred_forest_extend(isize_ints(last@), start as int, n as int, nb as int, next as int);
                }
                seen.set(nb, true);
                last.set(nb, next as isize);
                queue.push(nb);
                proof {
                    assert(isize_ints(last@) =~= isize_ints(old_last).update(nb as int, next as int));
                    assert(!old_queue.contains(nb));
                    assert forall|v: int| 0 <= v < n implies (seen@[v] <==> queue@.contains(v as usize)) by {
                        if v == nb {
                            assert(queue@[queue@.len() - 1] == nb);
                        } else if seen@[v] {
                            assert(old_queue.contains(v as usize));
                            let k = choose|k: int| 0 <= k < old_queue.len() && old_queue[k] == v as usize;
                            assert(queue@[k] == v as usize);
                        } else if queue@.contains(v as usize) {
                            let k = choose|k: int| 0 <= k < queue@.len() && queue@[k] == v as usize;
                            assert(old_queue[k] == v as usize);
                        }
                    }
                    assert forall|k: int, t: int| 0 <= k < head && #[trigger] g.has(queue@[k] as int, t)
                        implies seen@[t] by {
                        assert(queue@[k] == old_queue[k]);
                        assert(g.has(old_queue[k] as int, t));
                    }
                }
            }
            j = j + 1;
        }
        proof {
            assert forall|t: int| #[trigger] g.has(next as int, t) implies seen@[t] by {
                let node = g.nodes@[next as int];
                let c = choose|c: int| 0 <= c < node.edges@.len() && node.edges@[c].to == t as usize;
                assert(seen@[es@[c].to as int]);
            }
            assert forall|k: int, t: int| 0 <= k < head + 1 && #[trigger] g.has(queue@[k] as int, t)
                implies seen@[t] by {
                if k == head {
                    assert(g.has(next as int, t));
                }
            }
        }
        head = head + 1;
    }
    proof {
        let li = isize_ints(last@);
        assert(closed(g, seen@)) by {
            assert forall|u: int, t: int| 0 <= u < seen@.len() && seen@[u] && #[trigger] g.has(u, t)
                implies seen@[t] by {
                assert(queue@.contains(u as usize));
                let k = choose|k: int| 0 <= k < queue@.len() && queue@[k] == u as usize;
                assert(g.has(queue@[k] as int, t));
            }
        }
        assert forall|v: int| 0 <= v < n && (v == start || last@[v] != -1) implies reachable(g, start as int, v)
            && (exists|p: Seq<int>| pred_path(li, start as int, p) && p.last() == v
            && forall|k: int| 0 <= k < p.len() ==> 0 <= #[trigger] p[k] < g.n())
            && (v != start ==> last@[last@[v] as int] != -1 || last@[v] == start) by {
            lemma_pred_forest_reach(g, li, start as int, v);
            if v != start {
                assert(li[v] == last@[v] as int);
                assert(marked(li, start as int, li[v]));
            }
        }
        assert forall|v: int| 0 <= v < g.n() && last@[v] != -1 implies last@[v] == start || last@[last@[v] as int]
            != -1 by {
            lemma_pred_forest_reach(g, li, start as int, v);
            assert(li[v] == last@[v] as int);
            assert(marked(li, start as int, li[v]));
        }
        assert forall|v: int| 0 <= v < g.n() && (v == start || last@[v] != -1) implies exists|p: Seq<int>|
            pred_path(isize_ints(last@), start as int, p) && p.last() == v
            && forall|k: int| 0 <= k < p.len() ==> 0 <= #[trigger] p[k] < g.n() by {
            lemma_pred_forest_reach(g, li, start as int, v);
        }
        assert forall|v: int| 0 <= v < n && v != start && reachable(g, start as int, v) implies last@[v] != -1 by {
            let p = choose|p: Seq<int>| is_path(g, p) && p[0] == start as int && p.last() == v;
            lemma_closed_reach(g, seen@, p);
            assert(marked(li, start as int, v));
        }
    }
    last
}

} // verus!
