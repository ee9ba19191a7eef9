use vstd::prelude::*;
use crate::paths::lemma_distinct_len;

verus! {

/// A directed, weighted edge between two node indices.
#[derive(Clone, Copy, PartialEq, Eq, Structural, Debug)]
pub struct Edge {
    pub from: usize,
    pub to: usize,
    pub weight: i32,
}

impl Edge {
    pub fn new(from: usize, to: usize, weight: i32) -> (r: Edge)
        ensures
            r == (Edge { from, to, weight }),
    {
        Edge { from, to, weight }
    }
}

/// A node with its outgoing edges, kept sorted by strictly ascending neighbor index.
#[derive(Clone, Debug)]
pub struct Node {
    pub index: usize,
    pub edges: Vec<Edge>,
    pub label: Option<String>,
}

/// The outgoing edges of a node, keyed by neighbor index.
pub open spec fn edge_map(es: Seq<Edge>) -> Map<usize, Edge> {
    Map::new(
        |t: usize| exists|k: int| 0 <= k < es.len() && es[k].to == t,
        |t: usize| es[choose|k: int| 0 <= k < es.len() && es[k].to == t],
    )
}

pub open spec fn sorted_by_target(es: Seq<Edge>) -> bool {
    forall|i: int, j: int| 0 <= i < j < es.len() ==> es[i].to < es[j].to
}

impl View for Node {
    type V = Map<usize, Edge>;

    open spec fn view(&self) -> Map<usize, Edge> {
        edge_map(self.edges@)
    }
}

/// In a sorted edge list, the edge at position `k` is the one the map holds for its target.
pub proof fn lemma_edge_map_at(es: Seq<Edge>, k: int)
    requires
        sorted_by_target(es),
        0 <= k < es.len(),
    ensures
        edge_map(es).contains_key(es[k].to),
        edge_map(es)[es[k].to] == es[k],
{
    let t = es[k].to;
    assert(exists|j: int| 0 <= j < es.len() && es[j].to == t);
    let c = choose|j: int| 0 <= j < es.len() && es[j].to == t;
    if c < k {
        assert(es[c].to < es[k].to);
    } else if c > k {
        assert(es[k].to < es[c].to);
    }
}

impl Node {
    pub open spec fn wf(&self) -> bool {
        &&& sorted_by_target(self.edges@)
        &&& forall|k: int| 0 <= k < self.edges@.len() ==> (#[trigger] self.edges@[k]).from == self.index
    }

    pub fn new(index: usize, label: Option<String>) -> (r: Node)
        ensures
            r.wf(),
            r.index == index,
            r.label == label,
            r.edges@.len() == 0,
            r@ == Map::<usize, Edge>::empty(),
    {
        let r = Node { index, edges: Vec::new(), label };
        assert(r@ =~= Map::<usize, Edge>::empty());
        r
    }

    pub fn num_edges(&self) -> (r: usize)
        ensures
            r == self.edges@.len(),
    {
        self.edges.len()
    }

    /// Position of the first edge whose target is not below `t`, and whether its target is `t`.
    fn find_pos(&self, t: usize) -> (r: (usize, bool))
        requires
            self.wf(),
        ensures
            r.0 <= self.edges@.len(),
            forall|k: int| 0 <= k < r.0 ==> self.edges@[k].to < t,
            r.1 ==> r.0 < self.edges@.len() && self.edges@[r.0 as int].to == t,
            !r.1 ==> forall|k: int| r.0 <= k < self.edges@.len() ==> self.edges@[k].to > t,
    {
        let mut i: usize = 0;
        while i < self.edges.len() && self.edges[i].to < t
            invariant
                i <= self.edges@.len(),
                forall|k: int| 0 <= k < i ==> self.edges@[k].to < t,
            decreases self.edges@.len() - i,
        {
            i = i + 1;
        }
        let found = i < self.edges.len() && self.edges[i].to == t;
        proof {
            if !found && i < self.edges@.len() {
                assert forall|k: int| i <= k < self.edges@.len() implies self.edges@[k].to > t by {
                    if k > i {
                        assert(self.edges@[i as int].to < self.edges@[k].to);
                    }
                }
            }
        }
        (i, found)
    }

    pub fn get_edge(&self, index: usize) -> (r: Option<Edge>)
        requires
            self.wf(),
        ensures
            r == (if self@.contains_key(index) { Some(self@[index]) } else { None::<Edge> }),
    {
        let (pos, found) = self.find_pos(index);
        if found {
            proof {
                lemma_edge_map_at(self.edges@, pos as int);
            }
            Some(self.edges[pos])
        } else {
            proof {
                if self@.contains_key(index) {
                    let c = choose|j: int| 0 <= j < self.edges@.len() && self.edges@[j].to == index;
                }
            }
            None
        }
    }

    pub fn add_edge(&mut self, neighbor: usize, weight: i32)
        requires
            old(self).wf(),
        ensures
            final(self).wf(),
            final(self).index == old(self).index,
            final(self).label == old(self).label,
            final(self)@ == old(self)@.insert(neighbor, Edge { from: old(self).index, to: neighbor, weight }),
    {
        let e = Edge::new(self.index, neighbor, weight);
        let (pos, found) = self.find_pos(neighbor);
        let ghost es = self.edges@;
        if found {
            self.edges.set(pos, e);
        } else {
            self.edges.insert(pos, e);
        }
        proof {
            let ns = self.edges@;
            assert(sorted_by_target(ns)) by {
                assert forall|i: int, j: int| 0 <= i < j < ns.len() implies ns[i].to < ns[j].to by {
                    if !found {
                        if i < pos && j > pos {
                            assert(ns[j] == es[j - 1]);
                        } else if i > pos {
                            assert(ns[i] == es[i - 1] && ns[j] == es[j - 1]);
                        }
                    }
                }
            }
            let m = old(self)@.insert(neighbor, e);
            assert forall|t: usize| #[trigger] m.contains_key(t) implies self@.contains_key(t) && self@[t] == m[t] by {
                if t == neighbor {
                    lemma_edge_map_at(ns, pos as int);
                } else {
                    let c = choose|j: int| 0 <= j < es.len() && es[j].to == t;
                    lemma_edge_map_at(es, c);
                    if found || c < pos {
                        lemma_edge_map_at(ns, c);
                    } else {
                        assert(ns[c + 1] == es[c]);
                        lemma_edge_map_at(ns, c + 1);
                    }
                }
            }
            assert forall|t: usize| #[trigger] self@.contains_key(t) implies m.contains_key(t) by {
                let c = choose|j: int| 0 <= j < ns.len() && ns[j].to == t;
                if t != neighbor {
                    if found || c < pos {
                        assert(es[c].to == t);
                    } else {
                        assert(es[c - 1].to == t);
                    }
                }
            }
            assert(self@ =~= m);
        }
    }

    pub fn remove_edge(&mut self, neighbor: usize)
        requires
            old(self).wf(),
        ensures
            final(self).wf(),
            final(self).index == old(self).index,
            final(self).label == old(self).label,
            final(self)@ == old(self)@.remove(neighbor),
    {
        let (pos, found) = self.find_pos(neighbor);
        let ghost es = self.edges@;
        if found {
            self.edges.remove(pos);
            proof {
                let ns = self.edges@;
                assert(sorted_by_target(ns)) by {
                    assert forall|i: int, j: int| 0 <= i < j < ns.len() implies ns[i].to < ns[j].to by {
                        if i < pos && j >= pos {
                            assert(ns[j] == es[j + 1]);
                        } else if i >= pos {
                            assert(ns[i] == es[i + 1] && ns[j] == es[j + 1]);
                        }
                    }
                }
                let m = old(self)@.remove(neighbor);
                assert forall|t: usize| #[trigger] m.contains_key(t) implies self@.contains_key(t) && self@[t] == m[t] by {
                    let c = choose|j: int| 0 <= j < es.len() && es[j].to == t;
                    lemma_edge_map_at(es, c);
                    if c < pos {
                        lemma_edge_map_at(ns, c);
                    } else {
                        assert(c != pos);
                        assert(ns[c - 1] == es[c]);
                        lemma_edge_map_at(ns, c - 1);
                    }
                }
                assert forall|t: usize| #[trigger] self@.contains_key(t) implies m.contains_key(t) by {
                    let c = choose|j: int| 0 <= j < ns.len() && ns[j].to == t;
                    if c < pos {
                        assert(es[c].to == t);
                    } else {
                        assert(es[c + 1].to == t);
                    }
                }
                assert(self@ =~= m);
            }
        } else {
            proof {
                if self@.contains_key(neighbor) {
                    let c = choose|j: int| 0 <= j < es.len() && es[j].to == neighbor;
                }
                assert(self@ =~= old(self)@.remove(neighbor));
            }
        }
    }

    /// The outgoing edges, in a stable order.
    pub fn get_edge_list(&self) -> (r: Vec<Edge>)
        requires
            self.wf(),
        ensures
            r@ == self.edges@,
    {
        self.edges.clone()
    }

    /// The outgoing edges in ascending order of neighbor index.
    pub fn get_ordered_edge_list(&self) -> (r: Vec<Edge>)
        requires
            self.wf(),
        ensures
            r@ == self.edges@,
            sorted_by_target(r@),
    {
        let mut r: Vec<Edge> = Vec::new();
        let mut i: usize = 0;
        while i < self.edges.len()
            invariant
                i <= self.edges@.len(),
                r@ == self.edges@.subrange(0, i as int),
            decreases self.edges@.len() - i,
        {
            r.push(self.edges[i]);
            i = i + 1;
        }
        assert(r@ =~= self.edges@);
        r
    }
}

/// Each key of a node's map names the edge that leaves the node for that key.
pub proof fn lemma_node_map_value(node: &Node, t: usize)
    requires
        node.wf(),
        node@.contains_key(t),
    ensures
        node@[t].to == t,
        node@[t].from == node.index,
{
    let c = choose|j: int| 0 <= j < node.edges@.len() && node.edges@[j].to == t;
    assert(node.edges@[c].from == node.index);
}

/// An index outside `[0, node_count)` given to an edge query or mutation.
#[derive(Clone, Copy, PartialEq, Eq, Structural, Debug)]
pub struct IndexError {
    pub from: usize,
    pub to: usize,
}

/// An adjacency-list graph; when `undirected` holds, every edge is mirrored.
#[derive(Clone, Debug)]
pub struct GraphList {
    pub undirected: bool,
    pub nodes: Vec<Node>,
}

/// The adjacency maps after inserting `from -> to` (and its mirror when undirected).
pub open spec fn inserted(
    a: Seq<Map<usize, Edge>>,
    undirected: bool,
    from: usize,
    to: usize,
    weight: i32,
) -> Seq<Map<usize, Edge>> {
    let a1 = a.update(from as int, a[from as int].insert(to, Edge { from, to, weight }));
    if undirected {
        a1.update(to as int, a1[to as int].insert(from, Edge { from: to, to: from, weight }))
    } else {
        a1
    }
}

/// The adjacency maps after removing `from -> to` (and its mirror when undirected).
pub open spec fn removed(
    a: Seq<Map<usize, Edge>>,
    undirected: bool,
    from: usize,
    to: usize,
) -> Seq<Map<usize, Edge>> {
    let a1 = a.update(from as int, a[from as int].remove(to));
    if undirected {
        a1.update(to as int, a1[to as int].remove(from))
    } else {
        a1
    }
}

impl GraphList {
    pub open spec fn n(&self) -> int {
        self.nodes@.len() as int
    }

    /// The outgoing-edge map of every node, by node index.
    pub open spec fn adj(&self) -> Seq<Map<usize, Edge>> {
        self.nodes@.map_values(|node: Node| node@)
    }

    pub open spec fn has(&self, u: int, v: int) -> bool {
        0 <= u < self.n() && 0 <= v < self.n() && self.nodes@[u]@.contains_key(v as usize)
    }

    pub open spec fn w(&self, u: int, v: int) -> int {
        self.nodes@[u]@[v as usize].weight as int
    }

    pub open spec fn wf(&self) -> bool {
        &&& forall|i: int| 0 <= i < self.n() ==> (#[trigger] self.nodes@[i]).wf() && self.nodes@[i].index == i
        &&& forall|i: int, t: usize|
            0 <= i < self.n() && (#[trigger] self.nodes@[i]@.contains_key(t)) ==> t < self.n()
        &&& self.undirected ==> forall|u: int, v: int|
            #[trigger] self.has(u, v) ==> self.has(v, u) && self.w(u, v) == self.w(v, u)
    }

    pub fn num_nodes(&self) -> (r: usize)
        ensures
            r == self.n(),
    {
        self.nodes.len()
    }

    fn valid_indices(&self, from: usize, to: usize) -> (r: bool)
        ensures
            r == (from < self.n() && to < self.n()),
    {
        from < self.nodes.len() && to < self.nodes.len()
    }

    pub fn get_edge(&self, from: usize, to: usize) -> (r: Result<Option<Edge>, IndexError>)
        requires
            self.wf(),
        ensures
            !(from < self.n() && to < self.n()) ==> r == Err::<Option<Edge>, IndexError>(IndexError { from, to }),
            from < self.n() && to < self.n() ==> r == Ok::<Option<Edge>, IndexError>(
                if self.has(from as int, to as int) {
                    Some(self.nodes@[from as int]@[to])
                } else {
                    None
                },
            ),
    {
        if !self.valid_indices(from, to) {
            Err(IndexError { from, to })
        } else {
            Ok(self.nodes[from].get_edge(to))
        }
    }

    pub fn is_edge(&self, from: usize, to: usize) -> (r: bool)
        requires
            self.wf(),
        ensures
            r == self.has(from as int, to as int),
    {
        match self.get_edge(from, to) {
            Ok(Some(_)) => true,
            _ => false,
        }
    }

    pub fn insert_edge(&mut self, from: usize, to: usize, weight: i32) -> (r: Result<(), IndexError>)
        requires
            old(self).wf(),
        ensures
            final(self).wf(),
            final(self).undirected == old(self).undirected,
            final(self).n() == old(self).n(),
            !(from < old(self).n() && to < old(self).n()) ==> r == Err::<(), IndexError>(IndexError { from, to })
                && final(self).adj() == old(self).adj(),
            from < old(self).n() && to < old(self).n() ==> r is Ok
                && final(self).adj() == inserted(old(self).adj(), old(self).undirected, from, to, weight),
            r is Err ==> *final(self) == *old(self),
            forall|i: int| 0 <= i < old(self).n() ==> (#[trigger] final(self).nodes@[i]).label == old(self).nodes@[i].label
                && final(self).nodes@[i].index == old(self).nodes@[i].index,
    {
        if !self.valid_indices(from, to) {
            return Err(IndexError { from, to });
        }
        let ghost a = self.adj();
        self.nodes[from].add_edge(to, weight);
        if self.undirected {
            self.nodes[to].add_edge(from, weight);
        }
        proof {
            let b = inserted(a, self.undirected, from, to, weight);
            assert forall|i: int| 0 <= i < self.n() implies (#[trigger] self.nodes@[i]).label == old(self).nodes@[i].label
                && self.nodes@[i].index == old(self).nodes@[i].index by {}
            assert(self.adj() =~= b);
            assert forall|i: int| 0 <= i < self.n() implies (#[trigger] self.nodes@[i]).wf()
                && self.nodes@[i].index == i by {
                assert(old(self).nodes@[i].wf());
            }
            assert forall|i: int, t: usize|
                0 <= i < self.n() && (#[trigger] self.nodes@[i]@.contains_key(t)) implies t < self.n() by {
                assert(self.adj()[i] == self.nodes@[i]@);
                assert(old(self).adj()[i] == old(self).nodes@[i]@);
                if old(self).nodes@[i]@.contains_key(t) {
                }
            }
            if self.undirected {
                assert forall|u: int, v: int| #[trigger] self.has(u, v) implies self.has(v, u)
                    && self.w(u, v) == self.w(v, u) by {
                    assert(self.adj()[u] == self.nodes@[u]@);
                    assert(self.adj()[v] == self.nodes@[v]@);
                    assert(old(self).adj()[u] == old(self).nodes@[u]@);
                    assert(old(self).adj()[v] == old(self).nodes@[v]@);
                    if (u == from && v == to) || (u == to && v == from) {
                    } else {
                        assert(old(self).has(u, v));
                    }
                }
            }
        }
        Ok(())
    }

    pub fn remove_edge(&mut self, from: usize, to: usize) -> (r: Result<(), IndexError>)
        requires
            old(self).wf(),
        ensures
            final(self).wf(),
            final(self).undirected == old(self).undirected,
            final(self).n() == old(self).n(),
            !(from < old(self).n() && to < old(self).n()) ==> r == Err::<(), IndexError>(IndexError { from, to })
                && final(self).adj() == old(self).adj(),
            from < old(self).n() && to < old(self).n() ==> r is Ok
                && final(self).adj() == removed(old(self).adj(), old(self).undirected, from, to),
            r is Err ==> *final(self) == *old(self),
            forall|i: int| 0 <= i < old(self).n() ==> (#[trigger] final(self).nodes@[i]).label == old(self).nodes@[i].label
                && final(self).nodes@[i].index == old(self).nodes@[i].index,
    {
        if !self.valid_indices(from, to) {
            return Err(IndexError { from, to });
        }
        let ghost a = self.adj();
        self.nodes[from].remove_edge(to);
        if self.undirected {
            self.nodes[to].remove_edge(from);
        }
        proof {
            let b = removed(a, self.undirected, from, to);
            assert forall|i: int| 0 <= i < self.n() implies (#[trigger] self.nodes@[i]).label == old(self).nodes@[i].label
                && self.nodes@[i].index == old(self).nodes@[i].index by {}
            assert(self.adj() =~= b);
            assert forall|i: int| 0 <= i < self.n() implies (#[trigger] self.nodes@[i]).wf()
                && self.nodes@[i].index == i by {
                assert(old(self).nodes@[i].wf());
            }
            assert forall|i: int, t: usize|
                0 <= i < self.n() && (#[trigger] self.nodes@[i]@.contains_key(t)) implies t < self.n() by {
                assert(self.adj()[i] == self.nodes@[i]@);
                assert(old(self).adj()[i] == old(self).nodes@[i]@);
            }
            if self.undirected {
                assert forall|u: int, v: int| #[trigger] self.has(u, v) implies self.has(v, u)
                    && self.w(u, v) == self.w(v, u) by {
                    assert(self.adj()[u] == self.nodes@[u]@);
                    assert(self.adj()[v] == self.nodes@[v]@);
                    assert(old(self).adj()[u] == old(self).nodes@[u]@);
                    assert(old(self).adj()[v] == old(self).nodes@[v]@);
                    assert(old(self).has(u, v));
                }
            }
        }
        Ok(())
    }

    /// Every edge of the graph, node by node, each node's edges by ascending neighbor.
    pub fn make_edge_list(&self) -> (r: Vec<Edge>)
        requires
            self.wf(),
        ensures
            forall|k: int| 0 <= k < r@.len() ==> self.has((#[trigger] r@[k]).from as int, r@[k].to as int)
                && self.nodes@[r@[k].from as int]@[r@[k].to] == r@[k],
            forall|u: int, v: int| #[trigger] self.has(u, v) ==> exists|k: int|
                0 <= k < r@.len() && r@[k].from == u && r@[k].to == v,
            r@.len() <= self.n() * self.n(),
            forall|a: int, b: int| 0 <= a < b < r@.len() ==> (#[trigger] r@[a]).from < (#[trigger] r@[b]).from || (
            r@[a].from == r@[b].from && r@[a].to < r@[b].to),
    {
        let mut r: Vec<Edge> = Vec::new();
        let mut i: usize = 0;
        while i < self.nodes.len()
            invariant
                self.wf(),
                i <= self.n(),
                forall|k: int| 0 <= k < r@.len() ==> self.has((#[trigger] r@[k]).from as int, r@[k].to as int)
                    && self.nodes@[r@[k].from as int]@[r@[k].to] == r@[k],
                forall|u: int, v: int| #[trigger] self.has(u, v) && u < i ==> exists|k: int|
                    0 <= k < r@.len() && r@[k].from == u && r@[k].to == v,
                r@.len() <= i * self.n(),
                forall|k: int| 0 <= k < r@.len() ==> (#[trigger] r@[k]).from < i,
                forall|a: int, b: int| 0 <= a < b < r@.len() ==> (#[trigger] r@[a]).from < (#[trigger] r@[b]).from || (
                r@[a].from == r@[b].from && r@[a].to < r@[b].to),
            decreases self.n() - i,
        {
            let es = self.nodes[i].get_ordered_edge_list();
            proof {
                assert(self.nodes@[i as int].wf());
                let ts = es@.map_values(|e: Edge| e.to);
                assert forall|k: int| 0 <= k < ts.len() implies ts[k] < self.n() by {
                    lemma_edge_map_at(es@, k);
                    assert(self.nodes@[i as int]@.contains_key(es@[k].to));
                }
                assert(ts.no_duplicates()) by {
                    assert forall|a: int, b: int| 0 <= a < ts.len() && 0 <= b < ts.len() && a != b implies ts[a] != ts[b] by {
                        if a < b {
                            assert(es@[a].to < es@[b].to);
                        } else {
                            assert(es@[b].to < es@[a].to);
                        }
                    }
                }
                lemma_distinct_len(ts, self.n());
                assert((i + 1) * self.n() == i * self.n() + self.n()) by (nonlinear_arith);
            }
            let mut j: usize = 0;
            let ghost base = r@.len();
            assert(self.nodes@[i as int].wf());
            while j < es.len()
                invariant
                    self.wf(),
                    i < self.n(),
                    es@ == self.nodes@[i as int].edges@,
                    j <= es@.len(),
                    r@.len() == base + j,
                    base <= i * self.n(),
                    es@.len() <= self.n(),
                    (i + 1) * self.n() == i * self.n() + self.n(),
                    forall|k: int| 0 <= k < base ==> (#[trigger] r@[k]).from < i,
                    forall|k: int| base <= k < r@.len() ==> (#[trigger] r@[k]).from == i,
                    sorted_by_target(es@),
                    forall|a: int, b: int| 0 <= a < b < r@.len() ==> (#[trigger] r@[a]).from < (#[trigger] r@[b]).from || (
                    r@[a].from == r@[b].from && r@[a].to < r@[b].to),
                    forall|k: int| 0 <= k < j ==> r@[base + k] == es@[k],
                    forall|k: int| 0 <= k < r@.len() ==> self.has((#[trigger] r@[k]).from as int, r@[k].to as int)
                        && self.nodes@[r@[k].from as int]@[r@[k].to] == r@[k],
                    forall|u: int, v: int| #[trigger] self.has(u, v) && u < i ==> exists|k: int|
                        0 <= k < r@.len() && r@[k].from == u && r@[k].to == v,
                decreases es@.len() - j,
            {
                let e = es[j];
                proof {
                    assert(self.nodes@[i as int].wf());
                    lemma_edge_map_at(es@, j as int);
                    assert(self.nodes@[i as int]@.contains_key(e.to));
                    assert(e.from == i);
                }
                let ghost prev = r@;
                r.push(e);
                proof {
                    assert forall|a: int, b: int| 0 <= a < b < r@.len() implies (#[trigger] r@[a]).from < (
                    #[trigger] r@[b]).from || (r@[a].from == r@[b].from && r@[a].to < r@[b].to) by {
                        if b == r@.len() - 1 && a >= base {
                            let ka = a - base;
                            assert(r@[a] == es@[ka]);
                            assert(es@[ka].to < es@[j as int].to);
                        } else if b < r@.len() - 1 {
                            assert(r@[a] == prev[a] && r@[b] == prev[b]);
                        }
                    }
                    assert forall|u: int, v: int| #[trigger] self.has(u, v) && u < i implies exists|k: int|
                        0 <= k < r@.len() && r@[k].from == u && r@[k].to == v by {
                        let k0 = choose|k: int| 0 <= k < prev.len() && prev[k].from == u && prev[k].to == v;
                        assert(r@[k0] == prev[k0]);
                    }
                }
                j = j + 1;
            }
            proof {
                assert forall|u: int, v: int| #[trigger] self.has(u, v) && u < i + 1 implies exists|k: int|
                    0 <= k < r@.len() && r@[k].from == u && r@[k].to == v by {
                    if u == i {
                        let node = self.nodes@[i as int];
                        let c = choose|c: int| 0 <= c < node.edges@.len() && node.edges@[c].to == v as usize;
                        assert(r@[base + c] == es@[c]);
                        assert(node.edges@[c].from == node.index);
                    }
                }
            }
            i = i + 1;
        }
        r
    }

    /// Appends a node whose index is the prior node count.
    pub fn insert_node(&mut self, label: Option<String>) -> (r: &Node)
        requires
            old(self).wf(),
        ensures
            final(self).wf(),
            final(self).undirected == old(self).undirected,
            final(self).n() == old(self).n() + 1,
            final(self).adj() == old(self).adj().push(Map::<usize, Edge>::empty()),
            r.index == old(self).n(),
            r.label == label,
            forall|i: int| 0 <= i < old(self).n() ==> #[trigger] final(self).nodes@[i] == old(self).nodes@[i],
            r@ == Map::<usize, Edge>::empty(),
    {
        let node = Node::new(self.nodes.len(), label);
        self.nodes.push(node);
        proof {
            assert(self.adj() =~= old(self).adj().push(Map::<usize, Edge>::empty()));
            assert forall|i: int, t: usize|
                0 <= i < self.n() && (#[trigger] self.nodes@[i]@.contains_key(t)) implies t < self.n() by {
                if i < old(self).n() {
                    assert(self.nodes@[i] == old(self).nodes@[i]);
                }
            }
            if self.undirected {
                assert forall|u: int, v: int| #[trigger] self.has(u, v) implies self.has(v, u)
                    && self.w(u, v) == self.w(v, u) by {
                    if u < old(self).n() {
                        assert(self.nodes@[u] == old(self).nodes@[u]);
                        assert(old(self).has(u, v));
                        assert(self.nodes@[v] == old(self).nodes@[v]);
                    }
                }
            }
        }
        let last = self.nodes.len() - 1;
        &self.nodes[last]
    }
}

} // verus!
