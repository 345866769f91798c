use vstd::prelude::*;

verus! {

/// A directed edge: source, destination and optional weight.
pub type Edge = (i64, i64, Option<u64>);

/// Order on optional weights: an absent weight sorts before every present one.
pub open spec fn weight_lt(a: Option<u64>, b: Option<u64>) -> bool {
    match (a, b) {
        (None, Some(_)) => true,
        (Some(x), Some(y)) => x < y,
        _ => false,
    }
}

/// Lexicographic order on edges: by source, then destination, then weight.
pub open spec fn edge_lt(a: Edge, b: Edge) -> bool {
    a.0 < b.0 || (a.0 == b.0 && (a.1 < b.1 || (a.1 == b.1 && weight_lt(a.2, b.2))))
}

pub open spec fn nodes_sorted(s: Seq<i64>) -> bool {
    forall|i: int, j: int| 0 <= i < j < s.len() ==> s[i] < s[j]
}

pub open spec fn edges_sorted(s: Seq<Edge>) -> bool {
    forall|i: int, j: int| 0 <= i < j < s.len() ==> edge_lt(s[i], s[j])
}

/// Edges that leave `v`.
pub open spec fn leaves(v: i64) -> spec_fn(Edge) -> bool {
    |e: Edge| e.0 == v
}

/// Edges that enter `v`.
pub open spec fn enters(v: i64) -> spec_fn(Edge) -> bool {
    |e: Edge| e.1 == v
}

/// Edges that have `v` as source or destination.
pub open spec fn touches(v: i64) -> spec_fn(Edge) -> bool {
    |e: Edge| e.0 == v || e.1 == v
}

/// Edges that have `v` neither as source nor as destination.
pub open spec fn avoids(v: i64) -> spec_fn(Edge) -> bool {
    |e: Edge| e.0 != v && e.1 != v
}

/// The mathematical model of a graph: its nodes and its edges, each kept as a
/// strictly increasing sequence (a finite set in canonical order).
pub struct GraphModel {
    pub nodes: Seq<i64>,
    pub edges: Seq<Edge>,
}

impl GraphModel {
    /// Nodes and edges are sorted without repetition, and every edge joins two nodes.
    pub open spec fn wf(self) -> bool {
        &&& nodes_sorted(self.nodes)
        &&& edges_sorted(self.edges)
        &&& forall|k: int|
            0 <= k < self.edges.len() ==> self.nodes.contains(#[trigger] self.edges[k].0)
                && self.nodes.contains(self.edges[k].1)
    }

    pub open spec fn node_set(self) -> Set<i64> {
        self.nodes.to_set()
    }

    pub open spec fn edge_set(self) -> Set<Edge> {
        self.edges.to_set()
    }

    /// Some edge, of any weight, leads from `a` to `b`.
    pub open spec fn connected(self, a: i64, b: i64) -> bool {
        exists|w: Option<u64>| self.edges.contains((a, b, w))
    }

    /// The outgoing edges of `v`, in edge order.
    pub open spec fn out_edges(self, v: i64) -> Seq<Edge> {
        self.edges.filter(leaves(v))
    }

    /// The incoming edges of `v`, in edge order.
    pub open spec fn in_edges(self, v: i64) -> Seq<Edge> {
        self.edges.filter(enters(v))
    }

    /// The edges that have `v` as source or destination.
    pub open spec fn touching(self, v: i64) -> Seq<Edge> {
        self.edges.filter(touches(v))
    }

    /// `p` is a walk: a non-empty sequence of nodes, each joined to the next by an edge.
    pub open spec fn is_walk(self, p: Seq<i64>) -> bool {
        &&& p.len() >= 1
        &&& self.nodes.contains(p[0])
        &&& forall|i: int| 0 <= i < p.len() - 1 ==> #[trigger] self.connected(p[i], p[i + 1])
    }

    pub open spec fn reachable(self, s: i64, t: i64) -> bool {
        exists|p: Seq<i64>| self.is_walk(p) && p[0] == s && p.last() == t
    }

    /// The set of nodes reachable from `s` (including `s` itself when it is a node).
    pub open spec fn reachable_from(self, s: i64) -> Set<i64> {
        Set::new(|t: i64| self.reachable(s, t))
    }

    /// Some walk of at least one edge leads from `c` back to `c`.
    pub open spec fn on_cycle(self, c: i64) -> bool {
        exists|p: Seq<i64>| self.is_walk(p) && p.len() >= 2 && p[0] == c && p.last() == c
    }

    /// Some walk of at least one edge returns to where it started.
    pub open spec fn has_cycle(self) -> bool {
        exists|p: Seq<i64>| self.is_walk(p) && p.len() >= 2 && p[0] == p.last()
    }

    /// What `add_node(v)` returning `r` does: `v` becomes a node, edges stay,
    /// and `r` says whether it was new.
    pub open spec fn add_node_post(self, v: i64, r: bool, after: GraphModel) -> bool {
        &&& after.wf()
        &&& r == !self.nodes.contains(v)
        &&& forall|x: i64| #[trigger] after.nodes.contains(x) <==> self.nodes.contains(x) || x == v
        &&& after.edges == self.edges
        &&& r ==> after.nodes.len() == self.nodes.len() + 1
        &&& !r ==> after == self
    }

    /// What `add_edge(src, dst, w)` returning `r` does: the edge is added when
    /// both endpoints are nodes and it is not already there.
    pub open spec fn add_edge_post(self, src: i64, dst: i64, w: Option<u64>, r: bool, after: GraphModel) -> bool {
        &&& after.wf()
        &&& r == (self.nodes.contains(src) && self.nodes.contains(dst) && !self.edges.contains(
            (src, dst, w),
        ))
        &&& after.nodes == self.nodes
        &&& r ==> forall|e: Edge|
            #[trigger] after.edges.contains(e) <==> self.edges.contains(e) || e == (src, dst, w)
        &&& r ==> after.edges.len() == self.edges.len() + 1
        &&& !r ==> after == self
    }

    /// What `remove_edge(src, dst, w)` returning `r` does: the edge is gone,
    /// and `r` says whether it was there.
    pub open spec fn remove_edge_post(self, src: i64, dst: i64, w: Option<u64>, r: bool, after: GraphModel) -> bool {
        &&& after.wf()
        &&& r == self.edges.contains((src, dst, w))
        &&& after.nodes == self.nodes
        &&& forall|e: Edge|
            #[trigger] after.edges.contains(e) <==> self.edges.contains(e) && e != (src, dst, w)
        &&& r ==> after.edges.len() == self.edges.len() - 1
        &&& !r ==> after == self
    }

    /// What `remove_node(v)` returning `r` does: `v` and every edge at it are
    /// gone, and `r` says whether it was a node.
    pub open spec fn remove_node_post(self, v: i64, r: bool, after: GraphModel) -> bool {
        &&& after.wf()
        &&& r == self.nodes.contains(v)
        &&& forall|x: i64| #[trigger] after.nodes.contains(x) <==> self.nodes.contains(x) && x != v
        &&& after.edges == self.edges.filter(avoids(v))
        &&& r ==> after.nodes.len() == self.nodes.len() - 1
        &&& !r ==> after == self
    }

    /// What `add_undirected_edge(a, b, w)` returning `r` does: both directed
    /// edges are added when `a != b`, both are nodes and neither edge exists.
    pub open spec fn add_undirected_edge_post(self, a: i64, b: i64, w: Option<u64>, r: bool, after: GraphModel) -> bool {
        &&& after.wf()
        &&& r == (a != b && self.nodes.contains(a) && self.nodes.contains(b) && !self.edges.contains(
            (a, b, w),
        ) && !self.edges.contains((b, a, w)))
        &&& after.nodes == self.nodes
        &&& r ==> forall|e: Edge|
            #[trigger] after.edges.contains(e) <==> self.edges.contains(e) || e == (a, b, w) || e
                == (b, a, w)
        &&& r ==> after.edges.len() == self.edges.len() + 2
        &&& !r ==> after == self
    }
}

/// The error of operations that need a registered node.
#[derive(Debug, Clone, Copy, PartialEq, Eq, Structural)]
pub enum GraphError {
    NodeNotFound(i64),
}

/// A directed weighted multigraph over `i64` nodes with optional `u64` weights.
///
/// Nodes are kept in a strictly increasing vector; edges in a single edge table,
/// strictly increasing by (source, destination, weight), so the outgoing edges of
/// a node form one contiguous run in (destination, weight) order.
#[derive(Debug)]
pub struct Graph {
    pub(crate) nodes: Vec<i64>,
    pub(crate) edges: Vec<Edge>,
}

impl View for Graph {
    type V = GraphModel;

    open(crate) spec fn view(&self) -> GraphModel {
        GraphModel { nodes: self.nodes@, edges: self.edges@ }
    }
}

pub(crate) fn weight_less(a: Option<u64>, b: Option<u64>) -> (r: bool)
    ensures
        r == weight_lt(a, b),
{
    match (a, b) {
        (None, Some(_)) => true,
        (Some(x), Some(y)) => x < y,
        _ => false,
    }
}

pub(crate) fn edge_less(a: Edge, b: Edge) -> (r: bool)
    ensures
        r == edge_lt(a, b),
{
    a.0 < b.0 || (a.0 == b.0 && (a.1 < b.1 || (a.1 == b.1 && weight_less(a.2, b.2))))
}

pub(crate) fn weight_equal(a: Option<u64>, b: Option<u64>) -> (r: bool)
    ensures
        r == (a == b),
{
    match (a, b) {
        (None, None) => true,
        (Some(x), Some(y)) => x == y,
        _ => false,
    }
}

pub(crate) fn edge_equal(a: Edge, b: Edge) -> (r: bool)
    ensures
        r == (a == b),
{
    a.0 == b.0 && a.1 == b.1 && weight_equal(a.2, b.2)
}

pub proof fn lemma_edge_lt_trichotomy(a: Edge, b: Edge)
    ensures
        edge_lt(a, b) || edge_lt(b, a) || a == b,
        !(edge_lt(a, b) && edge_lt(b, a)),
        !edge_lt(a, a),
{
}

pub proof fn lemma_edge_lt_transitive(a: Edge, b: Edge, c: Edge)
    requires
        edge_lt(a, b),
        edge_lt(b, c),
    ensures
        edge_lt(a, c),
{
}

impl Graph {
    pub open spec fn wf(&self) -> bool {
        self@.wf()
    }

    /// Creates an empty graph.
    pub fn new() -> (g: Graph)
        ensures
            g.wf(),
            g@.nodes.len() == 0,
            g@.edges.len() == 0,
    {
        Graph { nodes: Vec::new(), edges: Vec::new() }
    }

    /// Binary search for `v` among the nodes: `Ok(i)` where it stands, or
    /// `Err(i)` where it would be inserted.
    pub(crate) fn find_node(&self, v: i64) -> (r: Result<usize, usize>)
        requires
            self.wf(),
        ensures
            match r {
                Ok(i) => i < self@.nodes.len() && self@.nodes[i as int] == v,
                Err(i) => i <= self@.nodes.len() && !self@.nodes.contains(v) && (forall|k: int|
                    0 <= k < i ==> self@.nodes[k] < v) && (forall|k: int|
                    i <= k < self@.nodes.len() ==> self@.nodes[k] > v),
            },
    {
        let mut lo: usize = 0;
        let mut hi: usize = self.nodes.len();
        while lo < hi
            invariant
                self.wf(),
                lo <= hi <= self@.nodes.len(),
                forall|k: int| 0 <= k < lo ==> self@.nodes[k] < v,
                forall|k: int| hi <= k < self@.nodes.len() ==> self@.nodes[k] > v,
            decreases hi - lo,
        {
            let mid: usize = lo + (hi - lo) / 2;
            let x: i64 = self.nodes[mid];
            if x == v {
                return Ok(mid);
            } else if x < v {
                lo = mid + 1;
            } else {
                hi = mid;
            }
        }
        Err(lo)
    }

    /// Binary search for an edge: `Ok(i)` where it stands, or `Err(i)` where
    /// it would be inserted.
    pub(crate) fn find_edge(&self, e: Edge) -> (r: Result<usize, usize>)
        requires
            self.wf(),
        ensures
            match r {
                Ok(i) => i < self@.edges.len() && self@.edges[i as int] == e,
                Err(i) => i <= self@.edges.len() && !self@.edges.contains(e) && (forall|k: int|
                    0 <= k < i ==> edge_lt(self@.edges[k], e)) && (forall|k: int|
                    i <= k < self@.edges.len() ==> edge_lt(e, self@.edges[k])),
            },
    {
        let mut lo: usize = 0;
        let mut hi: usize = self.edges.len();
        while lo < hi
            invariant
                self.wf(),
                lo <= hi <= self@.edges.len(),
                forall|k: int| 0 <= k < lo ==> edge_lt(self@.edges[k], e),
                forall|k: int| hi <= k < self@.edges.len() ==> edge_lt(e, self@.edges[k]),
            decreases hi - lo,
        {
            let mid: usize = lo + (hi - lo) / 2;
            let x: Edge = self.edges[mid];
            proof {
                lemma_edge_lt_trichotomy(x, e);
            }
            if edge_equal(x, e) {
                return Ok(mid);
            } else if edge_less(x, e) {
                proof {
                    assert forall|k: int| 0 <= k < mid + 1 implies edge_lt(self@.edges[k], e) by {
                        if k < mid {
                            lemma_edge_lt_transitive(self@.edges[k], x, e);
                        }
                    }
                }
                lo = mid + 1;
            } else {
                proof {
                    assert forall|k: int| mid <= k < self@.edges.len() implies edge_lt(
                        e,
                        self@.edges[k],
                    ) by {
                        if k > mid {
                            lemma_edge_lt_transitive(e, x, self@.edges[k]);
                        }
                    }
                }
                hi = mid;
            }
        }
        proof {
            assert forall|k: int| 0 <= k < self@.edges.len() implies self@.edges[k] != e by {
                lemma_edge_lt_trichotomy(self@.edges[k], e);
            }
        }
        Err(lo)
    }

    /// Returns `true` if `node` is in the graph.
    pub fn is_node(&self, node: &i64) -> (r: bool)
        requires
            self.wf(),
        ensures
            r == self@.nodes.contains(*node),
    {
        self.find_node(*node).is_ok()
    }

    /// Adds a node; returns `false`, changing nothing, if it is already present.
    pub fn add_node(&mut self, node: i64) -> (r: bool)
        requires
            old(self).wf(),
        ensures
            old(self)@.add_node_post(node, r, final(self)@),
    {
        match self.find_node(node) {
            Ok(_) => {
                false
            },
            Err(pos) => {
                let ghost old_nodes = self@.nodes;
                self.nodes.insert(pos, node);
                proof {
                    let s = self@.nodes;
                    assert(s =~= old_nodes.subrange(0, pos as int).push(node).add(
                        old_nodes.subrange(pos as int, old_nodes.len() as int),
                    ));
                    assert forall|k: int| 0 <= k < old_nodes.len() implies s.contains(
                        #[trigger] old_nodes[k],
                    ) by {
                        if k < pos {
                            assert(s[k] == old_nodes[k]);
                        } else {
                            assert(s[k + 1] == old_nodes[k]);
                        }
                    }
                    assert(s.to_set() =~= old_nodes.to_set().insert(node)) by {
                        assert forall|x: i64| s.contains(x) implies old_nodes.contains(x) || x
                            == node by {
                            let k = choose|k: int| 0 <= k < s.len() && s[k] == x;
                            if k < pos {
                                assert(old_nodes[k] == x);
                            } else if k > pos {
                                assert(old_nodes[k - 1] == x);
                            }
                        }
                        assert(s[pos as int] == node);
                    }
                    assert forall|x: i64| #[trigger] s.contains(x) <==> old_nodes.contains(x) || x == node by {
                        assert(s.to_set().contains(x) == s.contains(x));
                        assert(old_nodes.to_set().contains(x) == old_nodes.contains(x));
                    }
                }
                true
            },
        }
    }

    /// Returns `true` if the exact edge is in the graph.
    pub fn is_edge(&self, src: &i64, dst: &i64, weight: &Option<u64>) -> (r: bool)
        requires
            self.wf(),
        ensures
            r == self@.edges.contains((*src, *dst, *weight)),
    {
        self.find_edge((*src, *dst, *weight)).is_ok()
    }

    /// Adds an edge between two registered nodes; returns `false`, changing
    /// nothing, if an endpoint is missing or the edge is already present.
    pub fn add_edge(&mut self, src: &i64, dst: &i64, weight: Option<u64>) -> (r: bool)
        requires
            old(self).wf(),
        ensures
            old(self)@.add_edge_post(*src, *dst, weight, r, final(self)@),
    {
        if self.find_node(*src).is_err() || self.find_node(*dst).is_err() {
            return false;
        }
        let e: Edge = (*src, *dst, weight);
        match self.find_edge(e) {
            Ok(_) => false,
            Err(pos) => {
                let ghost old_edges = self@.edges;
                self.edges.insert(pos, e);
                proof {
                    let s = self@.edges;
                    assert forall|k: int| 0 <= k < s.len() implies (k < pos ==> s[k]
                        == old_edges[k]) && (k > pos ==> s[k] == old_edges[k - 1]) && (k == pos
                        ==> s[k] == e) by {}
                    assert forall|i: int, j: int| 0 <= i < j < s.len() implies edge_lt(
                        s[i],
                        s[j],
                    ) by {}
                    assert forall|k: int| 0 <= k < s.len() implies self@.nodes.contains(
                        #[trigger] s[k].0,
                    ) && self@.nodes.contains(s[k].1) by {
                        if k < pos {
                            assert(s[k] == old_edges[k]);
                        } else if k > pos {
                            assert(s[k] == old_edges[k - 1]);
                        }
                    }
                    assert(s.to_set() =~= old_edges.to_set().insert(e)) by {
                        assert forall|x: Edge| s.contains(x) implies old_edges.contains(x) || x
                            == e by {
                            let k = choose|k: int| 0 <= k < s.len() && s[k] == x;
                            if k < pos {
                                assert(old_edges[k] == x);
                            } else if k > pos {
                                assert(old_edges[k - 1] == x);
                            }
                        }
                        assert forall|x: Edge| old_edges.contains(x) implies s.contains(x) by {
                            let k = choose|k: int| 0 <= k < old_edges.len() && old_edges[k] == x;
                            if k < pos {
                                assert(s[k] == x);
                            } else {
                                assert(s[k + 1] == x);
                            }
                        }
                        assert(s[pos as int] == e);
                    }
                    assert forall|x: Edge| #[trigger] s.contains(x) <==> old_edges.contains(x) || x == e by {
                        assert(s.to_set().contains(x) == s.contains(x));
                        assert(old_edges.to_set().contains(x) == old_edges.contains(x));
                    }
                }
                true
            },
        }
    }

    /// Removes an edge; returns `false`, changing nothing, if it is absent.
    pub fn remove_edge(&mut self, src: &i64, dst: &i64, weight: Option<u64>) -> (r: bool)
        requires
            old(self).wf(),
        ensures
            old(self)@.remove_edge_post(*src, *dst, weight, r, final(self)@),
    {
        let e: Edge = (*src, *dst, weight);
        match self.find_edge(e) {
            Err(_) => {
                false
            },
            Ok(pos) => {
                let ghost old_edges = self@.edges;
                self.edges.remove(pos);
                proof {
                    let s = self@.edges;
                    assert forall|k: int| 0 <= k < s.len() implies (k < pos ==> s[k]
                        == old_edges[k]) && (k >= pos ==> s[k] == old_edges[k + 1]) by {}
                    assert forall|i: int, j: int| 0 <= i < j < s.len() implies edge_lt(
                        s[i],
                        s[j],
                    ) by {
                        let oi = if i < pos { i } else { i + 1 };
                        let oj = if j < pos { j } else { j + 1 };
                        assert(s[i] == old_edges[oi] && s[j] == old_edges[oj]);
                    }
                    assert forall|k: int| 0 <= k < s.len() implies self@.nodes.contains(
                        #[trigger] s[k].0,
                    ) && self@.nodes.contains(s[k].1) by {
                        let ok = if k < pos { k } else { k + 1 };
                        assert(s[k] == old_edges[ok]);
                        assert(self@.nodes.contains(old_edges[ok].0));
                    }
                    assert(s.to_set() =~= old_edges.to_set().remove(e)) by {
                        assert forall|x: Edge| s.contains(x) implies old_edges.contains(x) && x
                            != e by {
                            let k = choose|k: int| 0 <= k < s.len() && s[k] == x;
                            let ok = if k < pos { k } else { k + 1 };
                            assert(old_edges[ok] == x);
                            lemma_edge_lt_trichotomy(x, e);
                        }
                        assert forall|x: Edge| old_edges.contains(x) && x != e implies s.contains(
                            x,
                        ) by {
                            let k = choose|k: int| 0 <= k < old_edges.len() && old_edges[k] == x;
                            if k < pos {
                                assert(s[k] == x);
                            } else {
                                assert(s[k - 1] == x);
                            }
                        }
                    }
                    assert forall|x: Edge| #[trigger] s.contains(x) <==> old_edges.contains(x) && x != e by {
                        assert(s.to_set().contains(x) == s.contains(x));
                        assert(old_edges.to_set().contains(x) == old_edges.contains(x));
                    }
                }
                true
            },
        }
    }

    /// Removes a node together with every edge that has it as source or
    /// destination; returns `false`, changing nothing, if it is absent.
    pub fn remove_node(&mut self, node: &i64) -> (r: bool)
        requires
            old(self).wf(),
        ensures
            old(self)@.remove_node_post(*node, r, final(self)@),
    {
        let v: i64 = *node;
        let ghost keep = avoids(v);
        match self.find_node(v) {
            Err(_) => {
                proof {
                    let es = old(self)@.edges;
                    assert forall|k: int| 0 <= k < es.len() implies keep(es[k]) by {
                        assert(old(self)@.nodes.contains(es[k].0));
                        assert(old(self)@.nodes.contains(es[k].1));
                    }
                    lemma_filter_all(es, keep);
                }
                false
            },
            Ok(pos) => {
                let ghost old_nodes = self@.nodes;
                let ghost old_edges = self@.edges;
                let mut kept: Vec<Edge> = Vec::new();
                let mut k: usize = 0;
                while k < self.edges.len()
                    invariant
                        self@.nodes == old_nodes,
                        self@.edges == old_edges,
                        0 <= k <= old_edges.len(),
                        kept@ == old_edges.subrange(0, k as int).filter(keep),
                        edges_sorted(kept@),
                        forall|i: int|
                            0 <= i < kept@.len() ==> old_edges.subrange(0, k as int).contains(
                                #[trigger] kept@[i],
                            ),
                        keep == avoids(v),
                        edges_sorted(old_edges),
                    decreases old_edges.len() - k,
                {
                    let e: Edge = self.edges[k];
                    proof {
                        let pre = old_edges.subrange(0, k as int);
                        let next = old_edges.subrange(0, k + 1);
                        assert(next.drop_last() =~= pre);
                        reveal(Seq::filter);
                        assert(next.filter(keep) == if keep(e) {
                            pre.filter(keep).push(e)
                        } else {
                            pre.filter(keep)
                        });
                        assert forall|i: int| 0 <= i < kept@.len() implies edge_lt(kept@[i], e) by {
                            let j = choose|j: int| 0 <= j < pre.len() && pre[j] == kept@[i];
                            assert(old_edges[j] == kept@[i]);
                        }
                        assert forall|i: int| 0 <= i < kept@.len() implies next.contains(
                            #[trigger] kept@[i],
                        ) by {
                            let j = choose|j: int| 0 <= j < pre.len() && pre[j] == kept@[i];
                            assert(next[j] == kept@[i]);
                        }
                        assert(next[k as int] == e);
                    }
                    if e.0 != v && e.1 != v {
                        kept.push(e);
                    }
                    k = k + 1;
                }
                proof {
                    assert(old_edges.subrange(0, old_edges.len() as int) =~= old_edges);
                }
                self.nodes.remove(pos);
                self.edges = kept;
                proof {
                    let s = self@.nodes;
                    assert forall|i: int| 0 <= i < s.len() implies (i < pos ==> s[i]
                        == old_nodes[i]) && (i >= pos ==> s[i] == old_nodes[i + 1]) by {}
                    assert forall|i: int, j: int| 0 <= i < j < s.len() implies s[i] < s[j] by {
                        let oi = if i < pos { i } else { i + 1 };
                        let oj = if j < pos { j } else { j + 1 };
                        assert(s[i] == old_nodes[oi] && s[j] == old_nodes[oj]);
                    }
                    assert(s.to_set() =~= old_nodes.to_set().remove(v)) by {
                        assert forall|x: i64| s.contains(x) implies old_nodes.contains(x) && x
                            != v by {
                            let i = choose|i: int| 0 <= i < s.len() && s[i] == x;
                            let oi = if i < pos { i } else { i + 1 };
                            assert(old_nodes[oi] == x);
                        }
                        assert forall|x: i64| old_nodes.contains(x) && x != v implies s.contains(
                            x,
                        ) by {
                            let i = choose|i: int| 0 <= i < old_nodes.len() && old_nodes[i] == x;
                            if i < pos {
                                assert(s[i] == x);
                            } else {
                                assert(s[i - 1] == x);
                            }
                        }
                    }
                    assert forall|x: i64| #[trigger] s.contains(x) <==> old_nodes.contains(x) && x != v by {
                        assert(s.to_set().contains(x) == s.contains(x));
                        assert(old_nodes.to_set().contains(x) == old_nodes.contains(x));
                    }
                    let es = self@.edges;
                    assert forall|i: int| 0 <= i < es.len() implies s.contains(#[trigger] es[i].0)
                        && s.contains(es[i].1) by {
                        let j = choose|j: int| 0 <= j < old_edges.len() && old_edges[j] == es[i];
                        assert(old_nodes.contains(old_edges[j].0));
                        assert(old_nodes.contains(old_edges[j].1));
                        assert(s.to_set().contains(es[i].0));
                        assert(s.to_set().contains(es[i].1));
                    }
                }
                true
            },
        }
    }

    /// Adds the edges `src -> dst` and `dst -> src` with the same weight.
    /// Returns `false`, changing nothing, if `src == dst`, if an endpoint is
    /// missing, or if either edge is already present.
    pub fn add_undirected_edge(&mut self, src: &i64, dst: &i64, weight: Option<u64>) -> (r: bool)
        requires
            old(self).wf(),
        ensures
            old(self)@.add_undirected_edge_post(*src, *dst, weight, r, final(self)@),
    {
        if *src == *dst {
            return false;
        }
        if self.is_edge(src, dst, &weight) || self.is_edge(dst, src, &weight) {
            return false;
        }
        if self.add_edge(src, dst, weight) {
            proof {
                let x = (*dst, *src, weight);
                assert(old(self)@.edge_set().contains(x) == old(self)@.edges.contains(x));
                assert(self@.edge_set().contains(x) == self@.edges.contains(x));
            }
            let ok = self.add_edge(dst, src, weight);
            proof {
                assert(ok);
            }
            true
        } else {
            false
        }
    }

    /// An independent copy of the graph.
    pub fn clone(&self) -> (r: Graph)
        requires
            self.wf(),
        ensures
            r.wf(),
            r@ == self@,
    {
        let mut nodes: Vec<i64> = Vec::new();
        let mut i: usize = 0;
        while i < self.nodes.len()
            invariant
                i <= self@.nodes.len(),
                nodes@ == self@.nodes.subrange(0, i as int),
            decreases self@.nodes.len() - i,
        {
            nodes.push(self.nodes[i]);
            i = i + 1;
            proof {
                assert(nodes@ =~= self@.nodes.subrange(0, i as int));
            }
        }
        let mut edges: Vec<Edge> = Vec::new();
        let mut k: usize = 0;
        while k < self.edges.len()
            invariant
                k <= self@.edges.len(),
                edges@ == self@.edges.subrange(0, k as int),
            decreases self@.edges.len() - k,
        {
            edges.push(self.edges[k]);
            k = k + 1;
            proof {
                assert(edges@ =~= self@.edges.subrange(0, k as int));
            }
        }
        proof {
            assert(nodes@ =~= self@.nodes);
            assert(edges@ =~= self@.edges);
        }
        Graph { nodes, edges }
    }
}

impl PartialEq for Graph {
    /// Two graphs are equal when they have the same nodes and the same edges.
    fn eq(&self, other: &Graph) -> (r: bool) {
        if self.nodes.len() != other.nodes.len() || self.edges.len() != other.edges.len() {
            return false;
        }
        let mut i: usize = 0;
        while i < self.nodes.len()
            invariant
                i <= self@.nodes.len(),
                self@.nodes.len() == other@.nodes.len(),
                self@.edges.len() == other@.edges.len(),
                self@.nodes.subrange(0, i as int) == other@.nodes.subrange(0, i as int),
            decreases self@.nodes.len() - i,
        {
            if self.nodes[i] != other.nodes[i] {
                return false;
            }
            i = i + 1;
            proof {
                assert(self@.nodes.subrange(0, i as int) =~= self@.nodes.subrange(
                    0,
                    i - 1,
                ).push(self@.nodes[i - 1]));
                assert(other@.nodes.subrange(0, i as int) =~= other@.nodes.subrange(
                    0,
                    i - 1,
                ).push(other@.nodes[i - 1]));
            }
        }
        proof {
            assert(self@.nodes.subrange(0, i as int) =~= self@.nodes);
            assert(other@.nodes.subrange(0, i as int) =~= other@.nodes);
        }
        let mut k: usize = 0;
        while k < self.edges.len()
            invariant
                k <= self@.edges.len(),
                self@.nodes == other@.nodes,
                self@.edges.len() == other@.edges.len(),
                self@.edges.subrange(0, k as int) == other@.edges.subrange(0, k as int),
            decreases self@.edges.len() - k,
        {
            if !edge_equal(self.edges[k], other.edges[k]) {
                return false;
            }
            k = k + 1;
            proof {
                assert(self@.edges.subrange(0, k as int) =~= self@.edges.subrange(
                    0,
                    k - 1,
                ).push(self@.edges[k - 1]));
                assert(other@.edges.subrange(0, k as int) =~= other@.edges.subrange(
                    0,
                    k - 1,
                ).push(other@.edges[k - 1]));
            }
        }
        proof {
            assert(self@.edges.subrange(0, k as int) =~= self@.edges);
            assert(other@.edges.subrange(0, k as int) =~= other@.edges);
        }
        true
    }
}

impl vstd::std_specs::cmp::PartialEqSpecImpl for Graph {
    open spec fn obeys_eq_spec() -> bool {
        true
    }

    open spec fn eq_spec(&self, other: &Graph) -> bool {
        self@ == other@
    }
}

/// Filtering by a predicate that every element meets leaves the sequence unchanged.
pub proof fn lemma_filter_all<A>(s: Seq<A>, p: spec_fn(A) -> bool)
    requires
        forall|k: int| 0 <= k < s.len() ==> p(s[k]),
    ensures
        s.filter(p) == s,
    decreases s.len(),
{
    reveal(Seq::filter);
    if s.len() > 0 {
        lemma_filter_all(s.drop_last(), p);
        assert(s.drop_last().push(s.last()) =~= s);
    }
}

} // verus!
