use vstd::prelude::*;
use crate::graph::{edge_lt, enters, leaves, Edge, Graph, GraphError};

verus! {

/// Filtering a sequence whose matching elements form the block `[lo, hi)`
/// yields exactly that block.
pub proof fn lemma_filter_block<A>(s: Seq<A>, p: spec_fn(A) -> bool, lo: int, hi: int)
    requires
        0 <= lo <= hi <= s.len(),
        forall|k: int| 0 <= k < lo ==> !p(#[trigger] s[k]),
        forall|k: int| lo <= k < hi ==> p(#[trigger] s[k]),
        forall|k: int| hi <= k < s.len() ==> !p(#[trigger] s[k]),
    ensures
        s.filter(p) == s.subrange(lo, hi),
    decreases s.len(),
{
    reveal(Seq::filter);
    if s.len() > 0 {
        let t = s.drop_last();
        assert forall|k: int| 0 <= k < t.len() implies t[k] == s[k] by {}
        if hi == s.len() {
            if lo == hi {
                lemma_filter_block(t, p, t.len() as int, t.len() as int);
                assert(s.subrange(lo, hi) =~= t.subrange(t.len() as int, t.len() as int));
            } else {
                lemma_filter_block(t, p, lo, hi - 1);
                assert(s.subrange(lo, hi) =~= t.subrange(lo, hi - 1).push(s.last()));
            }
        } else {
            lemma_filter_block(t, p, lo, hi);
            assert(s.subrange(lo, hi) =~= t.subrange(lo, hi));
        }
    }
}

/// How the filter of a prefix grows by one element.
pub proof fn lemma_filter_prefix_step<A>(s: Seq<A>, p: spec_fn(A) -> bool, k: int)
    requires
        0 <= k < s.len(),
    ensures
        s.subrange(0, k + 1).filter(p) == if p(s[k]) {
            s.subrange(0, k).filter(p).push(s[k])
        } else {
            s.subrange(0, k).filter(p)
        },
{
    reveal(Seq::filter);
    assert(s.subrange(0, k + 1).drop_last() =~= s.subrange(0, k));
}

impl Graph {
    /// The edges of `v` stand in the block `[lo, hi)` of the edge table.
    pub(crate) fn out_range(&self, v: i64) -> (r: (usize, usize))
        requires
            self.wf(),
        ensures
            r.0 <= r.1 <= self@.edges.len(),
            forall|k: int| 0 <= k < r.0 ==> (#[trigger] self@.edges[k]).0 < v,
            forall|k: int| r.0 <= k < r.1 ==> (#[trigger] self@.edges[k]).0 == v,
            forall|k: int| r.1 <= k < self@.edges.len() ==> (#[trigger] self@.edges[k]).0 > v,
            self@.out_edges(v) == self@.edges.subrange(r.0 as int, r.1 as int),
    {
        let n: usize = self.edges.len();
        proof {
            assert forall|i: int, j: int| 0 <= i <= j < n implies self@.edges[i].0
                <= self@.edges[j].0 by {
                if i < j {
                    assert(edge_lt(self@.edges[i], self@.edges[j]));
                }
            }
        }
        let mut lo: usize = 0;
        let mut hi: usize = n;
        while lo < hi
            invariant
                self.wf(),
                n == self@.edges.len(),
                lo <= hi <= n,
                forall|k: int| 0 <= k < lo ==> (#[trigger] self@.edges[k]).0 < v,
                forall|k: int| hi <= k < n ==> (#[trigger] self@.edges[k]).0 >= v,
                forall|i: int, j: int| 0 <= i <= j < n ==> self@.edges[i].0 <= self@.edges[j].0,
            decreases hi - lo,
        {
            let mid: usize = lo + (hi - lo) / 2;
            if self.edges[mid].0 < v {
                lo = mid + 1;
            } else {
                hi = mid;
            }
        }
        let start: usize = lo;
        let mut hi: usize = n;
        while lo < hi
            invariant
                self.wf(),
                n == self@.edges.len(),
                start <= lo <= hi <= n,
                forall|k: int| 0 <= k < start ==> (#[trigger] self@.edges[k]).0 < v,
                forall|k: int| start <= k < lo ==> (#[trigger] self@.edges[k]).0 <= v,
                forall|k: int| start <= k < n ==> (#[trigger] self@.edges[k]).0 >= v,
                forall|k: int| hi <= k < n ==> (#[trigger] self@.edges[k]).0 > v,
                forall|i: int, j: int| 0 <= i <= j < n ==> self@.edges[i].0 <= self@.edges[j].0,
            decreases hi - lo,
        {
            let mid: usize = lo + (hi - lo) / 2;
            if self.edges[mid].0 <= v {
                lo = mid + 1;
            } else {
                hi = mid;
            }
        }
        proof {
            lemma_filter_block(self@.edges, leaves(v), start as int, lo as int);
        }
        (start, lo)
    }

    /// The nodes, in increasing order.
    pub fn nodes(&self) -> (r: &Vec<i64>)
        ensures
            r@ == self@.nodes,
    {
        &self.nodes
    }

    /// Returns `true` if the graph has no nodes (and thus no edges).
    pub fn is_empty(&self) -> (r: bool)
        ensures
            r == (self@.nodes.len() == 0),
    {
        self.nodes.len() == 0
    }

    /// The number of nodes.
    pub fn num_nodes(&self) -> (r: usize)
        ensures
            r == self@.nodes.len(),
    {
        self.nodes.len()
    }

    /// The number of edges.
    pub fn num_edges(&self) -> (r: usize)
        ensures
            r == self@.edges.len(),
    {
        self.edges.len()
    }

    /// The outgoing edges of `node` as (destination, weight) pairs in
    /// increasing order; `Ok(None)` if it has none, an error if it is not a node.
    pub fn edges(&self, node: &i64) -> (r: Result<Option<Vec<(i64, Option<u64>)>>, GraphError>)
        requires
            self.wf(),
        ensures
            match r {
                Err(e) => !self@.nodes.contains(*node) && e == GraphError::NodeNotFound(*node),
                Ok(None) => self@.nodes.contains(*node) && self@.out_edges(*node).len() == 0,
                Ok(Some(list)) => self@.nodes.contains(*node) && self@.out_edges(*node).len() > 0
                    && list@ == self@.out_edges(*node).map_values(|e: Edge| (e.1, e.2)),
            },
    {
        if self.find_node(*node).is_err() {
            return Err(GraphError::NodeNotFound(*node));
        }
        let (lo, hi) = self.out_range(*node);
        if lo == hi {
            return Ok(None);
        }
        let ghost out = self@.edges.subrange(lo as int, hi as int);
        let mut list: Vec<(i64, Option<u64>)> = Vec::new();
        let mut k: usize = lo;
        while k < hi
            invariant
                lo <= k <= hi <= self@.edges.len(),
                out == self@.edges.subrange(lo as int, hi as int),
                list@ == out.subrange(0, k - lo).map_values(|e: Edge| (e.1, e.2)),
            decreases hi - k,
        {
            let e: Edge = self.edges[k];
            list.push((e.1, e.2));
            k = k + 1;
            proof {
                assert(list@ =~= out.subrange(0, k - lo).map_values(|e: Edge| (e.1, e.2)));
            }
        }
        proof {
            assert(out.subrange(0, k - lo) =~= out);
        }
        Ok(Some(list))
    }

    /// The destinations of the outgoing edges of `node`, one per edge, in edge
    /// order; `Ok(None)` if it has none, an error if it is not a node.
    pub fn connections(&self, node: &i64) -> (r: Result<Option<Vec<i64>>, GraphError>)
        requires
            self.wf(),
        ensures
            match r {
                Err(e) => !self@.nodes.contains(*node) && e == GraphError::NodeNotFound(*node),
                Ok(None) => self@.nodes.contains(*node) && self@.out_edges(*node).len() == 0,
                Ok(Some(list)) => self@.nodes.contains(*node) && self@.out_edges(*node).len() > 0
                    && list@ == self@.out_edges(*node).map_values(|e: Edge| e.1),
            },
    {
        if self.find_node(*node).is_err() {
            return Err(GraphError::NodeNotFound(*node));
        }
        let (lo, hi) = self.out_range(*node);
        if lo == hi {
            return Ok(None);
        }
        let ghost out = self@.edges.subrange(lo as int, hi as int);
        let mut list: Vec<i64> = Vec::new();
        let mut k: usize = lo;
        while k < hi
            invariant
                lo <= k <= hi <= self@.edges.len(),
                out == self@.edges.subrange(lo as int, hi as int),
                list@ == out.subrange(0, k - lo).map_values(|e: Edge| e.1),
            decreases hi - k,
        {
            list.push(self.edges[k].1);
            k = k + 1;
            proof {
                assert(list@ =~= out.subrange(0, k - lo).map_values(|e: Edge| e.1));
            }
        }
        proof {
            assert(out.subrange(0, k - lo) =~= out);
        }
        Ok(Some(list))
    }

    /// Returns `true` if some edge, of any weight, leads from `src` to `dst`.
    pub fn is_connected(&self, src: &i64, dst: &i64) -> (r: bool)
        requires
            self.wf(),
        ensures
            r == self@.connected(*src, *dst),
    {
        let (lo, hi) = self.out_range(*src);
        let mut k: usize = lo;
        while k < hi
            invariant
                self.wf(),
                lo <= k <= hi <= self@.edges.len(),
                forall|i: int| 0 <= i < lo ==> (#[trigger] self@.edges[i]).0 < *src,
                forall|i: int| lo <= i < hi ==> (#[trigger] self@.edges[i]).0 == *src,
                forall|i: int| hi <= i < self@.edges.len() ==> (#[trigger] self@.edges[i]).0 > *src,
                forall|i: int| lo <= i < k ==> (#[trigger] self@.edges[i]).1 != *dst,
            decreases hi - k,
        {
            if self.edges[k].1 == *dst {
                proof {
                    let e = self@.edges[k as int];
                    assert(self@.edges.contains((*src, *dst, e.2)));
                }
                return true;
            }
            k = k + 1;
        }
        proof {
            if self@.connected(*src, *dst) {
                let w = choose|w: Option<u64>| self@.edges.contains((*src, *dst, w));
                let i = choose|i: int| 0 <= i < self@.edges.len() && self@.edges[i] == (*src, *dst, w);
                assert(self@.edges[i].0 == *src);
            }
        }
        false
    }

    /// The number of outgoing edges of `node` (zero for an unknown node).
    pub fn out_degree(&self, node: &i64) -> (r: usize)
        requires
            self.wf(),
        ensures
            r == self@.out_edges(*node).len(),
    {
        let (lo, hi) = self.out_range(*node);
        hi - lo
    }

    /// The number of incoming edges of `node` (zero for an unknown node),
    /// counted over the whole edge table.
    pub fn in_degree(&self, node: &i64) -> (r: usize)
        requires
            self.wf(),
        ensures
            r == self@.in_edges(*node).len(),
    {
        let v: i64 = *node;
        let ghost p = enters(v);
        let mut count: usize = 0;
        let mut k: usize = 0;
        while k < self.edges.len()
            invariant
                k <= self@.edges.len(),
                count == self@.edges.subrange(0, k as int).filter(p).len(),
                count <= k,
                p == enters(v),
            decreases self@.edges.len() - k,
        {
            proof {
                lemma_filter_prefix_step(self@.edges, p, k as int);
            }
            if self.edges[k].1 == v {
                count = count + 1;
            }
            k = k + 1;
        }
        proof {
            assert(self@.edges.subrange(0, k as int) =~= self@.edges);
        }
        count
    }

    /// The number of edges at `node`, incoming plus outgoing (a self-loop counts twice).
    pub fn degree(&self, node: &i64) -> (r: usize)
        requires
            self.wf(),
            self@.in_edges(*node).len() + self@.out_edges(*node).len() <= usize::MAX,
        ensures
            r == self@.in_edges(*node).len() + self@.out_edges(*node).len(),
    {
        self.in_degree(node) + self.out_degree(node)
    }
}

} // verus!
