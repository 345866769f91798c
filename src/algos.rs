use vstd::prelude::*;
use vstd::set_lib::lemma_len_subset;
use std::collections::{BTreeSet, HashMap};
use crate::graph::{Edge, Graph, GraphError, GraphModel};
use crate::levels::{
    bfs_levels, bfs_order, bfs_queue_order, lemma_bfs_order_discover, lemma_bfs_order_final,
    lemma_bfs_levels_advance, lemma_bfs_levels_discover, lemma_bfs_levels_start,
    lemma_within_mono, within,
};
use crate::paths::{
    lemma_closed_holds_reachable, lemma_distinct_indices_bounded, lemma_reach_self,
    lemma_reach_step,
};

verus! {

broadcast use {
    vstd::std_specs::hash::group_hash_axioms,
    vstd::std_specs::btree::group_btree_axioms,
    vstd::laws_cmp::group_laws_cmp,
};

impl Graph {
    /// The position of a registered node.
    pub(crate) fn index_of(&self, v: i64) -> (i: usize)
        requires
            self.wf(),
            self@.nodes.contains(v),
        ensures
            i < self@.nodes.len(),
            self@.nodes[i as int] == v,
    {
        match self.find_node(v) {
            Ok(i) => i,
            Err(_) => {
                proof {
                    assert(false);
                }
                0
            },
        }
    }

    /// Breadth-first search from `src`: maps every node reachable from `src`
    /// to the node it was first discovered from; `src` maps to itself.
    #[verifier::rlimit(100)]
    #[verifier::spinoff_prover]
    pub fn bfs(&self, src: &i64) -> (r: Result<HashMap<i64, i64>, GraphError>)
        requires
            self.wf(),
        ensures
            match r {
                Err(e) => !self@.nodes.contains(*src) && e == GraphError::NodeNotFound(*src),
                Ok(pred) => {
                    &&& self@.nodes.contains(*src)
                    &&& pred@.dom() == self@.reachable_from(*src)
                    &&& pred@[*src] == *src
                    &&& forall|v: i64|
                        #[trigger] pred@.contains_key(v) && v != *src ==> pred@.contains_key(
                            pred@[v],
                        ) && self@.connected(pred@[v], v)
                    // the predecessor is one hop nearer the source: for every `k >= 1`,
                    // `v` is within `k` edges exactly when its predecessor is within `k - 1`
                    &&& forall|v: i64, k: int|
                        #![trigger pred@.contains_key(v), within(self@, *src, v, k)]
                        pred@.contains_key(v) && v != *src && 1 <= k ==> (within(self@, *src, v, k)
                            <==> within(self@, *src, pred@[v], k - 1))
                    // and it is the first node, in the order the search takes nodes
                    // off its queue, with an edge to `v`
                    &&& exists|ord: Seq<i64>| bfs_order(self@, *src, pred@, ord)
                },
            },
    {
        let s: usize = match self.find_node(*src) {
            Ok(i) => i,
            Err(_) => return Err(GraphError::NodeNotFound(*src)),
        };
        let n: usize = self.nodes.len();
        let ghost g: GraphModel = self@;
        let mut pred: Vec<Option<usize>> = Vec::new();
        let mut i: usize = 0;
        while i < n
            invariant
                n == g.nodes.len(),
                i <= n,
                pred@.len() == i,
                forall|x: int| 0 <= x < i ==> pred@[x] is None,
            decreases n - i,
        {
            pred.push(None);
            i = i + 1;
        }
        pred.set(s, Some(s));
        let mut queue: Vec<usize> = Vec::new();
        queue.push(s);
        let ghost mut found: Set<i64> = set![*src];
        let ghost mut lvl: Map<i64, int> = map![*src => 0int];
        let ghost mut pp: Seq<int> = seq![0int];
        proof {
            lemma_bfs_levels_start(g, *src, s);
            lemma_reach_self(g, *src);
            assert(queue@ =~= seq![s]);
            assert forall|x: int| 0 <= x < n implies (pred@[x] is Some) == queue@.contains(
                x as usize,
            ) by {
                if x == s {
                    assert(queue@[0] == s);
                }
            }
            assert forall|x: int| 0 <= x < n implies (pred@[x] is Some) == found.contains(
                #[trigger] g.nodes[x],
            ) by {
                if x != s {
                    assert(g.nodes[x] != g.nodes[s as int]);
                }
            }
        }
        let mut head: usize = 0;
        while head < queue.len()
            invariant
                self.wf(),
                g == self@,
                n == g.nodes.len(),
                s < n,
                g.nodes[s as int] == *src,
                pred@.len() == n,
                head <= queue@.len() <= n,
                queue@.no_duplicates(),
                forall|q: int| 0 <= q < queue@.len() ==> #[trigger] queue@[q] < n,
                forall|x: int| 0 <= x < n ==> (pred@[x] is Some) == queue@.contains(x as usize),
                forall|x: int| 0 <= x < n ==> (pred@[x] is Some) == found.contains(#[trigger] g.nodes[x]),
                forall|v: i64| found.contains(v) ==> g.nodes.contains(v),
                forall|v: i64| found.contains(v) ==> g.reachable(*src, v),
                pred@[s as int] == Some(s),
                forall|x: int|
                    0 <= x < n && x != s && #[trigger] pred@[x] is Some ==> pred@[x]->0 < n
                        && pred@[pred@[x]->0 as int] is Some && g.connected(
                        g.nodes[pred@[x]->0 as int],
                        g.nodes[x],
                    ),
                bfs_levels(g, *src, queue@, head as int, found, lvl),
                forall|x: int|
                    0 <= x < n && x != s && #[trigger] pred@[x] is Some ==> lvl[g.nodes[x]]
                        == lvl[g.nodes[pred@[x]->0 as int]] + 1,
                bfs_queue_order(g, queue@, pp, pred@, head as int),
                queue@[0] == s,
                forall|i: int| 1 <= i < queue@.len() ==> #[trigger] pp[i] < head,
                forall|q: int, k: int|
                    0 <= q < head && 0 <= k < g.edges.len() && (#[trigger] g.edges[k]).0
                        == g.nodes[#[trigger] queue@[q] as int] ==> found.contains(g.edges[k].1),
            decreases n - head,
        {
            let u: usize = queue[head];
            let (lo, hi) = self.out_range(self.nodes[u]);
            let mut k: usize = lo;
            while k < hi
                invariant
                    self.wf(),
                    g == self@,
                    n == g.nodes.len(),
                    s < n,
                    g.nodes[s as int] == *src,
                    pred@.len() == n,
                    head < queue@.len() <= n,
                    u == queue@[head as int],
                    u < n,
                    found.contains(g.nodes[u as int]),
                    lo <= k <= hi <= g.edges.len(),
                    forall|kk: int| lo <= kk < hi ==> (#[trigger] g.edges[kk]).0 == g.nodes[u as int],
                    queue@.no_duplicates(),
                    forall|q: int| 0 <= q < queue@.len() ==> #[trigger] queue@[q] < n,
                    forall|x: int| 0 <= x < n ==> (pred@[x] is Some) == queue@.contains(x as usize),
                    forall|x: int| 0 <= x < n ==> (pred@[x] is Some) == found.contains(#[trigger] g.nodes[x]),
                    forall|v: i64| found.contains(v) ==> g.nodes.contains(v),
                    forall|v: i64| found.contains(v) ==> g.reachable(*src, v),
                    pred@[s as int] == Some(s),
                    forall|x: int|
                        0 <= x < n && x != s && #[trigger] pred@[x] is Some ==> pred@[x]->0 < n
                            && pred@[pred@[x]->0 as int] is Some && g.connected(
                            g.nodes[pred@[x]->0 as int],
                            g.nodes[x],
                        ),
                    bfs_levels(g, *src, queue@, head as int, found, lvl),
                    forall|x: int|
                        0 <= x < n && x != s && #[trigger] pred@[x] is Some ==> lvl[g.nodes[x]]
                            == lvl[g.nodes[pred@[x]->0 as int]] + 1,
                    bfs_queue_order(g, queue@, pp, pred@, head as int),
                    queue@[0] == s,
                    forall|i: int, kk: int|
                        1 <= i < queue@.len() && pp[i] == head && k <= kk < hi ==> g.nodes[#[trigger] queue@[i] as int]
                            <= (#[trigger] g.edges[kk]).1,
                    forall|q: int, kk: int|
                        0 <= q < head && 0 <= kk < g.edges.len() && (#[trigger] g.edges[kk]).0
                            == g.nodes[#[trigger] queue@[q] as int] ==> found.contains(g.edges[kk].1),
                    forall|kk: int| lo <= kk < k ==> found.contains((#[trigger] g.edges[kk]).1),
                decreases hi - k,
            {
                let e: Edge = self.edges[k];
                proof {
                    assert(g.edges[k as int] == e);
                    assert(g.edges.contains((e.0, e.1, e.2)));
                    assert(g.connected(e.0, e.1));
                }
                let j: usize = self.index_of(e.1);
                if pred[j].is_none() {
                    proof {
                        assert(!queue@.contains(j));
                        lemma_reach_step(g, *src, g.nodes[u as int], e.1);
                        lemma_bfs_levels_discover(g, *src, queue@, head as int, found, lvl, j);
                        assert forall|r: int| 0 <= r < head implies !g.connected(
                            g.nodes[#[trigger] queue@[r] as int],
                            g.nodes[j as int],
                        ) by {
                            if g.connected(g.nodes[queue@[r] as int], g.nodes[j as int]) {
                                let a = g.nodes[queue@[r] as int];
                                let w = choose|w: Option<u64>| g.edges.contains((a, e.1, w));
                                let kk = choose|kk: int| 0 <= kk < g.edges.len() && g.edges[kk] == (a, e.1, w);
                                assert(g.edges[kk].0 == g.nodes[queue@[r] as int]);
                                assert(found.contains(e.1));
                            }
                        }
                        lemma_bfs_order_discover(g, queue@, pp, pred@, head as int, lo as int, hi as int, k as int, j);
                        pp = pp.push(head as int);
                        lvl = lvl.insert(e.1, lvl[g.nodes[u as int]] + 1);
                        found = found.insert(e.1);
                    }
                    let ghost old_queue = queue@;
                    pred.set(j, Some(u));
                    queue.push(j);
                    proof {
                        lemma_distinct_indices_bounded(queue@, n);
                        assert forall|x: int| 0 <= x < n implies (pred@[x] is Some)
                            == queue@.contains(x as usize) by {
                            if x == j {
                                assert(queue@[queue@.len() - 1] == j);
                            } else {
                                if old_queue.contains(x as usize) {
                                    let q = choose|q: int| 0 <= q < old_queue.len() && old_queue[q] == x as usize;
                                    assert(queue@[q] == x as usize);
                                }
                                if queue@.contains(x as usize) {
                                    let q = choose|q: int| 0 <= q < queue@.len() && queue@[q] == x as usize;
                                    assert(old_queue[q] == x as usize);
                                }
                            }
                        }
                        assert forall|x: int| 0 <= x < n implies (pred@[x] is Some) == found.contains(
                            #[trigger] g.nodes[x],
                        ) by {
                            if x != j {
                                assert(g.nodes[x] != g.nodes[j as int]);
                            }
                        }
                        assert forall|q: int, kk: int|
                            0 <= q < head && 0 <= kk < g.edges.len() && (#[trigger] g.edges[kk]).0
                                == g.nodes[#[trigger] queue@[q] as int] implies found.contains(
                            g.edges[kk].1,
                        ) by {
                            assert(queue@[q] == old_queue[q]);
                        }
                        assert forall|x: int|
                            0 <= x < n && x != s && #[trigger] pred@[x] is Some implies lvl[g.nodes[x]]
                                == lvl[g.nodes[pred@[x]->0 as int]] + 1 by {
                            if x != j {
                                assert(g.nodes[x] != g.nodes[j as int]);
                                let p = pred@[x]->0;
                                assert(pred@[p as int] is Some);
                                assert(p != j);
                                assert(g.nodes[p as int] != g.nodes[j as int]);
                            }
                        }
                    }
                }
                k = k + 1;
            }
            proof {
                assert forall|i: int, a: i64, b: i64|
                    0 <= i <= head && a == g.nodes[#[trigger] queue@[i] as int] && #[trigger] g.connected(a, b)
                        implies found.contains(b) by {
                    let w = choose|w: Option<u64>| g.edges.contains((a, b, w));
                    let kk = choose|kk: int| 0 <= kk < g.edges.len() && g.edges[kk] == (a, b, w);
                    if i < head {
                        assert(g.edges[kk].0 == g.nodes[queue@[i] as int]);
                    } else {
                        assert(g.edges[kk].0 == g.nodes[u as int]);
                    }
                }
                lemma_bfs_levels_advance(g, *src, queue@, head as int, found, lvl);
            }
            head = head + 1;
            proof {
                assert(bfs_queue_order(g, queue@, pp, pred@, head as int));
                assert forall|q: int, kk: int|
                    0 <= q < head && 0 <= kk < g.edges.len() && (#[trigger] g.edges[kk]).0
                        == g.nodes[#[trigger] queue@[q] as int] implies found.contains(
                    g.edges[kk].1,
                ) by {
                    if q == head - 1 {
                        assert(g.edges[kk].0 == g.nodes[u as int]);
                    }
                }
            }
        }
        proof {
            assert forall|a: i64, b: i64| found.contains(a) && #[trigger] g.connected(a, b) implies found.contains(b) by {
                let x = choose|x: int| 0 <= x < n && g.nodes[x] == a;
                assert(found.contains(g.nodes[x]));
                assert(queue@.contains(x as usize));
                let q = choose|q: int| 0 <= q < queue@.len() && queue@[q] == x as usize;
                let w = choose|w: Option<u64>| g.edges.contains((a, b, w));
                let kk = choose|kk: int| 0 <= kk < g.edges.len() && g.edges[kk] == (a, b, w);
                assert(g.edges[kk].0 == g.nodes[queue@[q] as int]);
            }
            assert forall|t: i64| g.reachable(*src, t) implies found.contains(t) by {
                lemma_closed_holds_reachable(g, *src, found, t);
            }
        }
        let mut map: HashMap<i64, i64> = HashMap::new();
        let mut x: usize = 0;
        while x < n
            invariant
                self.wf(),
                g == self@,
                n == g.nodes.len(),
                pred@.len() == n,
                x <= n,
                forall|y: int| 0 <= y < n ==> (pred@[y] is Some) == found.contains(#[trigger] g.nodes[y]),
                forall|y: int|
                    0 <= y < n && #[trigger] pred@[y] is Some ==> pred@[y]->0 < n,
                forall|y: int|
                    0 <= y < n ==> (y < x && pred@[y] is Some) == map@.contains_key(#[trigger] g.nodes[y]),
                forall|y: int|
                    0 <= y < x && #[trigger] pred@[y] is Some ==> map@[g.nodes[y]] == g.nodes[pred@[y]->0 as int],
                forall|v: i64| map@.contains_key(v) ==> g.nodes.contains(v),
                bfs_queue_order(g, queue@, pp, pred@, head as int),
                queue@.len() > 0,
                queue@[0] == s,
                queue@.no_duplicates(),
                forall|q: int| 0 <= q < queue@.len() ==> #[trigger] queue@[q] < n,
                forall|y: int| 0 <= y < n ==> (pred@[y] is Some) == queue@.contains(y as usize),
                forall|t: i64|
                    #[trigger] found.contains(t) ==> lvl.contains_key(t) && lvl[t] >= 0 && within(g, *src, t, lvl[t])
                        && (forall|k: int| 0 <= k < lvl[t] ==> !#[trigger] within(g, *src, t, k)),
                forall|y: int|
                    0 <= y < n && y != s && #[trigger] pred@[y] is Some ==> lvl[g.nodes[y]]
                        == lvl[g.nodes[pred@[y]->0 as int]] + 1,
                forall|v: i64| found.contains(v) == g.reachable(*src, v),
                forall|v: i64| found.contains(v) ==> g.nodes.contains(v),
                s < n,
                g.nodes[s as int] == *src,
                pred@[s as int] == Some(s),
                forall|y: int|
                    0 <= y < n && y != s && #[trigger] pred@[y] is Some ==> pred@[y]->0 < n
                        && pred@[pred@[y]->0 as int] is Some && g.connected(
                        g.nodes[pred@[y]->0 as int],
                        g.nodes[y],
                    ),
            decreases n - x,
        {
            if let Some(p) = pred[x] {
                map.insert(self.nodes[x], self.nodes[p]);
                proof {
                    assert forall|y: int| 0 <= y < n implies (y < x + 1 && pred@[y] is Some)
                        == map@.contains_key(#[trigger] g.nodes[y]) by {
                        if y != x {
                            assert(g.nodes[y] != g.nodes[x as int]);
                        }
                    }
                    assert forall|y: int|
                        0 <= y < x + 1 && #[trigger] pred@[y] is Some implies map@[g.nodes[y]]
                            == g.nodes[pred@[y]->0 as int] by {
                        if y != x {
                            assert(g.nodes[y] != g.nodes[x as int]);
                        }
                    }
                }
            }
            x = x + 1;
        }
        proof {
            assert(map@.dom() =~= g.reachable_from(*src)) by {
                assert forall|v: i64| map@.contains_key(v) implies g.reachable(*src, v) by {
                    assert(g.nodes.contains(v));
                    let y = choose|y: int| 0 <= y < g.nodes.len() && g.nodes[y] == v;
                    assert(map@.contains_key(g.nodes[y]));
                    assert(found.contains(g.nodes[y]));
                }
                assert forall|v: i64| g.reachable(*src, v) implies map@.contains_key(v) by {
                    assert(found.contains(v));
                    assert(g.nodes.contains(v));
                    let y = choose|y: int| 0 <= y < g.nodes.len() && g.nodes[y] == v;
                    assert(found.contains(g.nodes[y]));
                }
            }
            assert(map@.contains_key(g.nodes[s as int]));
            assert forall|v: i64| #[trigger] map@.contains_key(v) && v != *src implies map@.contains_key(
                map@[v],
            ) && g.connected(map@[v], v) by {
                assert(g.nodes.contains(v));
                let y = choose|y: int| 0 <= y < g.nodes.len() && g.nodes[y] == v;
                assert(map@.contains_key(g.nodes[y]));
                assert(y != s);
                let p = pred@[y]->0;
                assert(found.contains(g.nodes[p as int]));
                assert(map@.contains_key(g.nodes[p as int]));
            }
            assert forall|v: i64, k: int|
                #![trigger map@.contains_key(v), within(g, *src, v, k)]
                map@.contains_key(v) && v != *src && 1 <= k implies (within(g, *src, v, k)
                    <==> within(g, *src, map@[v], k - 1)) by {
                assert(g.nodes.contains(v));
                let y = choose|y: int| 0 <= y < g.nodes.len() && g.nodes[y] == v;
                assert(map@.contains_key(g.nodes[y]));
                assert(y != s);
                let p = pred@[y]->0;
                let a = g.nodes[p as int];
                assert(found.contains(v));
                assert(found.contains(a));
                assert(map@[v] == a);
                assert(lvl[v] == lvl[a] + 1);
                if within(g, *src, v, k) {
                    assert(k >= lvl[v]);
                    lemma_within_mono(g, *src, a, lvl[a], k - 1);
                }
                if within(g, *src, a, k - 1) {
                    assert(k - 1 >= lvl[a]);
                    lemma_within_mono(g, *src, v, lvl[v], k);
                }
            }
        }
        proof {
            lemma_bfs_order_final(g, *src, queue@, pp, pred@, head as int, map@);
        }
        Ok(map)
    }

    /// Depth-first search from `src` with an explicit stack: the set of nodes
    /// reachable from `src`, `src` included.
    pub fn dfs(&self, src: &i64) -> (r: Result<BTreeSet<i64>, GraphError>)
        requires
            self.wf(),
        ensures
            match r {
                Err(e) => !self@.nodes.contains(*src) && e == GraphError::NodeNotFound(*src),
                Ok(visited) => self@.nodes.contains(*src) && visited@ == self@.reachable_from(*src),
            },
    {
        let s: usize = match self.find_node(*src) {
            Ok(i) => i,
            Err(_) => return Err(GraphError::NodeNotFound(*src)),
        };
        let n: usize = self.nodes.len();
        let ghost g: GraphModel = self@;
        let mut visited: Vec<bool> = Vec::new();
        let mut i: usize = 0;
        while i < n
            invariant
                n == g.nodes.len(),
                i <= n,
                visited@.len() == i,
                forall|x: int| 0 <= x < i ==> !visited@[x],
            decreases n - i,
        {
            visited.push(false);
            i = i + 1;
        }
        let mut stack: Vec<usize> = Vec::new();
        stack.push(s);
        let ghost mut found: Set<i64> = Set::empty();
        let ghost mut pending: Set<i64> = set![*src];
        proof {
            lemma_reach_self(g, *src);
            assert(stack@[0] == s);
            g.nodes.unique_seq_to_set();
        }
        while stack.len() > 0
            invariant
                self.wf(),
                g == self@,
                n == g.nodes.len(),
                g.nodes.to_set().len() == n,
                s < n,
                g.nodes[s as int] == *src,
                visited@.len() == n,
                forall|q: int| 0 <= q < stack@.len() ==> #[trigger] stack@[q] < n,
                forall|x: int| 0 <= x < n ==> visited@[x] == found.contains(#[trigger] g.nodes[x]),
                forall|v: i64| found.contains(v) ==> g.nodes.contains(v),
                found.finite(),
                forall|v: i64| found.contains(v) ==> g.reachable(*src, v),
                forall|q: int|
                    0 <= q < stack@.len() ==> g.reachable(*src, g.nodes[#[trigger] stack@[q] as int]),
                forall|v: i64|
                    pending.contains(v) ==> exists|q: int|
                        0 <= q < stack@.len() && g.nodes[#[trigger] stack@[q] as int] == v,
                found.contains(*src) || pending.contains(*src),
                forall|k: int|
                    0 <= k < g.edges.len() && found.contains((#[trigger] g.edges[k]).0)
                        ==> found.contains(g.edges[k].1) || pending.contains(g.edges[k].1),
            decreases n - found.len(), stack@.len(),
        {
            proof {
                assert(found.subset_of(g.nodes.to_set()));
                lemma_len_subset(found, g.nodes.to_set());
            }
            let ghost old_stack = stack@;
            let u: usize = stack.pop().unwrap();
            proof {
                let top = g.nodes[u as int];
                assert(old_stack[old_stack.len() - 1] == u);
                assert forall|q: int| 0 <= q < stack@.len() implies g.reachable(
                    *src,
                    g.nodes[#[trigger] stack@[q] as int],
                ) by {
                    assert(stack@[q] == old_stack[q]);
                }
                assert forall|v: i64| pending.remove(top).contains(v) implies exists|q: int|
                    0 <= q < stack@.len() && g.nodes[#[trigger] stack@[q] as int] == v by {
                    let q = choose|q: int|
                        0 <= q < old_stack.len() && g.nodes[#[trigger] old_stack[q] as int] == v;
                    assert(q != old_stack.len() - 1);
                    assert(stack@[q] == old_stack[q]);
                }
                assert(g.reachable(*src, top));
                pending = pending.remove(top);
            }
            let ghost found_before = found;
            if !visited[u] {
                visited.set(u, true);
                proof {
                    found = found.insert(g.nodes[u as int]);
                    assert(found.len() == found_before.len() + 1);
                    assert forall|x: int| 0 <= x < n implies visited@[x] == found.contains(
                        #[trigger] g.nodes[x],
                    ) by {
                        if x != u {
                            assert(g.nodes[x] != g.nodes[u as int]);
                        }
                    }
                }
                let ghost found_now = found;
                let (lo, hi) = self.out_range(self.nodes[u]);
                let mut k: usize = lo;
                while k < hi
                    invariant
                        self.wf(),
                        g == self@,
                        found == found_now,
                        n == g.nodes.len(),
                        g.nodes.to_set().len() == n,
                        s < n,
                        g.nodes[s as int] == *src,
                        visited@.len() == n,
                        u < n,
                        found.contains(g.nodes[u as int]),
                        lo <= k <= hi <= g.edges.len(),
                        forall|kk: int| lo <= kk < hi ==> (#[trigger] g.edges[kk]).0 == g.nodes[u as int],
                        forall|kk: int|
                            0 <= kk < g.edges.len() && (#[trigger] g.edges[kk]).0 == g.nodes[u as int]
                                ==> lo <= kk < hi,
                        forall|q: int| 0 <= q < stack@.len() ==> #[trigger] stack@[q] < n,
                        forall|x: int| 0 <= x < n ==> visited@[x] == found.contains(#[trigger] g.nodes[x]),
                        forall|v: i64| found.contains(v) ==> g.nodes.contains(v),
                        found.finite(),
                        forall|v: i64| found.contains(v) ==> g.reachable(*src, v),
                        forall|q: int|
                            0 <= q < stack@.len() ==> g.reachable(*src, g.nodes[#[trigger] stack@[q] as int]),
                        forall|v: i64|
                            pending.contains(v) ==> exists|q: int|
                                0 <= q < stack@.len() && g.nodes[#[trigger] stack@[q] as int] == v,
                        found.contains(*src) || pending.contains(*src),
                        forall|kk: int|
                            0 <= kk < g.edges.len() && found.contains((#[trigger] g.edges[kk]).0)
                                && g.edges[kk].0 != g.nodes[u as int] ==> found.contains(g.edges[kk].1)
                                || pending.contains(g.edges[kk].1),
                        forall|kk: int|
                            lo <= kk < k ==> found.contains((#[trigger] g.edges[kk]).1)
                                || pending.contains(g.edges[kk].1),
                    decreases hi - k,
                {
                    let e: Edge = self.edges[k];
                    proof {
                        assert(g.edges[k as int] == e);
                        assert(g.edges.contains((e.0, e.1, e.2)));
                        assert(g.connected(e.0, e.1));
                        lemma_reach_step(g, *src, g.nodes[u as int], e.1);
                    }
                    let j: usize = self.index_of(e.1);
                    if !visited[j] {
                        let ghost before = stack@;
                        stack.push(j);
                        proof {
                            pending = pending.insert(e.1);
                            assert forall|q: int| 0 <= q < stack@.len() implies g.reachable(
                                *src,
                                g.nodes[#[trigger] stack@[q] as int],
                            ) by {
                                if q < before.len() {
                                    assert(stack@[q] == before[q]);
                                }
                            }
                            assert forall|v: i64| pending.contains(v) implies exists|q: int|
                                0 <= q < stack@.len() && g.nodes[#[trigger] stack@[q] as int] == v by {
                                if v == e.1 {
                                    assert(stack@[before.len() as int] == j);
                                } else {
                                    let q = choose|q: int|
                                        0 <= q < before.len() && g.nodes[#[trigger] before[q] as int] == v;
                                    assert(stack@[q] == before[q]);
                                }
                            }
                        }
                    }
                    k = k + 1;
                }
                proof {
                    assert(found.subset_of(g.nodes.to_set()));
                    lemma_len_subset(found, g.nodes.to_set());
                }
            }
        }
        proof {
            assert(!pending.contains(*src) || exists|q: int|
                0 <= q < stack@.len() && g.nodes[#[trigger] stack@[q] as int] == *src);
            assert forall|a: i64, b: i64| found.contains(a) && #[trigger] g.connected(a, b) implies found.contains(b) by {
                let w = choose|w: Option<u64>| g.edges.contains((a, b, w));
                let kk = choose|kk: int| 0 <= kk < g.edges.len() && g.edges[kk] == (a, b, w);
                assert(found.contains(g.edges[kk].0));
                if pending.contains(b) {
                    let q = choose|q: int|
                        0 <= q < stack@.len() && g.nodes[#[trigger] stack@[q] as int] == b;
                }
            }
            assert forall|t: i64| g.reachable(*src, t) implies found.contains(t) by {
                lemma_closed_holds_reachable(g, *src, found, t);
            }
        }
        let mut result: BTreeSet<i64> = BTreeSet::new();
        let mut x: usize = 0;
        while x < n
            invariant
                self.wf(),
                g == self@,
                n == g.nodes.len(),
                visited@.len() == n,
                x <= n,
                forall|y: int| 0 <= y < n ==> visited@[y] == found.contains(#[trigger] g.nodes[y]),
                forall|y: int| 0 <= y < n ==> (y < x && visited@[y]) == result@.contains(#[trigger] g.nodes[y]),
                forall|v: i64| result@.contains(v) ==> g.nodes.contains(v),
                forall|v: i64| found.contains(v) == g.reachable(*src, v),
                forall|v: i64| found.contains(v) ==> g.nodes.contains(v),
            decreases n - x,
        {
            if visited[x] {
                result.insert(self.nodes[x]);
                proof {
                    assert forall|y: int| 0 <= y < n implies (y < x + 1 && visited@[y])
                        == result@.contains(#[trigger] g.nodes[y]) by {
                        if y != x {
                            assert(g.nodes[y] != g.nodes[x as int]);
                        }
                    }
                }
            }
            x = x + 1;
        }
        proof {
            assert(result@ =~= g.reachable_from(*src)) by {
                assert forall|v: i64| result@.contains(v) implies g.reachable(*src, v) by {
                    assert(g.nodes.contains(v));
                    let y = choose|y: int| 0 <= y < g.nodes.len() && g.nodes[y] == v;
                    assert(result@.contains(g.nodes[y]));
                }
                assert forall|v: i64| g.reachable(*src, v) implies result@.contains(v) by {
                    assert(found.contains(v));
                    assert(g.nodes.contains(v));
                    let y = choose|y: int| 0 <= y < g.nodes.len() && g.nodes[y] == v;
                    assert(found.contains(g.nodes[y]));
                }
            }
        }
        Ok(result)
    }
}

} // verus!
