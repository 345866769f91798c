use vstd::prelude::*;
use crate::graph::{Edge, Graph, GraphModel};
use crate::paths::{count_false, edges_point_back, lemma_back_order_acyclic, lemma_count_false_mono};
use crate::paths::{lemma_closed_holds_reachable, lemma_reach_self, lemma_reach_step};

verus! {

/// The node values along a sequence of node positions.
pub open spec fn values_of(g: GraphModel, path: Seq<usize>) -> Seq<i64> {
    path.map_values(|x: usize| g.nodes[x as int])
}

/// The state of the three-colour search: `visited` and `on_stack` mark the
/// nodes, `path` lists the nodes on the stack from the root down, and `order`
/// lists the finished nodes, each after all the nodes its edges lead to.
pub open spec fn search_state(
    g: GraphModel,
    visited: Seq<bool>,
    on_stack: Seq<bool>,
    path: Seq<usize>,
    order: Seq<i64>,
) -> bool {
    &&& g.wf()
    &&& visited.len() == g.nodes.len()
    &&& on_stack.len() == g.nodes.len()
    &&& forall|q: int| 0 <= q < path.len() ==> #[trigger] path[q] < g.nodes.len()
    &&& forall|x: int| 0 <= x < g.nodes.len() ==> on_stack[x] == path.contains(x as usize)
    &&& forall|x: int| 0 <= x < g.nodes.len() && on_stack[x] ==> visited[x]
    &&& forall|q: int|
        0 <= q < path.len() - 1 ==> g.connected(
            g.nodes[#[trigger] path[q] as int],
            g.nodes[path[q + 1] as int],
        )
    &&& order.no_duplicates()
    &&& forall|x: int|
        0 <= x < g.nodes.len() ==> (visited[x] && !on_stack[x]) == order.contains(
            #[trigger] g.nodes[x],
        )
    &&& forall|v: i64| order.contains(v) ==> g.nodes.contains(v)
    &&& edges_point_back(g, order)
}

/// A frame of the explicit search stack: a node position, the next of its
/// edges to follow, and the end of its edges in the edge table.
pub type Frame = (usize, usize, usize);

/// The node positions on the search stack.
pub open spec fn frame_nodes(f: Seq<Frame>) -> Seq<usize> {
    f.map_values(|x: Frame| x.0)
}

/// The edges left to follow on the stack, plus one for each frame.
pub open spec fn frames_weight(f: Seq<Frame>) -> int
    decreases f.len(),
{
    if f.len() == 0 {
        0
    } else {
        frames_weight(f.drop_last()) + (f.last().2 - f.last().1) + 1
    }
}

/// Each frame's edges are the block ending at its end; the edges it has
/// followed lead to finished nodes, or to the node of the frame above it.
pub open spec fn frames_ok(g: GraphModel, f: Seq<Frame>, order: Seq<i64>) -> bool {
    &&& forall|i: int|
        0 <= i < f.len() ==> (#[trigger] f[i]).0 < g.nodes.len() && f[i].1 <= f[i].2 <= g.edges.len()
    &&& forall|i: int, kk: int|
        0 <= i < f.len() && 0 <= kk < g.edges.len() && (#[trigger] g.edges[kk]).0 == g.nodes[(
        #[trigger] f[i]).0 as int] ==> kk < f[i].2
    &&& forall|i: int, kk: int|
        0 <= i < f.len() && (#[trigger] f[i]).1 <= kk < f[i].2 ==> (#[trigger] g.edges[kk]).0
            == g.nodes[f[i].0 as int]
    &&& forall|i: int, kk: int|
        0 <= i < f.len() && 0 <= kk < (#[trigger] f[i]).1 && (#[trigger] g.edges[kk]).0 == g.nodes[f[i].0 as int]
            ==> order.contains(g.edges[kk].1) || (i + 1 < f.len() && g.edges[kk].1 == g.nodes[f[i
            + 1].0 as int])
}

proof fn lemma_frames_weight_nonneg(f: Seq<Frame>)
    requires
        forall|i: int| 0 <= i < f.len() ==> (#[trigger] f[i]).1 <= f[i].2,
    ensures
        frames_weight(f) >= 0,
    decreases f.len(),
{
    if f.len() > 0 {
        let d = f.drop_last();
        assert forall|i: int| 0 <= i < d.len() implies (#[trigger] d[i]).1 <= d[i].2 by {
            assert(d[i] == f[i]);
        }
        lemma_frames_weight_nonneg(d);
        assert(f[f.len() - 1].1 <= f[f.len() - 1].2);
    }
}

/// Following the top frame's next edge to a finished node.
proof fn lemma_frames_advance(g: GraphModel, f: Seq<Frame>, order: Seq<i64>)
    requires
        frames_ok(g, f, order),
        f.len() > 0,
        f.last().1 < f.last().2,
        order.contains(g.edges[f.last().1 as int].1),
    ensures
        frames_ok(g, f.update(f.len() - 1, (f.last().0, (f.last().1 + 1) as usize, f.last().2)), order),
{
    let t = f.len() - 1;
    let f1 = f.update(t, (f.last().0, (f.last().1 + 1) as usize, f.last().2));
    assert forall|i: int| 0 <= i < f1.len() implies (#[trigger] f1[i]).0 == f[i].0 && f1[i].2 == f[i].2
        && (i != t ==> f1[i] == f[i]) by {}
    assert forall|i: int, kk: int|
        0 <= i < f1.len() && 0 <= kk < (#[trigger] f1[i]).1 && (#[trigger] g.edges[kk]).0 == g.nodes[f1[i].0 as int]
            implies order.contains(g.edges[kk].1) || (i + 1 < f1.len() && g.edges[kk].1 == g.nodes[f1[i
            + 1].0 as int]) by {
        if i == t && kk == f[t].1 {
        } else {
            assert(kk < f[i].1);
            assert(f[i].0 == f1[i].0);
            if i + 1 < f1.len() {
                assert(f1[i + 1].0 == f[i + 1].0);
            }
        }
    }
    assert forall|i: int, kk: int|
        0 <= i < f1.len() && (#[trigger] f1[i]).1 <= kk < f1[i].2 implies (#[trigger] g.edges[kk]).0
            == g.nodes[f1[i].0 as int] by {
        assert(f[i].1 <= kk);
    }
}

/// Following the top frame's next edge to an unvisited node `j`, which gets a frame of its own.
proof fn lemma_frames_push(g: GraphModel, f: Seq<Frame>, order: Seq<i64>, j: usize, l2: usize, h2: usize)
    requires
        frames_ok(g, f, order),
        f.len() > 0,
        f.last().1 < f.last().2,
        j < g.nodes.len(),
        g.edges[f.last().1 as int].1 == g.nodes[j as int],
        l2 <= h2 <= g.edges.len(),
        forall|kk: int| 0 <= kk < g.edges.len() ==> ((#[trigger] g.edges[kk]).0 == g.nodes[j as int] <==> l2 <= kk < h2),
    ensures
        frames_ok(
            g,
            f.update(f.len() - 1, (f.last().0, (f.last().1 + 1) as usize, f.last().2)).push((j, l2, h2)),
            order,
        ),
{
    let t = f.len() - 1;
    let f1 = f.update(t, (f.last().0, (f.last().1 + 1) as usize, f.last().2));
    let f2 = f1.push((j, l2, h2));
    assert forall|i: int| 0 <= i < f.len() implies (#[trigger] f2[i]).0 == f[i].0 && f2[i].2 == f[i].2
        && (i != t ==> f2[i] == f[i]) && (i == t ==> f2[i].1 == f[i].1 + 1) by {}
    assert(f2[f.len() as int] == (j, l2, h2));
    assert forall|i: int| 0 <= i < f2.len() implies (#[trigger] f2[i]).0 < g.nodes.len() && f2[i].1 <= f2[i].2
        <= g.edges.len() by {}
    assert forall|i: int, kk: int|
        0 <= i < f2.len() && 0 <= kk < g.edges.len() && (#[trigger] g.edges[kk]).0 == g.nodes[(
        #[trigger] f2[i]).0 as int] implies kk < f2[i].2 by {
        if i < f.len() {
            assert(f[i].0 == f2[i].0);
        }
    }
    assert forall|i: int, kk: int|
        0 <= i < f2.len() && (#[trigger] f2[i]).1 <= kk < f2[i].2 implies (#[trigger] g.edges[kk]).0
            == g.nodes[f2[i].0 as int] by {
        if i < f.len() {
            assert(f[i].1 <= kk);
        }
    }
    assert forall|i: int, kk: int|
        0 <= i < f2.len() && 0 <= kk < (#[trigger] f2[i]).1 && (#[trigger] g.edges[kk]).0 == g.nodes[f2[i].0 as int]
            implies order.contains(g.edges[kk].1) || (i + 1 < f2.len() && g.edges[kk].1 == g.nodes[f2[i
            + 1].0 as int]) by {
        if i == f.len() {
            assert(l2 <= kk);
        } else if i == t && kk == f[t].1 {
        } else {
            assert(kk < f[i].1);
            if i + 1 < f.len() {
                assert(f2[i + 1].0 == f[i + 1].0);
            }
        }
    }
}

/// Popping a frame whose edges are all followed: its node is finished.
proof fn lemma_frames_pop(
    g: GraphModel,
    f: Seq<Frame>,
    order: Seq<i64>,
    visited: Seq<bool>,
    on_stack: Seq<bool>,
)
    requires
        search_state(g, visited, on_stack, frame_nodes(f), order),
        frame_nodes(f).no_duplicates(),
        frames_ok(g, f, order),
        f.len() > 0,
        f.last().1 == f.last().2,
        g.nodes.len() <= usize::MAX,
    ensures
        search_state(
            g,
            visited,
            on_stack.update(f.last().0 as int, false),
            frame_nodes(f.drop_last()),
            order.push(g.nodes[f.last().0 as int]),
        ),
        frame_nodes(f.drop_last()).no_duplicates(),
        frames_ok(g, f.drop_last(), order.push(g.nodes[f.last().0 as int])),
        frames_weight(f.drop_last()) < frames_weight(f),
{
    let n = g.nodes.len();
    let t = f.len() - 1;
    let u = f.last().0;
    let a = g.nodes[u as int];
    let f1 = f.drop_last();
    let path = frame_nodes(f);
    let path1 = frame_nodes(f1);
    let order1 = order.push(a);
    let on1 = on_stack.update(u as int, false);
    assert(path1 =~= path.drop_last());
    assert(path[t] == u);
    assert(!path1.contains(u)) by {
        if path1.contains(u) {
            let q = choose|q: int| 0 <= q < path1.len() && path1[q] == u;
            assert(path[q] == path[t]);
        }
    }
    assert(on_stack[u as int]);
    assert(!order.contains(a));
    assert forall|x: int| 0 <= x < n implies on1[x] == path1.contains(x as usize) by {
        if x != u {
            if path.contains(x as usize) {
                let q = choose|q: int| 0 <= q < path.len() && path[q] == x as usize;
                assert(x as usize != u);
                assert(q != t);
                assert(path1[q] == x as usize);
            }
            if path1.contains(x as usize) {
                let q = choose|q: int| 0 <= q < path1.len() && path1[q] == x as usize;
                assert(path[q] == x as usize);
            }
        }
    }
    assert forall|q: int| 0 <= q < path1.len() - 1 implies g.connected(
        g.nodes[#[trigger] path1[q] as int],
        g.nodes[path1[q + 1] as int],
    ) by {
        assert(path1[q] == path[q] && path1[q + 1] == path[q + 1]);
    }
    assert forall|q: int| 0 <= q < path1.len() implies #[trigger] path1[q] < n by {
        assert(path1[q] == path[q]);
    }
    assert forall|x: int| 0 <= x < n implies (visited[x] && !on1[x]) == order1.contains(
        #[trigger] g.nodes[x],
    ) by {
        if x != u {
            assert(g.nodes[x] != a);
            assert(order1.contains(g.nodes[x]) == order.contains(g.nodes[x])) by {
                if order1.contains(g.nodes[x]) {
                    let q = choose|q: int| 0 <= q < order1.len() && order1[q] == g.nodes[x];
                    assert(q < order.len());
                    assert(order[q] == g.nodes[x]);
                }
                if order.contains(g.nodes[x]) {
                    let q = choose|q: int| 0 <= q < order.len() && order[q] == g.nodes[x];
                    assert(order1[q] == g.nodes[x]);
                }
            }
        } else {
            assert(order1[order.len() as int] == a);
        }
    }
    assert forall|v: i64| order1.contains(v) implies g.nodes.contains(v) by {
        if v != a {
            let q = choose|q: int| 0 <= q < order1.len() && order1[q] == v;
            assert(q < order.len());
            assert(order[q] == v);
            assert(order.contains(v));
        } else {
            assert(g.nodes[u as int] == v);
        }
    }
    assert forall|v: i64| order.contains(v) implies order1.contains(v) by {
        let q = choose|q: int| 0 <= q < order.len() && order[q] == v;
        assert(order1[q] == v);
    }
    assert(edges_point_back(g, order1)) by {
        assert(order1.subrange(0, order.len() as int) =~= order);
        assert forall|i: int, kk: int|
            0 <= i < order1.len() && 0 <= kk < g.edges.len() && (#[trigger] g.edges[kk]).0
                == #[trigger] order1[i] implies order1.subrange(0, i).contains(g.edges[kk].1) by {
            if i < order.len() {
                assert(order1.subrange(0, i) =~= order.subrange(0, i));
                assert(order[i] == order1[i]);
            } else {
                assert(order1.subrange(0, i) =~= order);
                assert(g.edges[kk].0 == g.nodes[f[t].0 as int]);
                assert(kk < f[t].2);
            }
        }
    }
    assert forall|i: int| 0 <= i < f1.len() implies (#[trigger] f1[i]) == f[i] by {}
    assert forall|i: int, kk: int|
        0 <= i < f1.len() && 0 <= kk < (#[trigger] f1[i]).1 && (#[trigger] g.edges[kk]).0 == g.nodes[f1[i].0 as int]
            implies order1.contains(g.edges[kk].1) || (i + 1 < f1.len() && g.edges[kk].1 == g.nodes[f1[i
            + 1].0 as int]) by {
        assert(f1[i] == f[i]);
        if i + 1 < f1.len() {
            assert(f1[i + 1] == f[i + 1]);
        } else {
            assert(i + 1 == t);
            if g.edges[kk].1 == g.nodes[f[i + 1].0 as int] {
                assert(order1[order.len() as int] == a);
            }
        }
    }
    assert forall|i: int, kk: int|
        0 <= i < f1.len() && 0 <= kk < g.edges.len() && (#[trigger] g.edges[kk]).0 == g.nodes[(
        #[trigger] f1[i]).0 as int] implies kk < f1[i].2 by {
        assert(f1[i] == f[i]);
    }
    assert forall|i: int, kk: int|
        0 <= i < f1.len() && (#[trigger] f1[i]).1 <= kk < f1[i].2 implies (#[trigger] g.edges[kk]).0
            == g.nodes[f1[i].0 as int] by {
        assert(f1[i] == f[i]);
    }
    assert(order1.no_duplicates());
    assert(path1.no_duplicates()) by {
        assert forall|p: int, q: int| 0 <= p < q < path1.len() implies path1[p] != path1[q] by {
            assert(path1[p] == path[p] && path1[q] == path[q]);
        }
    }
}

impl Graph {
    /// Returns `true` if the graph has a cycle (a self-loop counts). Every node
    /// is a possible start, so disconnected parts are all searched.
    pub fn has_cycle(&self) -> (r: bool)
        requires
            self.wf(),
        ensures
            r == self@.has_cycle(),
    {
        let n: usize = self.nodes.len();
        let ghost g: GraphModel = self@;
        let mut visited: Vec<bool> = Vec::new();
        let mut on_stack: Vec<bool> = Vec::new();
        let mut i: usize = 0;
        while i < n
            invariant
                n == g.nodes.len(),
                i <= n,
                visited@.len() == i,
                on_stack@.len() == i,
                forall|x: int| 0 <= x < i ==> !visited@[x] && !on_stack@[x],
            decreases n - i,
        {
            visited.push(false);
            on_stack.push(false);
            i = i + 1;
        }
        let mut order: Ghost<Seq<i64>> = Ghost(Seq::empty());
        let ghost root: Seq<usize> = Seq::empty();
        let mut i: usize = 0;
        while i < n
            invariant
                self.wf(),
                g == self@,
                n == g.nodes.len(),
                i <= n,
                search_state(g, visited@, on_stack@, root, order@),
                root.len() == 0,
                forall|x: int| 0 <= x < i ==> visited@[x],
            decreases n - i,
        {
            if !visited[i] {
                if self.explore_for_cycle(i, &mut visited, &mut on_stack, &mut order) {
                    return true;
                }
            }
            i = i + 1;
        }
        proof {
            assert forall|v: i64| g.nodes.contains(v) implies order@.contains(v) by {
                let x = choose|x: int| 0 <= x < g.nodes.len() && g.nodes[x] == v;
                assert(visited@[x]);
                assert(!on_stack@[x]);
            }
            lemma_back_order_acyclic(g, order@);
        }
        false
    }

    /// Depth-first exploration from the unvisited node position `root` with an
    /// explicit stack of frames (node, next edge, end of its edges): returns
    /// `true` when an edge leads back to a node on the stack; otherwise leaves
    /// every node it reached finished and the stack empty.
    fn explore_for_cycle(
        &self,
        root: usize,
        visited: &mut Vec<bool>,
        on_stack: &mut Vec<bool>,
        order: &mut Ghost<Seq<i64>>,
    ) -> (r: bool)
        requires
            search_state(self@, old(visited)@, old(on_stack)@, Seq::empty(), old(order)@),
            root < self@.nodes.len(),
            !old(visited)@[root as int],
        ensures
            r ==> self@.has_cycle(),
            r ==> exists|c: i64| self@.reachable(self@.nodes[root as int], c) && self@.on_cycle(c),
            !r ==> search_state(self@, final(visited)@, final(on_stack)@, Seq::empty(), final(order)@),
            !r ==> final(visited)@[root as int],
            !r ==> forall|x: int|
                0 <= x < old(visited)@.len() ==> final(visited)@[x] == (old(visited)@[x] || self@.reachable(
                    self@.nodes[root as int],
                    self@.nodes[x],
                )),
            final(visited)@.len() == old(visited)@.len(),
            forall|x: int| 0 <= x < old(visited)@.len() && old(visited)@[x] ==> final(visited)@[x],
    {
        let ghost g: GraphModel = self@;
        let n: usize = self.nodes.len();
        let ghost visited0 = visited@;
        let ghost on_stack0 = on_stack@;
        visited.set(root, true);
        on_stack.set(root, true);
        let (lo, hi) = self.out_range(self.nodes[root]);
        let mut frames: Vec<(usize, usize, usize)> = Vec::new();
        frames.push((root, lo, hi));
        proof {
            let path = frame_nodes(frames@);
            assert(path =~= seq![root]);
            assert forall|x: int| 0 <= x < n implies on_stack@[x] == path.contains(x as usize) by {
                if x == root {
                    assert(path[0] == root);
                } else {
                    assert(!on_stack0[x]);
                }
            }
            assert forall|x: int| 0 <= x < n implies (visited@[x] && !on_stack@[x]) == order@.contains(
                #[trigger] g.nodes[x],
            ) by {
                if x == root {
                    assert(!(visited0[x] && !on_stack0[x]));
                }
            }
            lemma_count_false_mono(visited0, visited@);
            lemma_reach_self(g, g.nodes[root as int]);
            assert(path[0] == root);
        }
        loop
            invariant
                self.wf(),
                g == self@,
                n == g.nodes.len(),
                root < n,
                frames@.len() > 0,
                search_state(g, visited@, on_stack@, frame_nodes(frames@), order@),
                frame_nodes(frames@).no_duplicates(),
                frames_ok(g, frames@, order@),
                visited@[root as int],
                visited@.len() == visited0.len(),
                visited0 == old(visited)@,
                forall|x: int| 0 <= x < n && visited0[x] ==> visited@[x],
                0 <= count_false(visited@),
                forall|q: int|
                    0 <= q < frame_nodes(frames@).len() ==> g.reachable(
                        g.nodes[root as int],
                        g.nodes[#[trigger] frame_nodes(frames@)[q] as int],
                    ),
                forall|x: int|
                    0 <= x < n && #[trigger] visited@[x] && !visited0[x] ==> g.reachable(
                        g.nodes[root as int],
                        g.nodes[x],
                    ),
            decreases count_false(visited@), frames_weight(frames@),
        {
            let top: usize = frames.len() - 1;
            let (u, k, h) = frames[top];
            let ghost f0 = frames@;
            let ghost path0 = frame_nodes(f0);
            proof {
                lemma_frames_weight_nonneg(f0);
                assert(path0[top as int] == u);
            }
            if k < h {
                frames.set(top, (u, k + 1, h));
                proof {
                    let f1 = frames@;
                    assert(frame_nodes(f1) =~= path0);
                    assert(f1.drop_last() =~= f0.drop_last());
                    lemma_frames_weight_nonneg(f1);
                    assert(frames_weight(f1) == frames_weight(f0) - 1);
                }
                let e: Edge = self.edges[k];
                proof {
                    assert(g.edges[k as int] == e);
                    assert(g.nodes.contains(g.edges[k as int].0));
                    assert(e.0 == g.nodes[u as int]);
                    assert(g.edges.contains((e.0, e.1, e.2)));
                    assert(g.connected(g.nodes[u as int], e.1));
                }
                let j: usize = self.index_of(e.1);
                if on_stack[j] {
                    proof {
                        let path = path0;
                        assert(path.contains(j));
                        let p = choose|p: int| 0 <= p < path.len() && path[p] == j;
                        let cyc = values_of(g, path.subrange(p, path.len() as int)).push(g.nodes[j as int]);
                        assert forall|i: int| 0 <= i < cyc.len() - 1 implies #[trigger] g.connected(
                            cyc[i],
                            cyc[i + 1],
                        ) by {
                            if i < cyc.len() - 2 {
                                assert(g.connected(
                                    g.nodes[path[p + i] as int],
                                    g.nodes[path[p + i + 1] as int],
                                ));
                            } else {
                                assert(cyc[i] == g.nodes[u as int]);
                            }
                        }
                        assert(g.nodes.contains(cyc[0]));
                        assert(g.is_walk(cyc) && cyc.len() >= 2 && cyc[0] == cyc.last());
                        assert(cyc[0] == g.nodes[j as int]);
                        assert(g.on_cycle(g.nodes[j as int]));
                        assert(g.reachable(g.nodes[root as int], g.nodes[path[p] as int]));
                    }
                    return true;
                }
                if !visited[j] {
                    let ghost visited1 = visited@;
                    let ghost on_stack1 = on_stack@;
                    visited.set(j, true);
                    on_stack.set(j, true);
                    let (l2, h2) = self.out_range(self.nodes[j]);
                    frames.push((j, l2, h2));
                    proof {
                        lemma_count_false_mono(visited1, visited@);
                        let f2 = frames@;
                        let path2 = frame_nodes(f2);
                        assert(path2 =~= path0.push(j));
                        assert forall|x: int| 0 <= x < n implies on_stack@[x] == path2.contains(x as usize) by {
                            if x == j {
                                assert(path2[path0.len() as int] == j);
                            } else {
                                if path0.contains(x as usize) {
                                    let q = choose|q: int| 0 <= q < path0.len() && path0[q] == x as usize;
                                    assert(path2[q] == x as usize);
                                }
                                if path2.contains(x as usize) {
                                    let q = choose|q: int| 0 <= q < path2.len() && path2[q] == x as usize;
                                    if q < path0.len() {
                                        assert(path0[q] == x as usize);
                                    }
                                }
                            }
                        }
                        assert forall|q: int| 0 <= q < path2.len() - 1 implies g.connected(
                            g.nodes[#[trigger] path2[q] as int],
                            g.nodes[path2[q + 1] as int],
                        ) by {
                            if q < path0.len() - 1 {
                                assert(path2[q] == path0[q] && path2[q + 1] == path0[q + 1]);
                            } else {
                                assert(path2[q] == u && path2[q + 1] == j);
                            }
                        }
                        assert forall|x: int| 0 <= x < n implies (visited@[x] && !on_stack@[x]) == order@.contains(
                            #[trigger] g.nodes[x],
                        ) by {
                            if x == j {
                                assert(!(visited1[x] && !on_stack1[x]));
                            }
                        }
                        assert forall|q: int| 0 <= q < path2.len() implies #[trigger] path2[q] < n by {
                            if q < path0.len() {
                                assert(path2[q] == path0[q]);
                            }
                        }
                        lemma_frames_push(g, f0, order@, j, l2, h2);
                        assert(g.reachable(g.nodes[root as int], g.nodes[path0[top as int] as int]));
                        lemma_reach_step(g, g.nodes[root as int], g.nodes[u as int], e.1);
                        assert forall|q: int| 0 <= q < path2.len() implies g.reachable(
                            g.nodes[root as int],
                            g.nodes[#[trigger] path2[q] as int],
                        ) by {
                            if q < path0.len() {
                                assert(path2[q] == path0[q]);
                            }
                        }
                        assert forall|x: int|
                            0 <= x < n && #[trigger] visited@[x] && !visited0[x] implies g.reachable(
                                g.nodes[root as int],
                                g.nodes[x],
                            ) by {
                            if x != j {
                                assert(visited1[x]);
                            }
                        }
                    }
                } else {
                    proof {
                        assert(visited@[j as int] && !on_stack@[j as int]);
                        assert(order@.contains(g.nodes[j as int]));
                        lemma_frames_advance(g, f0, order@);
                    }
                }
            } else {
                let ghost order0 = order@;
                let ghost on_stack0b = on_stack@;
                frames.pop();
                on_stack.set(u, false);
                proof {
                    assert(frames@ =~= f0.drop_last());
                    lemma_frames_pop(g, f0, order0, visited@, on_stack0b);
                    *order = Ghost(order0.push(g.nodes[u as int]));
                    lemma_frames_weight_nonneg(frames@);
                    let path1 = frame_nodes(frames@);
                    assert forall|q: int| 0 <= q < path1.len() implies g.reachable(
                        g.nodes[root as int],
                        g.nodes[#[trigger] path1[q] as int],
                    ) by {
                        assert(path1[q] == path0[q]);
                    }
                }
                if frames.len() == 0 {
                    proof {
                        let rv = g.nodes[root as int];
                        let ord = order@;
                        let done = Set::new(|v: i64| ord.contains(v));
                        assert(frame_nodes(frames@).len() == 0);
                        assert(!on_stack@[root as int]) by {
                            if on_stack@[root as int] {
                                assert(frame_nodes(frames@).contains(root));
                            }
                        }
                        assert(done.contains(rv));
                        assert forall|a: i64, b: i64| done.contains(a) && #[trigger] g.connected(a, b)
                            implies done.contains(b) by {
                            let i = choose|i: int| 0 <= i < ord.len() && ord[i] == a;
                            let w = choose|w: Option<u64>| g.edges.contains((a, b, w));
                            let kk = choose|kk: int| 0 <= kk < g.edges.len() && g.edges[kk] == (a, b, w);
                            assert(g.edges[kk].0 == ord[i]);
                            assert(ord.subrange(0, i).contains(b));
                            let q = choose|q: int| 0 <= q < i && ord.subrange(0, i)[q] == b;
                            assert(ord[q] == b);
                        }
                        assert forall|x: int|
                            0 <= x < visited0.len() implies visited@[x] == (visited0[x] || g.reachable(
                                rv,
                                g.nodes[x],
                            )) by {
                            if g.reachable(rv, g.nodes[x]) {
                                lemma_closed_holds_reachable(g, rv, done, g.nodes[x]);
                                assert(ord.contains(g.nodes[x]));
                            }
                            if visited@[x] && !visited0[x] {
                                assert(g.reachable(rv, g.nodes[x]));
                            }
                        }
                    }
                    return false;
                }
            }
        }
    }
}

} // verus!
