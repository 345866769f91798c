use vstd::prelude::*;
use std::collections::HashMap;
use crate::graph::{Edge, Graph, GraphError, GraphModel};
use crate::heap::{Entry, MinQueue};
use crate::paths::{lemma_reach_self, lemma_reach_step};
use crate::paths::{count_false, lemma_count_false_len, lemma_count_false_mono, pos_of};

verus! {

broadcast use {vstd::std_specs::hash::group_hash_axioms, vstd::multiset::group_multiset_axioms};

/// The length an edge counts for: its weight, or `default_weight` when it has none.
pub open spec fn weight_of(w: Option<u64>, default_weight: u64) -> int {
    match w {
        Some(x) => x as int,
        None => default_weight as int,
    }
}

/// `es` is a walk along edges of `g` from node `s` to `t` (the empty walk
/// stays at `s`).
pub open spec fn is_edge_walk(g: GraphModel, es: Seq<Edge>, s: i64, t: i64) -> bool {
    &&& g.nodes.contains(s)
    &&& forall|i: int| 0 <= i < es.len() ==> g.edges.contains(#[trigger] es[i])
    &&& forall|i: int| 0 <= i < es.len() - 1 ==> (#[trigger] es[i]).1 == es[i + 1].0
    &&& es.len() == 0 ==> s == t
    &&& es.len() > 0 ==> es[0].0 == s && es.last().1 == t
}

/// The total length of a walk.
pub open spec fn walk_weight(es: Seq<Edge>, default_weight: u64) -> int
    decreases es.len(),
{
    if es.len() == 0 {
        0
    } else {
        walk_weight(es.drop_last(), default_weight) + weight_of(es.last().2, default_weight)
    }
}

/// The largest weight an edge can count for.
pub open spec fn max_weight() -> int {
    0xFFFF_FFFF_FFFF_FFFFint
}

proof fn lemma_walk_push(g: GraphModel, es: Seq<Edge>, s: i64, a: i64, e: Edge, dw: u64)
    requires
        is_edge_walk(g, es, s, a),
        g.edges.contains(e),
        e.0 == a,
    ensures
        is_edge_walk(g, es.push(e), s, e.1),
        walk_weight(es.push(e), dw) == walk_weight(es, dw) + weight_of(e.2, dw),
{
    assert(es.push(e).drop_last() =~= es);
    let t = es.push(e);
    assert forall|i: int| 0 <= i < t.len() - 1 implies (#[trigger] t[i]).1 == t[i + 1].0 by {
        if i < es.len() - 1 {
            assert(t[i] == es[i] && t[i + 1] == es[i + 1]);
        }
    }
}

/// Where every edge out of a node of `dist` leads into `dist` no longer than
/// through that node, no walk from `s` is shorter than what `dist` holds.
pub proof fn lemma_no_shorter_walk(
    g: GraphModel,
    dist: Map<i64, u128>,
    s: i64,
    zero: u64,
    dw: u64,
    es: Seq<Edge>,
    t: i64,
)
    requires
        dist.contains_key(s),
        dist[s] == zero,
        forall|e: Edge|
            #[trigger] g.edges.contains(e) && dist.contains_key(e.0) ==> dist.contains_key(e.1)
                && dist[e.1] <= dist[e.0] + weight_of(e.2, dw),
        is_edge_walk(g, es, s, t),
    ensures
        dist.contains_key(t),
        dist[t] <= zero + walk_weight(es, dw),
    decreases es.len(),
{
    if es.len() > 0 {
        let init = es.drop_last();
        let e = es.last();
        let a = if init.len() == 0 {
            s
        } else {
            init.last().1
        };
        assert(is_edge_walk(g, init, s, a)) by {
            if init.len() > 0 {
                assert forall|i: int| 0 <= i < init.len() - 1 implies (#[trigger] init[i]).1 == init[
                    i + 1].0 by {
                    assert(init[i] == es[i] && init[i + 1] == es[i + 1]);
                }
                assert(init[0] == es[0]);
            }
        }
        lemma_no_shorter_walk(g, dist, s, zero, dw, init, a);
        if init.len() > 0 {
            assert(es[init.len() - 1].1 == es[init.len() as int].0);
        }
        assert(g.edges.contains(es[es.len() - 1]));
    }
}

/// An edge walk from `s` to `t` makes `t` reachable from `s`.
pub proof fn lemma_edge_walk_reaches(g: GraphModel, es: Seq<Edge>, s: i64, t: i64)
    requires
        g.wf(),
        is_edge_walk(g, es, s, t),
    ensures
        g.reachable(s, t),
    decreases es.len(),
{
    if es.len() == 0 {
        lemma_reach_self(g, s);
    } else {
        let init = es.drop_last();
        let e = es.last();
        let a = if init.len() == 0 {
            s
        } else {
            init.last().1
        };
        assert(is_edge_walk(g, init, s, a)) by {
            if init.len() > 0 {
                assert forall|i: int| 0 <= i < init.len() - 1 implies (#[trigger] init[i]).1 == init[
                    i + 1].0 by {
                    assert(init[i] == es[i] && init[i + 1] == es[i + 1]);
                }
                assert(init[0] == es[0]);
            }
        }
        lemma_edge_walk_reaches(g, init, s, a);
        if init.len() > 0 {
            assert(es[init.len() - 1].1 == es[init.len() as int].0);
        }
        assert(g.edges.contains(es[es.len() - 1]));
        assert(g.edges.contains((a, t, e.2)));
        lemma_reach_step(g, s, a, t);
    }
}

proof fn lemma_walk_prefix_has_edge_walk(g: GraphModel, p: Seq<i64>, i: int) -> (es: Seq<Edge>)
    requires
        g.is_walk(p),
        0 <= i < p.len(),
    ensures
        is_edge_walk(g, es, p[0], p[i]),
    decreases i,
{
    if i == 0 {
        Seq::empty()
    } else {
        let init = lemma_walk_prefix_has_edge_walk(g, p, i - 1);
        let a = p[i - 1];
        let b = p[i];
        assert(g.connected(p[i - 1], p[(i - 1) + 1]));
        assert(g.connected(a, b));
        let w = choose|w: Option<u64>| #[trigger] g.edges.contains((a, b, w));
        lemma_walk_push(g, init, p[0], a, (a, b, w), 0);
        init.push((a, b, w))
    }
}

/// A node reachable from `s` is the end of an edge walk from `s`.
pub proof fn lemma_reachable_has_edge_walk(g: GraphModel, s: i64, t: i64)
    requires
        g.reachable(s, t),
    ensures
        exists|es: Seq<Edge>| is_edge_walk(g, es, s, t),
{
    let p = choose|p: Seq<i64>| g.is_walk(p) && p[0] == s && p.last() == t;
    let es = lemma_walk_prefix_has_edge_walk(g, p, p.len() - 1);
    assert(is_edge_walk(g, es, s, t));
}

proof fn lemma_pos_of_index(g: GraphModel, i: int)
    requires
        g.wf(),
        0 <= i < g.nodes.len(),
    ensures
        pos_of(g.nodes, g.nodes[i]) == i,
{
    let j = pos_of(g.nodes, g.nodes[i]);
    assert(0 <= j < g.nodes.len() && g.nodes[j] == g.nodes[i]);
    if j < i {
        assert(g.nodes[j] < g.nodes[i]);
    } else if j > i {
        assert(g.nodes[i] < g.nodes[j]);
    }
}

/// Each reached node has a recorded walk from the source whose length is its distance.
#[verifier::opaque]
pub open spec fn walks_ok(
    g: GraphModel,
    s: int,
    zero: u64,
    dw: u64,
    dist: Seq<Option<u128>>,
    walks: Map<int, Seq<Edge>>,
) -> bool {
    forall|x: int|
        0 <= x < g.nodes.len() && #[trigger] dist[x] is Some ==> walks.contains_key(x)
            && is_edge_walk(g, walks[x], g.nodes[s], g.nodes[x]) && dist[x]->0 == zero
            + walk_weight(walks[x], dw)
}

/// Each reached node but the source has a settled predecessor whose distance
/// plus an edge's length gives its own.
#[verifier::opaque]
pub open spec fn preds_ok(
    g: GraphModel,
    s: int,
    dw: u64,
    dist: Seq<Option<u128>>,
    pred: Seq<Option<usize>>,
    done: Seq<bool>,
) -> bool {
    forall|x: int|
        0 <= x < g.nodes.len() && x != s && #[trigger] dist[x] is Some ==> pred[x] is Some
            && pred[x]->0 < g.nodes.len() && done[pred[x]->0 as int] && exists|w: Option<u64>|
            g.edges.contains((g.nodes[pred[x]->0 as int], g.nodes[x], w)) && dist[x]->0
                == dist[pred[x]->0 as int]->0 + weight_of(w, dw)
}

/// Every edge out of a settled node other than `except` reaches a node no
/// farther than through it.
#[verifier::opaque]
pub open spec fn relaxed(
    g: GraphModel,
    dw: u64,
    dist: Seq<Option<u128>>,
    done: Seq<bool>,
    except: int,
) -> bool {
    forall|x: int, kk: int|
        0 <= x < g.nodes.len() && 0 <= kk < g.edges.len() && x != except && #[trigger] done[x]
            && (#[trigger] g.edges[kk]).0 == g.nodes[x] ==> dist[pos_of(g.nodes, g.edges[kk].1)] is Some
            && dist[pos_of(g.nodes, g.edges[kk].1)]->0 <= dist[x]->0 + weight_of(g.edges[kk].2, dw)
}

/// Every distance is at most `bound`.
#[verifier::opaque]
pub open spec fn bounded(n: nat, dist: Seq<Option<u128>>, bound: int) -> bool {
    forall|x: int| 0 <= x < n && #[trigger] dist[x] is Some ==> dist[x]->0 <= bound
}

/// What the shortest-path search keeps between rounds, over node positions:
/// tentative distances, predecessors, the settled nodes, and for each reached
/// node a walk from the source that has its distance.
pub open spec fn search_invariant(
    g: GraphModel,
    s: int,
    zero: u64,
    dw: u64,
    dist: Seq<Option<u128>>,
    pred: Seq<Option<usize>>,
    done: Seq<bool>,
    walks: Map<int, Seq<Edge>>,
) -> bool {
    let n = g.nodes.len();
    &&& g.wf()
    &&& 0 <= s < n
    &&& dist.len() == n
    &&& pred.len() == n
    &&& done.len() == n
    &&& dist[s] == Some(zero as u128)
    &&& pred[s] is None
    &&& 0 <= count_false(done) <= n
    &&& forall|x: int| 0 <= x < n && x != s && #[trigger] dist[x] is Some ==> done[s]
    &&& forall|x: int| 0 <= x < n && #[trigger] done[x] ==> dist[x] is Some
    &&& forall|x: int, y: int|
        0 <= x < n && 0 <= y < n && #[trigger] done[x] && !#[trigger] done[y] && dist[y] is Some
            ==> dist[x]->0 <= dist[y]->0
    &&& relaxed(g, dw, dist, done, -1)
    &&& walks_ok(g, s, zero, dw, dist, walks)
    &&& preds_ok(g, s, dw, dist, pred, done)
    &&& bounded(n, dist, zero + (n - count_false(done)) * max_weight())
}

/// The state while the edges of the newly settled node `u` (at distance `du`)
/// are relaxed: the edges in `[lo, k)` have been handled.
pub open spec fn relax_state(
    g: GraphModel,
    s: int,
    zero: u64,
    dw: u64,
    u: int,
    du: u128,
    done0: Seq<bool>,
    lo: int,
    hi: int,
    k: int,
    dist: Seq<Option<u128>>,
    pred: Seq<Option<usize>>,
    done: Seq<bool>,
    walks: Map<int, Seq<Edge>>,
) -> bool {
    let n = g.nodes.len();
    &&& g.wf()
    &&& n <= usize::MAX
    &&& 0 <= s < n
    &&& 0 <= u < n
    &&& dist.len() == n
    &&& pred.len() == n
    &&& done0.len() == n
    &&& done == done0.update(u, true)
    &&& !done0[u]
    &&& 0 <= count_false(done) <= count_false(done0) - 1
    &&& dist[u] == Some(du)
    &&& dist[s] == Some(zero as u128)
    &&& pred[s] is None
    &&& done[s]
    &&& du <= zero + (n - count_false(done0)) * max_weight()
    &&& forall|x: int| 0 <= x < n && #[trigger] done[x] ==> dist[x] is Some && dist[x]->0 <= du
    &&& forall|x: int| 0 <= x < n && !done[x] && #[trigger] dist[x] is Some ==> du <= dist[x]->0
    &&& relaxed(g, dw, dist, done, u)
    &&& walks_ok(g, s, zero, dw, dist, walks)
    &&& preds_ok(g, s, dw, dist, pred, done)
    &&& bounded(n, dist, zero + (n - count_false(done0) + 1) * max_weight())
    &&& 0 <= lo <= k <= hi <= g.edges.len()
    &&& forall|kk: int|
        0 <= kk < g.edges.len() ==> ((#[trigger] g.edges[kk]).0 == g.nodes[u] <==> lo <= kk < hi)
    &&& forall|kk: int|
        lo <= kk < k ==> dist[pos_of(g.nodes, (#[trigger] g.edges[kk]).1)] is Some && dist[pos_of(
            g.nodes,
            g.edges[kk].1,
        )]->0 <= du + weight_of(g.edges[kk].2, dw)
}

/// Settling `u`, the unsettled reached node nearest the source, starts its relaxation.
proof fn lemma_relax_start(
    g: GraphModel,
    s: int,
    zero: u64,
    dw: u64,
    u: int,
    dist: Seq<Option<u128>>,
    pred: Seq<Option<usize>>,
    done0: Seq<bool>,
    walks: Map<int, Seq<Edge>>,
    lo: int,
    hi: int,
)
    requires
        search_invariant(g, s, zero, dw, dist, pred, done0, walks),
        0 <= u < g.nodes.len(),
        !done0[u],
        dist[u] is Some,
        forall|y: int|
            0 <= y < g.nodes.len() && !done0[y] && #[trigger] dist[y] is Some ==> dist[u]->0
                <= dist[y]->0,
        0 <= lo <= hi <= g.edges.len(),
        forall|kk: int|
            0 <= kk < g.edges.len() ==> ((#[trigger] g.edges[kk]).0 == g.nodes[u] <==> lo <= kk < hi),
        g.nodes.len() <= usize::MAX,
    ensures
        relax_state(
            g,
            s,
            zero,
            dw,
            u,
            dist[u]->0,
            done0,
            lo,
            hi,
            lo,
            dist,
            pred,
            done0.update(u, true),
            walks,
        ),
        dist[u]->0 + max_weight() < 0x1_0000_0000_0000_0000_0000_0000_0000_0000int,
{
    let n = g.nodes.len();
    let done = done0.update(u, true);
    lemma_count_false_mono(done0, done);
    let du = dist[u]->0;
    let b0 = zero + (n - count_false(done0)) * max_weight();
    let b1 = zero + (n - count_false(done0) + 1) * max_weight();
    assert(du <= b0) by {
        reveal(bounded);
    }
    assert(b0 + max_weight() < 0x1_0000_0000_0000_0000_0000_0000_0000_0000int) by (nonlinear_arith)
        requires
            b0 == zero + (n - count_false(done0)) * max_weight(),
            0 <= count_false(done0),
            n <= 0xFFFF_FFFF_FFFF_FFFFint,
            zero <= 0xFFFF_FFFF_FFFF_FFFFint,
            max_weight() == 0xFFFF_FFFF_FFFF_FFFFint,
    ;
    assert(b0 <= b1) by (nonlinear_arith)
        requires
            b0 == zero + (n - count_false(done0)) * max_weight(),
            b1 == zero + (n - count_false(done0) + 1) * max_weight(),
            max_weight() >= 0,
    ;
    assert(bounded(n, dist, b1)) by {
        reveal(bounded);
    }
    assert(relaxed(g, dw, dist, done, u)) by {
        reveal(relaxed);
        assert forall|x: int, kk: int|
            0 <= x < n && 0 <= kk < g.edges.len() && x != u && #[trigger] done[x] && (#[trigger] g.edges[kk]).0
                == g.nodes[x] implies dist[pos_of(g.nodes, g.edges[kk].1)] is Some && dist[pos_of(
                g.nodes,
                g.edges[kk].1,
            )]->0 <= dist[x]->0 + weight_of(g.edges[kk].2, dw) by {
            assert(done0[x]);
        }
    }
    assert(preds_ok(g, s, dw, dist, pred, done)) by {
        reveal(preds_ok);
        assert forall|x: int|
            0 <= x < n && x != s && #[trigger] dist[x] is Some implies pred[x] is Some && pred[x]->0 < n
                && done[pred[x]->0 as int] && exists|w: Option<u64>|
                g.edges.contains((g.nodes[pred[x]->0 as int], g.nodes[x], w)) && dist[x]->0
                    == dist[pred[x]->0 as int]->0 + weight_of(w, dw) by {
            assert(done0[pred[x]->0 as int]);
        }
    }
    assert forall|x: int| 0 <= x < n && #[trigger] done[x] implies dist[x] is Some && dist[x]->0 <= du by {
        if x != u {
            assert(done0[x]);
        }
    }
    assert(done[s]) by {
        if u != s {
            assert(dist[u] is Some);
        }
    }
}

proof fn lemma_walks_improve(
    g: GraphModel,
    s: int,
    zero: u64,
    dw: u64,
    dist: Seq<Option<u128>>,
    walks: Map<int, Seq<Edge>>,
    u: int,
    j: int,
    e: Edge,
    nd: u128,
)
    requires
        walks_ok(g, s, zero, dw, dist, walks),
        dist.len() == g.nodes.len(),
        0 <= s < g.nodes.len(),
        0 <= u < g.nodes.len(),
        0 <= j < g.nodes.len(),
        dist[u] is Some,
        g.edges.contains(e),
        e.0 == g.nodes[u],
        e.1 == g.nodes[j],
        nd == dist[u]->0 + weight_of(e.2, dw),
    ensures
        walks_ok(g, s, zero, dw, dist.update(j, Some(nd)), walks.insert(j, walks[u].push(e))),
{
    reveal(walks_ok);
    let dist2 = dist.update(j, Some(nd));
    let walks2 = walks.insert(j, walks[u].push(e));
    lemma_walk_push(g, walks[u], g.nodes[s], g.nodes[u], e, dw);
    assert forall|x: int| 0 <= x < g.nodes.len() && #[trigger] dist2[x] is Some implies walks2.contains_key(x)
        && is_edge_walk(g, walks2[x], g.nodes[s], g.nodes[x]) && dist2[x]->0 == zero + walk_weight(
        walks2[x],
        dw,
    ) by {
        if x != j {
            assert(dist[x] is Some);
        }
    }
}

proof fn lemma_preds_improve(
    g: GraphModel,
    s: int,
    dw: u64,
    dist: Seq<Option<u128>>,
    pred: Seq<Option<usize>>,
    done: Seq<bool>,
    u: int,
    j: int,
    e: Edge,
    nd: u128,
)
    requires
        preds_ok(g, s, dw, dist, pred, done),
        g.nodes.len() <= usize::MAX,
        dist.len() == g.nodes.len(),
        pred.len() == g.nodes.len(),
        done.len() == g.nodes.len(),
        0 <= u < g.nodes.len(),
        0 <= j < g.nodes.len(),
        u != j,
        done[u],
        !done[j],
        dist[u] is Some,
        g.edges.contains(e),
        e.0 == g.nodes[u],
        e.1 == g.nodes[j],
        nd == dist[u]->0 + weight_of(e.2, dw),
    ensures
        preds_ok(g, s, dw, dist.update(j, Some(nd)), pred.update(j, Some(u as usize)), done),
{
    reveal(preds_ok);
    let n = g.nodes.len();
    let dist2 = dist.update(j, Some(nd));
    let pred2 = pred.update(j, Some(u as usize));
    assert forall|x: int|
        0 <= x < n && x != s && #[trigger] dist2[x] is Some implies pred2[x] is Some && pred2[x]->0 < n
            && done[pred2[x]->0 as int] && exists|w: Option<u64>|
            g.edges.contains((g.nodes[pred2[x]->0 as int], g.nodes[x], w)) && dist2[x]->0
                == dist2[pred2[x]->0 as int]->0 + weight_of(w, dw) by {
        if x == j {
            assert((g.nodes[u], g.nodes[x], e.2) == e);
            assert(dist2[u] == dist[u]);
            assert(g.edges.contains((g.nodes[u], g.nodes[x], e.2)) && dist2[x]->0 == dist2[u]->0
                + weight_of(e.2, dw));
        } else {
            assert(dist[x] is Some);
            let p = pred[x]->0;
            assert(done[p as int]);
            assert(p != j);
            assert(dist2[p as int] == dist[p as int]);
            let w2 = choose|w2: Option<u64>|
                g.edges.contains((g.nodes[p as int], g.nodes[x], w2)) && dist[x]->0 == dist[p as int]->0
                    + weight_of(w2, dw);
            assert(g.edges.contains((g.nodes[p as int], g.nodes[x], w2)) && dist2[x]->0
                == dist2[p as int]->0 + weight_of(w2, dw));
        }
    }
}

proof fn lemma_relaxed_improve(
    g: GraphModel,
    dw: u64,
    dist: Seq<Option<u128>>,
    done: Seq<bool>,
    u: int,
    j: int,
    nd: u128,
)
    requires
        relaxed(g, dw, dist, done, u),
        g.wf(),
        dist.len() == g.nodes.len(),
        done.len() == g.nodes.len(),
        0 <= j < g.nodes.len(),
        !done[j],
        dist[j] is None || nd < dist[j]->0,
    ensures
        relaxed(g, dw, dist.update(j, Some(nd)), done, u),
{
    reveal(relaxed);
    let n = g.nodes.len();
    let dist2 = dist.update(j, Some(nd));
    assert forall|x: int, kk: int|
        0 <= x < n && 0 <= kk < g.edges.len() && x != u && #[trigger] done[x] && (#[trigger] g.edges[kk]).0
            == g.nodes[x] implies dist2[pos_of(g.nodes, g.edges[kk].1)] is Some && dist2[pos_of(
            g.nodes,
            g.edges[kk].1,
        )]->0 <= dist2[x]->0 + weight_of(g.edges[kk].2, dw) by {
        assert(x != j);
        assert(g.nodes.contains(g.edges[kk].1));
        let t = pos_of(g.nodes, g.edges[kk].1);
        assert(0 <= t < n);
        assert(dist[t] is Some);
        assert(dist2[x] == dist[x]);
        if t != j {
            assert(dist2[t] == dist[t]);
        }
    }
}

proof fn lemma_bounded_improve(n: nat, dist: Seq<Option<u128>>, b: int, j: int, nd: u128)
    requires
        bounded(n, dist, b),
        dist.len() == n,
        0 <= j < n,
        nd <= b,
    ensures
        bounded(n, dist.update(j, Some(nd)), b),
{
    reveal(bounded);
    let dist2 = dist.update(j, Some(nd));
    assert forall|x: int| 0 <= x < n && #[trigger] dist2[x] is Some implies dist2[x]->0 <= b by {
        if x != j {
            assert(dist2[x] == dist[x]);
            assert(dist[x] is Some);
        }
    }
}

/// Relaxing edge `k` of `u` when it gives its destination `j` a shorter distance.
proof fn lemma_relax_improve(
    g: GraphModel,
    s: int,
    zero: u64,
    dw: u64,
    u: int,
    du: u128,
    done0: Seq<bool>,
    lo: int,
    hi: int,
    k: int,
    dist: Seq<Option<u128>>,
    pred: Seq<Option<usize>>,
    done: Seq<bool>,
    walks: Map<int, Seq<Edge>>,
    j: int,
    nd: u128,
)
    requires
        relax_state(g, s, zero, dw, u, du, done0, lo, hi, k, dist, pred, done, walks),
        k < hi,
        0 <= j < g.nodes.len(),
        g.nodes[j] == g.edges[k].1,
        pos_of(g.nodes, g.edges[k].1) == j,
        nd == du + weight_of(g.edges[k].2, dw),
        dist[j] is None || nd < dist[j]->0,
    ensures
        relax_state(
            g,
            s,
            zero,
            dw,
            u,
            du,
            done0,
            lo,
            hi,
            k + 1,
            dist.update(j, Some(nd)),
            pred.update(j, Some(u as usize)),
            done,
            walks.insert(j, walks[u].push(g.edges[k])),
        ),
{
    let n = g.nodes.len();
    let e = g.edges[k];
    let dist2 = dist.update(j, Some(nd));
    let pred2 = pred.update(j, Some(u as usize));
    let walks2 = walks.insert(j, walks[u].push(e));
    assert(g.edges.contains(e));
    assert(e.0 == g.nodes[u]);
    assert(!done[j]) by {
        if done[j] {
            assert(dist[j]->0 <= du);
        }
    }
    assert(j != u);
    assert(j != s) by {
        if j == s {
            assert(done[u]);
        }
    }
    assert(dist[u] is Some);
    lemma_walks_improve(g, s, zero, dw, dist, walks, u, j, e, nd);
    lemma_preds_improve(g, s, dw, dist, pred, done, u, j, e, nd);
    lemma_relaxed_improve(g, dw, dist, done, u, j, nd);
    assert((n - count_false(done0) + 1) * max_weight() == (n - count_false(done0)) * max_weight()
        + max_weight()) by (nonlinear_arith);
    lemma_bounded_improve(n, dist, zero + (n - count_false(done0) + 1) * max_weight(), j, nd);
    assert forall|kk: int|
        lo <= kk < k + 1 implies dist2[pos_of(g.nodes, (#[trigger] g.edges[kk]).1)] is Some && dist2[pos_of(
            g.nodes,
            g.edges[kk].1,
        )]->0 <= du + weight_of(g.edges[kk].2, dw) by {}
    assert forall|x: int| 0 <= x < n && #[trigger] done[x] implies dist2[x] is Some && dist2[x]->0 <= du by {
        assert(x != j);
    }
    assert forall|x: int| 0 <= x < n && !done[x] && #[trigger] dist2[x] is Some implies du <= dist2[x]->0 by {}
}

/// Relaxing edge `k` of `u` when it gives no shorter distance.
proof fn lemma_relax_keep(
    g: GraphModel,
    s: int,
    zero: u64,
    dw: u64,
    u: int,
    du: u128,
    done0: Seq<bool>,
    lo: int,
    hi: int,
    k: int,
    dist: Seq<Option<u128>>,
    pred: Seq<Option<usize>>,
    done: Seq<bool>,
    walks: Map<int, Seq<Edge>>,
    j: int,
    nd: u128,
)
    requires
        relax_state(g, s, zero, dw, u, du, done0, lo, hi, k, dist, pred, done, walks),
        k < hi,
        0 <= j < g.nodes.len(),
        g.nodes[j] == g.edges[k].1,
        pos_of(g.nodes, g.edges[k].1) == j,
        nd == du + weight_of(g.edges[k].2, dw),
        !(dist[j] is None || nd < dist[j]->0),
    ensures
        relax_state(g, s, zero, dw, u, du, done0, lo, hi, k + 1, dist, pred, done, walks),
{
}

/// Once every edge of `u` is relaxed, the search invariant holds again.
proof fn lemma_relax_end(
    g: GraphModel,
    s: int,
    zero: u64,
    dw: u64,
    u: int,
    du: u128,
    done0: Seq<bool>,
    lo: int,
    hi: int,
    dist: Seq<Option<u128>>,
    pred: Seq<Option<usize>>,
    done: Seq<bool>,
    walks: Map<int, Seq<Edge>>,
)
    requires
        relax_state(g, s, zero, dw, u, du, done0, lo, hi, hi, dist, pred, done, walks),
        0 <= count_false(done0) <= g.nodes.len(),
    ensures
        search_invariant(g, s, zero, dw, dist, pred, done, walks),
        0 <= count_false(done) < count_false(done0),
        done.len() == done0.len(),
{
    let n = g.nodes.len();
    let b1 = zero + (n - count_false(done0) + 1) * max_weight();
    let b2 = zero + (n - count_false(done)) * max_weight();
    assert(b1 <= b2) by (nonlinear_arith)
        requires
            b1 == zero + (n - count_false(done0) + 1) * max_weight(),
            b2 == zero + (n - count_false(done)) * max_weight(),
            count_false(done) <= count_false(done0) - 1,
            max_weight() >= 0,
    ;
    assert(bounded(n, dist, b2)) by {
        reveal(bounded);
    }
    assert(relaxed(g, dw, dist, done, -1)) by {
        reveal(relaxed);
        assert forall|x: int, kk: int|
            0 <= x < n && 0 <= kk < g.edges.len() && x != -1 && #[trigger] done[x] && (#[trigger] g.edges[kk]).0
                == g.nodes[x] implies dist[pos_of(g.nodes, g.edges[kk].1)] is Some && dist[pos_of(
                g.nodes,
                g.edges[kk].1,
            )]->0 <= dist[x]->0 + weight_of(g.edges[kk].2, dw) by {
            if x == u {
                assert(lo <= kk < hi);
            }
        }
    }
    assert forall|x: int, y: int|
        0 <= x < n && 0 <= y < n && #[trigger] done[x] && !#[trigger] done[y] && dist[y] is Some
            implies dist[x]->0 <= dist[y]->0 by {}
}

/// Every edge counts for a positive length.
pub open spec fn positive_weights(g: GraphModel, dw: u64) -> bool {
    forall|e: Edge| #[trigger] g.edges.contains(e) ==> weight_of(e.2, dw) > 0
}

/// Position `x` comes no later than position `y` in (distance, node) order.
pub open spec fn key_le(dist: Seq<Option<u128>>, x: int, y: int) -> bool {
    dist[x]->0 < dist[y]->0 || (dist[x]->0 == dist[y]->0 && x <= y)
}

/// Every settled node comes no later, in (distance, node) order, than every
/// reached node not yet settled.
#[verifier::opaque]
pub open spec fn settled_in_order(n: nat, dist: Seq<Option<u128>>, done: Seq<bool>) -> bool {
    forall|x: int, y: int|
        0 <= x < n && 0 <= y < n && #[trigger] done[x] && !#[trigger] done[y] && dist[y] is Some
            ==> key_le(dist, x, y)
}

/// For each reached node `t` but the source, its predecessor comes no later,
/// in (distance, node) order, than any settled node other than `except` that
/// gives `t` its distance through an edge.
#[verifier::opaque]
pub open spec fn preds_least(
    g: GraphModel,
    s: int,
    dw: u64,
    dist: Seq<Option<u128>>,
    pred: Seq<Option<usize>>,
    done: Seq<bool>,
    except: int,
) -> bool {
    forall|x: int, t: int, w: Option<u64>|
        0 <= x < g.nodes.len() && 0 <= t < g.nodes.len() && x != except && t != s && #[trigger] done[x]
            && dist[t] is Some && #[trigger] g.edges.contains((g.nodes[x], g.nodes[t], w))
            && dist[x]->0 + weight_of(w, dw) == dist[t]->0 ==> key_le(dist, pred[t]->0 as int, x)
}

/// Settling `u`, first in (distance, node) order among the reached nodes not yet settled.
proof fn lemma_order_settle(
    g: GraphModel,
    s: int,
    dw: u64,
    dist: Seq<Option<u128>>,
    pred: Seq<Option<usize>>,
    done0: Seq<bool>,
    u: int,
)
    requires
        settled_in_order(g.nodes.len(), dist, done0),
        preds_least(g, s, dw, dist, pred, done0, -1),
        dist.len() == g.nodes.len(),
        done0.len() == g.nodes.len(),
        0 <= u < g.nodes.len(),
        !done0[u],
        dist[u] is Some,
        forall|y: int| 0 <= y < g.nodes.len() && !done0[y] && #[trigger] dist[y] is Some ==> key_le(dist, u, y),
    ensures
        settled_in_order(g.nodes.len(), dist, done0.update(u, true)),
        preds_least(g, s, dw, dist, pred, done0.update(u, true), u),
        forall|x: int| 0 <= x < g.nodes.len() && #[trigger] done0[x] ==> key_le(dist, x, u),
{
    reveal(settled_in_order);
    reveal(preds_least);
    let done = done0.update(u, true);
    assert forall|x: int, y: int|
        0 <= x < g.nodes.len() && 0 <= y < g.nodes.len() && #[trigger] done[x] && !#[trigger] done[y]
            && dist[y] is Some implies key_le(dist, x, y) by {
        if x != u {
            assert(done0[x] && !done0[y]);
        }
    }
    assert forall|x: int, t: int, w: Option<u64>|
        0 <= x < g.nodes.len() && 0 <= t < g.nodes.len() && x != u && t != s && #[trigger] done[x]
            && dist[t] is Some && #[trigger] g.edges.contains((g.nodes[x], g.nodes[t], w))
            && dist[x]->0 + weight_of(w, dw) == dist[t]->0 implies key_le(dist, pred[t]->0 as int, x) by {
        assert(done0[x]);
    }
}

/// Relaxing an edge of `u` that gives `j` the shorter distance `nd`.
proof fn lemma_order_improve(
    g: GraphModel,
    s: int,
    dw: u64,
    dist: Seq<Option<u128>>,
    pred: Seq<Option<usize>>,
    done: Seq<bool>,
    done0: Seq<bool>,
    u: int,
    du: u128,
    j: int,
    nd: u128,
)
    requires
        g.wf(),
        g.nodes.len() <= usize::MAX,
        settled_in_order(g.nodes.len(), dist, done),
        preds_least(g, s, dw, dist, pred, done, u),
        relaxed(g, dw, dist, done, u),
        forall|x: int| 0 <= x < g.nodes.len() && #[trigger] done0[x] ==> key_le(dist, x, u),
        dist.len() == g.nodes.len(),
        pred.len() == g.nodes.len(),
        done.len() == g.nodes.len(),
        done0.len() == g.nodes.len(),
        done == done0.update(u, true),
        0 <= u < g.nodes.len(),
        0 <= j < g.nodes.len(),
        dist[u] == Some(du),
        forall|x: int| 0 <= x < g.nodes.len() && #[trigger] done[x] ==> dist[x] is Some && dist[x]->0 <= du,
        preds_ok(g, s, dw, dist, pred, done),
        du < nd,
        dist[j] is None || nd < dist[j]->0,
    ensures
        settled_in_order(g.nodes.len(), dist.update(j, Some(nd)), done),
        preds_least(g, s, dw, dist.update(j, Some(nd)), pred.update(j, Some(u as usize)), done, u),
        forall|x: int| 0 <= x < g.nodes.len() && #[trigger] done0[x] ==> key_le(dist.update(j, Some(nd)), x, u),
{
    reveal(settled_in_order);
    reveal(preds_least);
    reveal(relaxed);
    reveal(preds_ok);
    let n = g.nodes.len();
    assert(!done[j]) by {
        if done[j] {
            assert(dist[j]->0 <= du);
        }
    }
    let dist2 = dist.update(j, Some(nd));
    let pred2 = pred.update(j, Some(u as usize));
    assert forall|x: int, y: int|
        0 <= x < n && 0 <= y < n && #[trigger] done[x] && !#[trigger] done[y] && dist2[y] is Some
            implies key_le(dist2, x, y) by {
        assert(x != j);
        if y != j {
            assert(dist[y] is Some);
        }
    }
    assert forall|x: int, t: int, w: Option<u64>|
        0 <= x < n && 0 <= t < n && x != u && t != s && #[trigger] done[x] && dist2[t] is Some
            && #[trigger] g.edges.contains((g.nodes[x], g.nodes[t], w)) && dist2[x]->0 + weight_of(w, dw)
            == dist2[t]->0 implies key_le(dist2, pred2[t]->0 as int, x) by {
        assert(x != j);
        assert(dist2[x] == dist[x]);
        if t == j {
            let kk = choose|kk: int|
                0 <= kk < g.edges.len() && g.edges[kk] == (g.nodes[x], g.nodes[t], w);
            assert(g.edges[kk].0 == g.nodes[x]);
            assert(g.edges[kk].1 == g.nodes[j]);
            lemma_pos_of_index(g, j);
            assert(pos_of(g.nodes, g.edges[kk].1) == j);
            assert(dist[j] is Some && dist[j]->0 <= dist[x]->0 + weight_of(g.edges[kk].2, dw));
            assert(false);
        } else {
            assert(dist2[t] == dist[t]);
            assert(dist[t] is Some);
            let p = pred[t]->0 as int;
            assert(done[p]);
            assert(p != j);
            assert(pred2[t] == pred[t]);
            assert(dist2[p] == dist[p]);
            assert(key_le(dist, p, x));
        }
    }
    assert forall|x: int| 0 <= x < n && #[trigger] done0[x] implies key_le(dist2, x, u) by {
        assert(done[x]);
        assert(x != j);
    }
}

/// Once all edges of `u` are relaxed, no settled node is excepted.
proof fn lemma_order_end(
    g: GraphModel,
    s: int,
    dw: u64,
    dist: Seq<Option<u128>>,
    pred: Seq<Option<usize>>,
    done: Seq<bool>,
    done0: Seq<bool>,
    u: int,
)
    requires
        preds_least(g, s, dw, dist, pred, done, u),
        forall|x: int| 0 <= x < g.nodes.len() && #[trigger] done0[x] ==> key_le(dist, x, u),
        done.len() == g.nodes.len(),
        done0.len() == g.nodes.len(),
        done == done0.update(u, true),
        0 <= u < g.nodes.len(),
        preds_ok(g, s, dw, dist, pred, done),
    ensures
        preds_least(g, s, dw, dist, pred, done, -1),
{
    reveal(preds_least);
    reveal(preds_ok);
    assert forall|x: int, t: int, w: Option<u64>|
        0 <= x < g.nodes.len() && 0 <= t < g.nodes.len() && x != -1 && t != s && #[trigger] done[x]
            && dist[t] is Some && #[trigger] g.edges.contains((g.nodes[x], g.nodes[t], w))
            && dist[x]->0 + weight_of(w, dw) == dist[t]->0 implies key_le(dist, pred[t]->0 as int, x) by {
        if x == u {
            let p = pred[t]->0 as int;
            if p != u {
                assert(done0[p]);
            }
        }
    }
}

/// The order of predecessors, read over node values.
#[verifier::rlimit(50)]
proof fn lemma_preds_least_by_value(
    g: GraphModel,
    s: int,
    src: i64,
    dw: u64,
    dist: Seq<Option<u128>>,
    pred: Seq<Option<usize>>,
    done: Seq<bool>,
    dm: Map<i64, u128>,
    pm: Map<i64, Option<i64>>,
)
    requires
        g.wf(),
        0 <= s < g.nodes.len(),
        g.nodes[s] == src,
        dist.len() == g.nodes.len(),
        pred.len() == g.nodes.len(),
        done.len() == g.nodes.len(),
        preds_least(g, s, dw, dist, pred, done, -1),
        preds_ok(g, s, dw, dist, pred, done),
        forall|y: int| 0 <= y < g.nodes.len() && #[trigger] dist[y] is Some ==> done[y],
        forall|y: int| 0 <= y < g.nodes.len() && #[trigger] done[y] ==> dist[y] is Some,
        forall|y: int| 0 <= y < g.nodes.len() ==> (dist[y] is Some) == dm.contains_key(#[trigger] g.nodes[y]),
        forall|y: int| 0 <= y < g.nodes.len() ==> (dist[y] is Some) == pm.contains_key(#[trigger] g.nodes[y]),
        forall|y: int|
            0 <= y < g.nodes.len() && #[trigger] dist[y] is Some ==> dm[g.nodes[y]] == dist[y]->0
                && pm[g.nodes[y]] == match pred[y] {
                Some(p) => Some(g.nodes[p as int]),
                None => None,
            },
        forall|v: i64| dm.contains_key(v) ==> g.nodes.contains(v),
        forall|v: i64| pm.contains_key(v) ==> g.nodes.contains(v),
    ensures
        forall|t: i64, u: i64, w: Option<u64>|
            #[trigger] pm.contains_key(t) && t != src && dm.contains_key(u) && #[trigger] g.edges.contains(
                (u, t, w),
            ) && dm[u] + weight_of(w, dw) == dm[t] ==> dm[pm[t]->0] < dm[u] || (dm[pm[t]->0] == dm[u]
                && pm[t]->0 <= u),
{
    reveal(preds_least);
    reveal(preds_ok);
    assert forall|t: i64, u: i64, w: Option<u64>|
        #[trigger] pm.contains_key(t) && t != src && dm.contains_key(u) && #[trigger] g.edges.contains(
            (u, t, w),
        ) && dm[u] + weight_of(w, dw) == dm[t] implies dm[pm[t]->0] < dm[u] || (dm[pm[t]->0] == dm[u]
            && pm[t]->0 <= u) by {
        assert(g.nodes.contains(t));
        let y = choose|y: int| 0 <= y < g.nodes.len() && g.nodes[y] == t;
        assert(g.nodes.contains(u));
        let x = choose|x: int| 0 <= x < g.nodes.len() && g.nodes[x] == u;
        assert(pm.contains_key(g.nodes[y]));
        assert(dm.contains_key(g.nodes[x]));
        assert(dist[y] is Some);
        assert(dist[x] is Some);
        assert(done[x]);
        assert(y != s);
        assert(g.edges.contains((g.nodes[x], g.nodes[y], w)));
        let p = pred[y]->0 as int;
        assert(done[p]);
        assert(dist[p] is Some);
        assert(key_le(dist, p, x));
        assert(dm[g.nodes[p]] == dist[p]->0);
        assert(pm[t] == Some(g.nodes[p]));
        if p < x {
            assert(g.nodes[p] < g.nodes[x]);
        }
    }
}

impl Graph {
    /// Dijkstra's shortest paths from `src`. An edge without a weight counts
    /// for `default_weight`; the source is at distance `zero`. Returns the
    /// distance of every node reachable from `src`, and its predecessor on a
    /// shortest walk (`None` for `src`). Weights are unsigned, so no edge is
    /// negative; distances are `u128`, wide enough for any walk the search
    /// follows. Nodes are settled in (distance, node) order from a binary
    /// min-heap; an entry whose node is settled, or whose distance has since
    /// improved, is skipped when it comes out. Among nodes at equal distance
    /// the smaller is settled first.
    #[verifier::rlimit(100)]
    #[verifier::spinoff_prover]
    pub fn djikstra(&self, src: &i64, default_weight: u64, zero: u64) -> (r: Result<
        (HashMap<i64, u128>, HashMap<i64, Option<i64>>),
        GraphError,
    >)
        requires
            self.wf(),
        ensures
            match r {
                Err(e) => !self@.nodes.contains(*src) && e == GraphError::NodeNotFound(*src),
                Ok((dist, pred)) => {
                    &&& self@.nodes.contains(*src)
                    &&& dist@.dom() == self@.reachable_from(*src)
                    &&& dist@[*src] == zero
                    &&& pred@.dom() == dist@.dom()
                    &&& pred@[*src] is None
                    // every recorded distance is the length of some walk from the source
                    &&& forall|t: i64|
                        #[trigger] dist@.contains_key(t) ==> exists|es: Seq<Edge>|
                            is_edge_walk(self@, es, *src, t) && dist@[t] == zero + walk_weight(
                                es,
                                default_weight,
                            )
                    // and no walk from the source is shorter
                    &&& forall|t: i64, es: Seq<Edge>|
                        #[trigger] is_edge_walk(self@, es, *src, t) ==> dist@.contains_key(t)
                            && dist@[t] <= zero + walk_weight(es, default_weight)
                    // each predecessor is the last step of a shortest walk
                    &&& forall|t: i64|
                        #[trigger] pred@.contains_key(t) && t != *src ==> pred@[t] is Some
                            && dist@.contains_key(pred@[t]->0) && exists|w: Option<u64>|
                            self@.edges.contains((pred@[t]->0, t, w)) && dist@[t] == dist@[pred@[
                                t]->0] + weight_of(w, default_weight)
                    // with every edge of positive length, the predecessor comes first in
                    // (distance, node) order among the nodes that give `t` its distance
                    &&& positive_weights(self@, default_weight) ==> forall|t: i64, u: i64, w: Option<u64>|
                        #[trigger] pred@.contains_key(t) && t != *src && dist@.contains_key(u)
                            && #[trigger] self@.edges.contains((u, t, w)) && dist@[u] + weight_of(
                            w,
                            default_weight,
                        ) == dist@[t] ==> dist@[pred@[t]->0] < dist@[u] || (dist@[pred@[t]->0]
                            == dist@[u] && pred@[t]->0 <= u)
                },
            },
    {
        let s: usize = match self.find_node(*src) {
            Ok(i) => i,
            Err(_) => return Err(GraphError::NodeNotFound(*src)),
        };
        let n: usize = self.nodes.len();
        let ghost g: GraphModel = self@;
        let mut dist: Vec<Option<u128>> = Vec::new();
        let mut pred: Vec<Option<usize>> = Vec::new();
        let mut done: Vec<bool> = Vec::new();
        let mut i: usize = 0;
        while i < n
            invariant
                n == g.nodes.len(),
                i <= n,
                dist@.len() == i,
                pred@.len() == i,
                done@.len() == i,
                forall|x: int| 0 <= x < i ==> #[trigger] dist@[x] is None,
                forall|x: int| 0 <= x < i ==> #[trigger] pred@[x] is None,
                forall|x: int| 0 <= x < i ==> !#[trigger] done@[x],
            decreases n - i,
        {
            dist.push(None);
            pred.push(None);
            done.push(false);
            i = i + 1;
        }
        dist.set(s, Some(zero as u128));
        let ghost mut walks: Map<int, Seq<Edge>> = Map::empty().insert(s as int, Seq::empty());
        proof {
            lemma_count_false_mono(done@, done@);
            lemma_count_false_len(done@);
            assert(is_edge_walk(g, Seq::empty(), g.nodes[s as int], g.nodes[s as int]));
            assert(walk_weight(Seq::<Edge>::empty(), default_weight) == 0);
            assert forall|x: int| 0 <= x < n && #[trigger] dist@[x] is Some implies x == s by {}
            assert((n - count_false(done@)) * max_weight() >= 0) by (nonlinear_arith)
                requires
                    n - count_false(done@) >= 0,
                    max_weight() >= 0,
            ;
            reveal(walks_ok);
            reveal(preds_ok);
            reveal(relaxed);
            reveal(bounded);
            assert(search_invariant(g, s as int, zero, default_weight, dist@, pred@, done@, walks));
            reveal(settled_in_order);
            reveal(preds_least);
            assert(settled_in_order(n as nat, dist@, done@));
            assert(preds_least(g, s as int, default_weight, dist@, pred@, done@, -1));
        }
        let mut queue: MinQueue = MinQueue::new();
        queue.push((zero as u128, s));
        proof {
            assert(queue@.contains((zero as u128, s)));
            assert forall|y: int| 0 <= y < n && #[trigger] dist@[y] is Some implies y == s by {}
        }
        loop
            invariant
                self.wf(),
                g == self@,
                n == g.nodes.len(),
                dist@.len() == n,
                pred@.len() == n,
                done@.len() == n,
                search_invariant(g, s as int, zero, default_weight, dist@, pred@, done@, walks),
                positive_weights(g, default_weight) ==> settled_in_order(n as nat, dist@, done@)
                    && preds_least(g, s as int, default_weight, dist@, pred@, done@, -1),
                queue.wf(),
                forall|y: int|
                    0 <= y < n && !done@[y] && #[trigger] dist@[y] is Some ==> queue@.contains(
                        (dist@[y]->0, y as usize),
                    ),
                forall|e: Entry|
                    #[trigger] queue@.contains(e) ==> e.1 < n && dist@[e.1 as int] is Some && dist@[e.1 as int]->0 <= e.0,
            ensures
                forall|x: int| 0 <= x < n && #[trigger] dist@[x] is Some ==> done@[x],
            decreases count_false(done@), queue@.len(),
        {
            let ghost queue0 = queue@;
            let (d, u) = match queue.pop() {
                None => {
                    proof {
                        assert forall|x: int| 0 <= x < n && #[trigger] dist@[x] is Some implies done@[x] by {
                            if !done@[x] {
                                assert(queue0.contains((dist@[x]->0, x as usize)));
                            }
                        }
                    }
                    break;
                },
                Some(e) => e,
            };
            proof {
                assert(queue0.contains((d, u)));
                assert(queue@.len() < queue0.len());
                assert forall|e: Entry| #[trigger] queue@.contains(e) implies queue0.contains(e) by {
                    assert(queue@.count(e) <= queue0.count(e));
                }
            }
            if done[u] || d > dist[u].unwrap() {
                proof {
                    assert forall|y: int|
                        0 <= y < n && !done@[y] && #[trigger] dist@[y] is Some implies queue@.contains(
                            (dist@[y]->0, y as usize),
                        ) by {
                        assert(queue0.contains((dist@[y]->0, y as usize)));
                        if y == u {
                            assert((dist@[y]->0, y as usize) != (d, u));
                        }
                    }
                }
                continue;
            }
            proof {
                assert(dist@[u as int] is Some && dist@[u as int]->0 <= d);
                assert(d == dist@[u as int]->0);
                assert forall|y: int|
                    0 <= y < n && !done@[y] && #[trigger] dist@[y] is Some implies dist@[u as int]->0
                        <= dist@[y]->0 by {
                    assert(queue0.contains((dist@[y]->0, y as usize)));
                    assert(crate::heap::entry_le((d, u), (dist@[y]->0, y as usize)));
                }
            }
            let du: u128 = dist[u].unwrap();
            let ghost done0 = done@;
            let (lo, hi) = self.out_range(self.nodes[u]);
            proof {
                assert forall|kk: int| 0 <= kk < g.edges.len() implies ((#[trigger] g.edges[kk]).0
                    == g.nodes[u as int] <==> lo <= kk < hi) by {}
                lemma_relax_start(g, s as int, zero, default_weight, u as int, dist@, pred@, done0, walks, lo as int, hi as int);
                if positive_weights(g, default_weight) {
                    assert forall|y: int| 0 <= y < n && !done0[y] && #[trigger] dist@[y] is Some implies key_le(
                        dist@,
                        u as int,
                        y,
                    ) by {
                        assert(queue0.contains((dist@[y]->0, y as usize)));
                        assert(crate::heap::entry_le((d, u), (dist@[y]->0, y as usize)));
                    }
                    lemma_order_settle(g, s as int, default_weight, dist@, pred@, done0, u as int);
                }
            }
            done.set(u, true);
            let mut k: usize = lo;
            while k < hi
                invariant
                    self.wf(),
                    g == self@,
                    n == g.nodes.len(),
                    u < n,
                    dist@.len() == n,
                    pred@.len() == n,
                    done@.len() == n,
                    lo <= k <= hi <= g.edges.len(),
                    0 <= count_false(done0) <= n,
                    du + max_weight() < 0x1_0000_0000_0000_0000_0000_0000_0000_0000int,
                    relax_state(g, s as int, zero, default_weight, u as int, du, done0, lo as int, hi as int, k as int, dist@, pred@, done@, walks),
                    positive_weights(g, default_weight) ==> settled_in_order(n as nat, dist@, done@)
                        && preds_least(g, s as int, default_weight, dist@, pred@, done@, u as int)
                        && forall|x: int| 0 <= x < n && #[trigger] done0[x] ==> key_le(dist@, x, u as int),
                    queue.wf(),
                    forall|y: int|
                        0 <= y < n && !done@[y] && #[trigger] dist@[y] is Some ==> queue@.contains(
                            (dist@[y]->0, y as usize),
                        ),
                    forall|e: Entry|
                        #[trigger] queue@.contains(e) ==> e.1 < n && dist@[e.1 as int] is Some && dist@[e.1 as int]->0 <= e.0,
                decreases hi - k,
            {
                let e: Edge = self.edges[k];
                proof {
                    assert(g.edges[k as int] == e);
                    assert(g.nodes.contains(g.edges[k as int].0));
                }
                let j: usize = self.index_of(e.1);
                let w: u64 = match e.2 {
                    Some(x) => x,
                    None => default_weight,
                };
                let nd: u128 = du + w as u128;
                let improves: bool = match dist[j] {
                    None => true,
                    Some(dj) => nd < dj,
                };
                proof {
                    assert(g.edges[k as int] == e);
                    lemma_pos_of_index(g, j as int);
                }
                if improves {
                    let ghost dist1 = dist@;
                    let ghost pred1 = pred@;
                    let ghost walks1 = walks;
                    proof {
                        if positive_weights(g, default_weight) {
                            assert(g.edges.contains(e));
                            assert(weight_of(e.2, default_weight) > 0);
                            lemma_order_improve(g, s as int, default_weight, dist1, pred1, done@, done0, u as int, du, j as int, nd);
                        }
                        lemma_relax_improve(g, s as int, zero, default_weight, u as int, du, done0, lo as int, hi as int, k as int, dist1, pred1, done@, walks1, j as int, nd);
                        walks = walks.insert(j as int, walks[u as int].push(e));
                    }
                    let ghost dist_b = dist@;
                    let ghost queue_b = queue@;
                    dist.set(j, Some(nd));
                    pred.set(j, Some(u));
                    queue.push((nd, j));
                    proof {
                        assert forall|y: int|
                            0 <= y < n && !done@[y] && #[trigger] dist@[y] is Some implies queue@.contains(
                                (dist@[y]->0, y as usize),
                            ) by {
                            if y != j {
                                assert(dist_b[y] is Some);
                                assert(queue_b.contains((dist@[y]->0, y as usize)));
                            }
                        }
                        assert forall|e: Entry|
                            #[trigger] queue@.contains(e) implies e.1 < n && dist@[e.1 as int] is Some
                                && dist@[e.1 as int]->0 <= e.0 by {
                            if e != (nd, j) {
                                assert(queue_b.contains(e));
                            }
                        }
                    }
                } else {
                    proof {
                        lemma_relax_keep(g, s as int, zero, default_weight, u as int, du, done0, lo as int, hi as int, k as int, dist@, pred@, done@, walks, j as int, nd);
                    }
                }
                k = k + 1;
            }
            proof {
                if positive_weights(g, default_weight) {
                    lemma_order_end(g, s as int, default_weight, dist@, pred@, done@, done0, u as int);
                }
                lemma_relax_end(g, s as int, zero, default_weight, u as int, du, done0, lo as int, hi as int, dist@, pred@, done@, walks);
            }
        }
        proof {
            reveal(preds_ok);
        }
        let mut dist_map: HashMap<i64, u128> = HashMap::new();
        let mut pred_map: HashMap<i64, Option<i64>> = HashMap::new();
        let mut x: usize = 0;
        while x < n
            invariant
                self.wf(),
                g == self@,
                n == g.nodes.len(),
                x <= n,
                search_invariant(g, s as int, zero, default_weight, dist@, pred@, done@, walks),
                dist@.len() == n,
                pred@.len() == n,
                forall|y: int|
                    0 <= y < n && #[trigger] dist@[y] is Some && pred@[y] is Some ==> pred@[y]->0 < n,
                forall|y: int| 0 <= y < n && #[trigger] dist@[y] is Some ==> done@[y],
                forall|y: int|
                    0 <= y < n ==> (y < x && dist@[y] is Some) == dist_map@.contains_key(
                        #[trigger] g.nodes[y],
                    ),
                forall|y: int|
                    0 <= y < n ==> (y < x && dist@[y] is Some) == pred_map@.contains_key(
                        #[trigger] g.nodes[y],
                    ),
                forall|y: int|
                    0 <= y < x && #[trigger] dist@[y] is Some ==> dist_map@[g.nodes[y]] == dist@[y]->0
                        && pred_map@[g.nodes[y]] == match pred@[y] {
                        Some(p) => Some(g.nodes[p as int]),
                        None => None,
                    },
                forall|v: i64| dist_map@.contains_key(v) ==> g.nodes.contains(v),
                forall|v: i64| pred_map@.contains_key(v) ==> g.nodes.contains(v),
                positive_weights(g, default_weight) ==> preds_least(g, s as int, default_weight, dist@, pred@, done@, -1),
            decreases n - x,
        {
            if let Some(d) = dist[x] {
                let p: Option<i64> = match pred[x] {
                    Some(p) => Some(self.nodes[p]),
                    None => None,
                };
                dist_map.insert(self.nodes[x], d);
                pred_map.insert(self.nodes[x], p);
                proof {
                    assert forall|y: int| 0 <= y < n implies (y < x + 1 && dist@[y] is Some)
                        == dist_map@.contains_key(#[trigger] g.nodes[y]) && (y < x + 1
                        && dist@[y] is Some) == pred_map@.contains_key(g.nodes[y]) by {
                        if y != x {
                            assert(g.nodes[y] != g.nodes[x as int]);
                        }
                    }
                    assert forall|y: int| 0 <= y < x + 1 && #[trigger] dist@[y] is Some implies dist_map@[g.nodes[y]]
                        == dist@[y]->0 && pred_map@[g.nodes[y]] == match pred@[y] {
                        Some(p) => Some(g.nodes[p as int]),
                        None => None,
                    } by {
                        if y != x {
                            assert(g.nodes[y] != g.nodes[x as int]);
                        }
                    }
                }
            }
            x = x + 1;
        }
        proof {
            reveal(walks_ok);
            reveal(preds_ok);
            reveal(relaxed);
            let dm = dist_map@;
            let pm = pred_map@;
            assert(dm.contains_key(g.nodes[s as int]));
            assert(pm.dom() =~= dm.dom()) by {
                assert forall|v: i64| pm.contains_key(v) implies dm.contains_key(v) by {
                    assert(g.nodes.contains(v));
                    let y = choose|y: int| 0 <= y < g.nodes.len() && g.nodes[y] == v;
                    assert(pm.contains_key(g.nodes[y]));
                }
                assert forall|v: i64| dm.contains_key(v) implies pm.contains_key(v) by {
                    assert(g.nodes.contains(v));
                    let y = choose|y: int| 0 <= y < g.nodes.len() && g.nodes[y] == v;
                    assert(dm.contains_key(g.nodes[y]));
                }
            }
            assert forall|t: i64| #[trigger] dm.contains_key(t) implies exists|es: Seq<Edge>|
                is_edge_walk(g, es, *src, t) && dm[t] == zero + walk_weight(es, default_weight) by {
                assert(g.nodes.contains(t));
                let y = choose|y: int| 0 <= y < g.nodes.len() && g.nodes[y] == t;
                assert(dm.contains_key(g.nodes[y]));
                assert(dist@[y] is Some);
                let es = walks[y];
                assert(is_edge_walk(g, es, *src, t));
            }
            assert forall|e: Edge| #[trigger] g.edges.contains(e) && dm.contains_key(e.0) implies dm.contains_key(e.1)
                && dm[e.1] <= dm[e.0] + weight_of(e.2, default_weight) by {
                let k = choose|k: int| 0 <= k < g.edges.len() && g.edges[k] == e;
                assert(g.nodes.contains(e.0));
                let y = choose|y: int| 0 <= y < g.nodes.len() && g.nodes[y] == e.0;
                assert(dm.contains_key(g.nodes[y]));
                assert(done@[y]);
                assert(g.edges[k].0 == g.nodes[y]);
                assert(g.nodes.contains(g.edges[k].1));
                let j = pos_of(g.nodes, e.1);
                assert(0 <= j < n && g.nodes[j] == e.1);
                assert(dist@[j] is Some);
            }
            assert forall|t: i64, es: Seq<Edge>| #[trigger] is_edge_walk(g, es, *src, t) implies dm.contains_key(t)
                && dm[t] <= zero + walk_weight(es, default_weight) by {
                lemma_no_shorter_walk(g, dm, *src, zero, default_weight, es, t);
            }
            assert(dm.dom() =~= g.reachable_from(*src)) by {
                assert forall|t: i64| dm.contains_key(t) implies g.reachable(*src, t) by {
                    let es = choose|es: Seq<Edge>|
                        is_edge_walk(g, es, *src, t) && dm[t] == zero + walk_weight(es, default_weight);
                    lemma_edge_walk_reaches(g, es, *src, t);
                }
                assert forall|t: i64| g.reachable(*src, t) implies dm.contains_key(t) by {
                    lemma_reachable_has_edge_walk(g, *src, t);
                    let es = choose|es: Seq<Edge>| is_edge_walk(g, es, *src, t);
                    assert(is_edge_walk(g, es, *src, t));
                }
            }
            assert forall|t: i64| #[trigger] pm.contains_key(t) && t != *src implies pm[t] is Some
                && dm.contains_key(pm[t]->0) && exists|w: Option<u64>|
                g.edges.contains((pm[t]->0, t, w)) && dm[t] == dm[pm[t]->0] + weight_of(w, default_weight) by {
                assert(g.nodes.contains(t));
                let y = choose|y: int| 0 <= y < g.nodes.len() && g.nodes[y] == t;
                assert(pm.contains_key(g.nodes[y]));
                assert(dist@[y] is Some);
                assert(y != s);
                let p = pred@[y]->0;
                assert(done@[p as int]);
                assert(dm.contains_key(g.nodes[p as int]));
                let w = choose|w: Option<u64>|
                    g.edges.contains((g.nodes[p as int], g.nodes[y], w)) && dist@[y]->0
                        == dist@[p as int]->0 + weight_of(w, default_weight);
                assert(g.edges.contains((pm[t]->0, t, w)));
            }
        }
        proof {
            if positive_weights(g, default_weight) {
                lemma_preds_least_by_value(g, s as int, *src, default_weight, dist@, pred@, done@, dist_map@, pred_map@);
            }
        }
        Ok((dist_map, pred_map))
    }
}

} // verus!
