use vstd::prelude::*;
use crate::graph::{edge_lt, edges_sorted, GraphModel};
use crate::paths::pos_of;

verus! {

/// `t` can be reached from `s` by a walk of at most `k` edges.
pub open spec fn within(g: GraphModel, s: i64, t: i64, k: int) -> bool {
    exists|p: Seq<i64>| g.is_walk(p) && p[0] == s && p.last() == t && p.len() <= k + 1
}

pub proof fn lemma_within_mono(g: GraphModel, s: i64, t: i64, k: int, k2: int)
    requires
        within(g, s, t, k),
        k <= k2,
    ensures
        within(g, s, t, k2),
{
    let p = choose|p: Seq<i64>| g.is_walk(p) && p[0] == s && p.last() == t && p.len() <= k + 1;
    assert(g.is_walk(p) && p[0] == s && p.last() == t && p.len() <= k2 + 1);
}

pub proof fn lemma_within_self(g: GraphModel, s: i64)
    requires
        g.nodes.contains(s),
    ensures
        within(g, s, s, 0),
{
    let p = seq![s];
    assert(g.is_walk(p) && p[0] == s && p.last() == s && p.len() <= 1);
}

pub proof fn lemma_within_zero(g: GraphModel, s: i64, t: i64)
    requires
        within(g, s, t, 0),
    ensures
        t == s,
{
    let p = choose|p: Seq<i64>| g.is_walk(p) && p[0] == s && p.last() == t && p.len() <= 1;
}

pub proof fn lemma_within_step(g: GraphModel, s: i64, a: i64, b: i64, k: int)
    requires
        within(g, s, a, k),
        g.connected(a, b),
    ensures
        within(g, s, b, k + 1),
{
    let p = choose|p: Seq<i64>| g.is_walk(p) && p[0] == s && p.last() == a && p.len() <= k + 1;
    let q = p.push(b);
    assert forall|i: int| 0 <= i < q.len() - 1 implies #[trigger] g.connected(q[i], q[i + 1]) by {
        if i < p.len() - 1 {
            assert(q[i] == p[i] && q[i + 1] == p[i + 1]);
        }
    }
    assert(g.is_walk(q) && q[0] == s && q.last() == b && q.len() <= k + 2);
}

/// A walk of at most `k + 1` edges is either one of at most `k` edges or one
/// of at most `k` edges followed by one more.
pub proof fn lemma_within_split(g: GraphModel, s: i64, t: i64, k: int) -> (a: i64)
    requires
        within(g, s, t, k + 1),
        k >= 0,
    ensures
        within(g, s, t, k) || (within(g, s, a, k) && g.connected(a, t)),
{
    let p = choose|p: Seq<i64>| g.is_walk(p) && p[0] == s && p.last() == t && p.len() <= k + 2;
    if p.len() <= k + 1 {
        t
    } else {
        let q = p.drop_last();
        assert(g.connected(p[q.len() - 1], p[(q.len() - 1) + 1]));
        assert forall|i: int| 0 <= i < q.len() - 1 implies #[trigger] g.connected(q[i], q[i + 1]) by {
            assert(q[i] == p[i] && q[i + 1] == p[i + 1]);
        }
        assert(g.is_walk(q) && q[0] == s && q.last() == q.last() && q.len() <= k + 1);
        q.last()
    }
}

/// The level bookkeeping of breadth-first search over the queue `q` (node
/// positions, processed up to `head`): each found node carries its hop
/// distance from `s`, levels never decrease along the queue and span at most
/// one step past the head, and every node within the head's level is found.
pub open spec fn bfs_levels(
    g: GraphModel,
    s: i64,
    q: Seq<usize>,
    head: int,
    found: Set<i64>,
    lvl: Map<i64, int>,
) -> bool {
    &&& forall|i: int| 0 <= i < q.len() ==> #[trigger] q[i] < g.nodes.len()
    &&& forall|t: i64|
        #[trigger] found.contains(t) ==> lvl.contains_key(t) && lvl[t] >= 0 && within(g, s, t, lvl[t])
            && (forall|k: int| 0 <= k < lvl[t] ==> !#[trigger] within(g, s, t, k))
    &&& forall|t: i64|
        #[trigger] found.contains(t) ==> exists|i: int| 0 <= i < q.len() && g.nodes[#[trigger] q[i] as int] == t
    &&& forall|i: int|
        0 <= i < q.len() ==> #[trigger] found.contains(g.nodes[q[i] as int])
    &&& forall|i: int, j: int|
        0 <= i <= j < q.len() ==> lvl[g.nodes[#[trigger] q[i] as int]] <= lvl[g.nodes[#[trigger] q[j] as int]]
    &&& 0 <= head <= q.len()
    &&& head < q.len() ==> forall|j: int|
        0 <= j < q.len() ==> lvl[g.nodes[#[trigger] q[j] as int]] <= lvl[g.nodes[q[head] as int]] + 1
    &&& head < q.len() ==> forall|t: i64, d: int|
        0 <= d <= lvl[g.nodes[q[head] as int]] && #[trigger] within(g, s, t, d) ==> found.contains(t)
}

/// The start of the search: only `s`, at level 0.
pub proof fn lemma_bfs_levels_start(g: GraphModel, s: i64, x: usize)
    requires
        g.wf(),
        x < g.nodes.len(),
        g.nodes[x as int] == s,
    ensures
        bfs_levels(g, s, seq![x], 0, set![s], map![s => 0int]),
{
    let q = seq![x];
    let found = set![s];
    let lvl = map![s => 0int];
    lemma_within_self(g, s);
    assert forall|t: i64| #[trigger] found.contains(t) implies exists|i: int|
        0 <= i < q.len() && g.nodes[#[trigger] q[i] as int] == t by {
        assert(g.nodes[q[0] as int] == t);
    }
    assert forall|t: i64, d: int| 0 <= d <= lvl[g.nodes[q[0] as int]] && #[trigger] within(g, s, t, d)
        implies found.contains(t) by {
        lemma_within_zero(g, s, t);
    }
}

/// Discovering `j` (holding `b`) from the head `u` (holding `a`) puts `b` one level below `a`.
pub proof fn lemma_bfs_levels_discover(
    g: GraphModel,
    s: i64,
    q: Seq<usize>,
    head: int,
    found: Set<i64>,
    lvl: Map<i64, int>,
    j: usize,
)
    requires
        bfs_levels(g, s, q, head, found, lvl),
        head < q.len(),
        j < g.nodes.len(),
        !found.contains(g.nodes[j as int]),
        g.connected(g.nodes[q[head] as int], g.nodes[j as int]),
    ensures
        bfs_levels(
            g,
            s,
            q.push(j),
            head,
            found.insert(g.nodes[j as int]),
            lvl.insert(g.nodes[j as int], lvl[g.nodes[q[head] as int]] + 1),
        ),
{
    let a = g.nodes[q[head] as int];
    let b = g.nodes[j as int];
    let la = lvl[a];
    let q2 = q.push(j);
    let found2 = found.insert(b);
    let lvl2 = lvl.insert(b, la + 1);
    assert(found.contains(a));
    lemma_within_step(g, s, a, b, la);
    assert forall|k: int| 0 <= k < la + 1 implies !#[trigger] within(g, s, b, k) by {
        if within(g, s, b, k) {
            lemma_within_mono(g, s, b, k, la);
        }
    }
    assert forall|i: int| 0 <= i < q2.len() implies #[trigger] found2.contains(g.nodes[q2[i] as int]) by {
        if i < q.len() {
            assert(q2[i] == q[i]);
        }
    }
    assert forall|i: int| 0 <= i < q.len() implies lvl2[g.nodes[#[trigger] q[i] as int]] == lvl[g.nodes[q[i] as int]] by {
        assert(found.contains(g.nodes[q[i] as int]));
    }
    assert forall|t: i64| #[trigger] found2.contains(t) implies exists|i: int|
        0 <= i < q2.len() && g.nodes[#[trigger] q2[i] as int] == t by {
        if t == b {
            assert(g.nodes[q2[q.len() as int] as int] == t);
        } else {
            let i = choose|i: int| 0 <= i < q.len() && g.nodes[#[trigger] q[i] as int] == t;
            assert(q2[i] == q[i]);
        }
    }
    assert forall|i: int, k: int| 0 <= i <= k < q2.len() implies lvl2[g.nodes[#[trigger] q2[i] as int]]
        <= lvl2[g.nodes[#[trigger] q2[k] as int]] by {
        if k < q.len() {
            assert(q2[i] == q[i] && q2[k] == q[k]);
        } else if i < q.len() {
            assert(q2[i] == q[i]);
        }
    }
    assert forall|k: int| 0 <= k < q2.len() implies lvl2[g.nodes[#[trigger] q2[k] as int]]
        <= lvl2[g.nodes[q2[head] as int]] + 1 by {
        assert(q2[head] == q[head]);
        if k < q.len() {
            assert(q2[k] == q[k]);
        }
    }
    assert forall|t: i64| #[trigger] found2.contains(t) implies lvl2.contains_key(t) && lvl2[t] >= 0
        && within(g, s, t, lvl2[t]) && (forall|k: int| 0 <= k < lvl2[t] ==> !#[trigger] within(g, s, t, k)) by {
        if t != b {
            assert(found.contains(t));
        }
    }
    assert forall|t: i64, d: int| 0 <= d <= lvl2[g.nodes[q2[head] as int]] && #[trigger] within(g, s, t, d)
        implies found2.contains(t) by {
        assert(q2[head] == q[head]);
    }
}

/// Moving the head past a node whose edges all lead to found nodes.
pub proof fn lemma_bfs_levels_advance(
    g: GraphModel,
    s: i64,
    q: Seq<usize>,
    head: int,
    found: Set<i64>,
    lvl: Map<i64, int>,
)
    requires
        g.wf(),
        bfs_levels(g, s, q, head, found, lvl),
        head < q.len(),
        forall|i: int, a: i64, b: i64|
            0 <= i <= head && a == g.nodes[#[trigger] q[i] as int] && #[trigger] g.connected(a, b)
                ==> found.contains(b),
    ensures
        bfs_levels(g, s, q, head + 1, found, lvl),
{
    if head + 1 < q.len() {
        let l0 = lvl[g.nodes[q[head] as int]];
        let l1 = lvl[g.nodes[q[head + 1] as int]];
        assert(l0 <= l1);
        assert(found.contains(g.nodes[q[head] as int]));
        assert(l0 >= 0);
        assert forall|t: i64, d: int| 0 <= d <= l1 && #[trigger] within(g, s, t, d) implies found.contains(t) by {
            if d > l0 {
                assert(d == l0 + 1);
                let a = lemma_within_split(g, s, t, l0);
                if !within(g, s, t, l0) {
                    assert(found.contains(a));
                    assert(lvl[a] <= l0) by {
                        if lvl[a] > l0 {
                            assert(!within(g, s, a, l0));
                        }
                    }
                    let i = choose|i: int| 0 <= i < q.len() && g.nodes[#[trigger] q[i] as int] == a;
                    assert(i <= head) by {
                        if i > head {
                            assert(lvl[g.nodes[q[head + 1] as int]] <= lvl[g.nodes[q[i] as int]]);
                        }
                    }
                }
            }
        }
        assert forall|j: int| 0 <= j < q.len() implies lvl[g.nodes[#[trigger] q[j] as int]]
            <= lvl[g.nodes[q[head + 1] as int]] + 1 by {}
    }
}


/// The queue of breadth-first search, over node positions: `pp[i]` is the
/// queue position of the node that discovered `q[i]` (its predecessor); no
/// earlier queue entry has an edge to `q[i]`; and after the source, entries
/// stand in order of their predecessor's position, then of node value.
pub open spec fn bfs_queue_order(
    g: GraphModel,
    q: Seq<usize>,
    pp: Seq<int>,
    pred: Seq<Option<usize>>,
    head: int,
) -> bool {
    &&& pp.len() == q.len()
    &&& forall|i: int|
        1 <= i < q.len() ==> 0 <= #[trigger] pp[i] < i && pp[i] <= head && pred[q[i] as int] == Some(
            q[pp[i]],
        )
    &&& forall|i: int, r: int|
        1 <= i < q.len() && 0 <= r < pp[i] ==> !g.connected(
            g.nodes[#[trigger] q[r] as int],
            g.nodes[#[trigger] q[i] as int],
        )
    &&& forall|i: int, j: int|
        1 <= i < j < q.len() ==> #[trigger] pp[i] < #[trigger] pp[j] || (pp[i] == pp[j]
            && g.nodes[q[i] as int] < g.nodes[q[j] as int])
}

/// `ord` lists the nodes in the order breadth-first search from `s` takes them
/// off its queue, and `pred` maps each but `s` to the first node of `ord` with
/// an edge to it. After `s`, nodes stand in order of their predecessor's place
/// in `ord`, and nodes with the same predecessor in increasing order. These
/// conditions fix `ord`, and so `pred`, one node after another.
pub open spec fn bfs_order(g: GraphModel, s: i64, pred: Map<i64, i64>, ord: Seq<i64>) -> bool {
    &&& ord.len() > 0
    &&& ord[0] == s
    &&& ord.no_duplicates()
    &&& forall|v: i64| pred.contains_key(v) <==> ord.contains(v)
    &&& forall|i: int|
        1 <= i < ord.len() ==> 0 <= pos_of(ord, pred[#[trigger] ord[i]]) < i && ord[pos_of(
            ord,
            pred[ord[i]],
        )] == pred[ord[i]]
    &&& forall|i: int, r: int|
        1 <= i < ord.len() && 0 <= r < pos_of(ord, pred[ord[i]]) ==> !g.connected(
            #[trigger] ord[r],
            #[trigger] ord[i],
        )
    &&& forall|i: int, j: int|
        1 <= i < j < ord.len() ==> pos_of(ord, pred[#[trigger] ord[i]]) < pos_of(
            ord,
            pred[#[trigger] ord[j]],
        ) || (pos_of(ord, pred[ord[i]]) == pos_of(ord, pred[ord[j]]) && ord[i] < ord[j])
}

/// Discovering `j` through edge `k` of the head `q[head]`.
pub proof fn lemma_bfs_order_discover(
    g: GraphModel,
    q: Seq<usize>,
    pp: Seq<int>,
    pred: Seq<Option<usize>>,
    head: int,
    lo: int,
    hi: int,
    k: int,
    j: usize,
)
    requires
        g.wf(),
        bfs_queue_order(g, q, pp, pred, head),
        0 <= head < q.len(),
        q.no_duplicates(),
        forall|i: int| 0 <= i < q.len() ==> #[trigger] q[i] < g.nodes.len(),
        pred.len() == g.nodes.len(),
        0 <= lo <= k < hi <= g.edges.len(),
        forall|kk: int| lo <= kk < hi ==> (#[trigger] g.edges[kk]).0 == g.nodes[q[head] as int],
        forall|i: int, kk: int|
            1 <= i < q.len() && pp[i] == head && k <= kk < hi ==> g.nodes[#[trigger] q[i] as int]
                <= (#[trigger] g.edges[kk]).1,
        j < g.nodes.len(),
        g.nodes[j as int] == g.edges[k].1,
        !q.contains(j),
        forall|r: int| 0 <= r < head ==> !g.connected(g.nodes[#[trigger] q[r] as int], g.nodes[j as int]),
    ensures
        bfs_queue_order(g, q.push(j), pp.push(head), pred.update(j as int, Some(q[head])), head),
        forall|i: int, kk: int|
            1 <= i < q.len() + 1 && pp.push(head)[i] == head && k + 1 <= kk < hi ==> g.nodes[#[trigger] q.push(
                j,
            )[i] as int] <= (#[trigger] g.edges[kk]).1,
{
    let q2 = q.push(j);
    let pp_new = pp.push(head);
    let pred2 = pred.update(j as int, Some(q[head]));
    let last = q.len() as int;
    assert forall|kk1: int, kk2: int| lo <= kk1 <= kk2 < hi implies g.edges[kk1].1 <= g.edges[kk2].1 by {
        if kk1 < kk2 {
            assert(edges_sorted(g.edges));
            assert(edge_lt(g.edges[kk1], g.edges[kk2]));
            assert(g.edges[kk1].0 == g.edges[kk2].0);
        }
    }
    assert forall|i: int| 1 <= i < q2.len() implies 0 <= #[trigger] pp_new[i] < i && pp_new[i] <= head
        && pred2[q2[i] as int] == Some(q2[pp_new[i]]) by {
        if i < last {
            assert(q2[i] == q[i] && pp_new[i] == pp[i]);
            assert(q[i] != j);
            assert(q2[pp[i]] == q[pp[i]]);
        } else {
            assert(q2[head] == q[head]);
        }
    }
    assert forall|i: int, r: int| 1 <= i < q2.len() && 0 <= r < pp_new[i] implies !g.connected(
        g.nodes[#[trigger] q2[r] as int],
        g.nodes[#[trigger] q2[i] as int],
    ) by {
        if i < last {
            assert(q2[i] == q[i] && pp_new[i] == pp[i] && q2[r] == q[r]);
        } else {
            assert(q2[r] == q[r]);
        }
    }
    assert forall|i: int, i2: int| 1 <= i < i2 < q2.len() implies #[trigger] pp_new[i] < #[trigger] pp_new[i2]
        || (pp_new[i] == pp_new[i2] && g.nodes[q2[i] as int] < g.nodes[q2[i2] as int]) by {
        if i2 < last {
            assert(q2[i] == q[i] && pp_new[i] == pp[i] && q2[i2] == q[i2] && pp_new[i2] == pp[i2]);
        } else {
            assert(q2[i] == q[i] && pp_new[i] == pp[i]);
            if pp[i] == head {
                assert(g.nodes[q[i] as int] <= g.edges[k].1);
                assert(q[i] != j);
                assert(g.nodes[q[i] as int] != g.nodes[j as int]);
            }
        }
    }
    assert forall|i: int, kk: int|
        1 <= i < q.len() + 1 && pp_new[i] == head && k + 1 <= kk < hi implies g.nodes[#[trigger] q2[i] as int]
            <= (#[trigger] g.edges[kk]).1 by {
        if i < last {
            assert(q2[i] == q[i] && pp_new[i] == pp[i]);
        } else {
            assert(g.edges[k].1 <= g.edges[kk].1);
        }
    }
}

/// The queue, read as node values, is the order of breadth-first search.
pub proof fn lemma_bfs_order_final(
    g: GraphModel,
    src: i64,
    q: Seq<usize>,
    pp: Seq<int>,
    pred: Seq<Option<usize>>,
    head: int,
    m: Map<i64, i64>,
)
    requires
        g.wf(),
        bfs_queue_order(g, q, pp, pred, head),
        q.len() > 0,
        g.nodes[q[0] as int] == src,
        q.no_duplicates(),
        forall|i: int| 0 <= i < q.len() ==> #[trigger] q[i] < g.nodes.len(),
        pred.len() == g.nodes.len(),
        forall|x: int| 0 <= x < g.nodes.len() ==> (pred[x] is Some) == q.contains(x as usize),
        forall|x: int| 0 <= x < g.nodes.len() ==> (pred[x] is Some) == m.contains_key(#[trigger] g.nodes[x]),
        forall|x: int|
            0 <= x < g.nodes.len() && #[trigger] pred[x] is Some ==> pred[x]->0 < g.nodes.len() && m[g.nodes[x]]
                == g.nodes[pred[x]->0 as int],
        forall|v: i64| m.contains_key(v) ==> g.nodes.contains(v),
        g.nodes.len() <= usize::MAX,
    ensures
        bfs_order(g, src, m, q.map_values(|x: usize| g.nodes[x as int])),
{
    let ord = q.map_values(|x: usize| g.nodes[x as int]);
    assert forall|i: int| 0 <= i < ord.len() implies #[trigger] ord[i] == g.nodes[q[i] as int] by {}
    assert forall|i: int, i2: int| 0 <= i < ord.len() && 0 <= i2 < ord.len() && ord[i] == ord[i2] implies i == i2 by {
        if q[i] != q[i2] {
            if q[i] < q[i2] {
                assert(g.nodes[q[i] as int] < g.nodes[q[i2] as int]);
            } else {
                assert(g.nodes[q[i2] as int] < g.nodes[q[i] as int]);
            }
        }
    }
    assert(ord.no_duplicates());
    assert forall|v: i64| m.contains_key(v) <==> ord.contains(v) by {
        if m.contains_key(v) {
            let x = choose|x: int| 0 <= x < g.nodes.len() && g.nodes[x] == v;
            assert(m.contains_key(g.nodes[x]));
            assert(q.contains(x as usize));
            let i = choose|i: int| 0 <= i < q.len() && q[i] == x as usize;
            assert(ord[i] == v);
        }
        if ord.contains(v) {
            let i = choose|i: int| 0 <= i < ord.len() && ord[i] == v;
            assert(q.contains(q[i]));
            assert(m.contains_key(g.nodes[q[i] as int]));
        }
    }
    assert forall|i: int| 1 <= i < ord.len() implies pos_of(ord, m[ord[i]]) == pp[i] by {
        let x = q[i] as int;
        assert(pred[x] == Some(q[pp[i]]));
        assert(m[g.nodes[x]] == g.nodes[q[pp[i]] as int]);
        assert(ord[pp[i]] == m[ord[i]]);
        let p = pos_of(ord, m[ord[i]]);
        assert(0 <= p < ord.len() && ord[p] == m[ord[i]]);
    }
    assert forall|i: int| 1 <= i < ord.len() implies 0 <= pos_of(ord, m[#[trigger] ord[i]]) < i && ord[pos_of(
        ord,
        m[ord[i]],
    )] == m[ord[i]] by {
        assert(pos_of(ord, m[ord[i]]) == pp[i]);
        assert(0 <= pp[i] < i);
        assert(ord[pp[i]] == g.nodes[q[pp[i]] as int]);
        assert(pred[q[i] as int] == Some(q[pp[i]]));
    }
    assert forall|i: int, r: int| 1 <= i < ord.len() && 0 <= r < pos_of(ord, m[ord[i]]) implies !g.connected(
        #[trigger] ord[r],
        #[trigger] ord[i],
    ) by {
        assert(pos_of(ord, m[ord[i]]) == pp[i]);
        assert(!g.connected(g.nodes[q[r] as int], g.nodes[q[i] as int]));
    }
    assert forall|i: int, i2: int| 1 <= i < i2 < ord.len() implies pos_of(ord, m[#[trigger] ord[i]]) < pos_of(
        ord,
        m[#[trigger] ord[i2]],
    ) || (pos_of(ord, m[ord[i]]) == pos_of(ord, m[ord[i2]]) && ord[i] < ord[i2]) by {
        assert(pos_of(ord, m[ord[i]]) == pp[i]);
        assert(pos_of(ord, m[ord[i2]]) == pp[i2]);
        assert(pp[i] < pp[i2] || (pp[i] == pp[i2] && g.nodes[q[i] as int] < g.nodes[q[i2] as int]));
    }
}

} // verus!
