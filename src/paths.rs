use vstd::prelude::*;
use vstd::set_lib::{lemma_int_range, lemma_len_subset, set_int_range};
use crate::graph::GraphModel;

verus! {

/// A node reaches itself by the walk of one node.
pub proof fn lemma_reach_self(g: GraphModel, s: i64)
    requires
        g.nodes.contains(s),
    ensures
        g.reachable(s, s),
{
    let p = seq![s];
    assert(g.is_walk(p) && p[0] == s && p.last() == s);
}

/// A walk to `a` followed by an edge `a -> b` is a walk to `b`.
pub proof fn lemma_reach_step(g: GraphModel, s: i64, a: i64, b: i64)
    requires
        g.reachable(s, a),
        g.connected(a, b),
    ensures
        g.reachable(s, b),
{
    let p = choose|p: Seq<i64>| g.is_walk(p) && p[0] == s && p.last() == a;
    let q = p.push(b);
    assert forall|i: int| 0 <= i < q.len() - 1 implies #[trigger] g.connected(q[i], q[i + 1]) by {
        if i < p.len() - 1 {
            assert(q[i] == p[i] && q[i + 1] == p[i + 1]);
        }
    }
    assert(q[0] == s && q.last() == b);
    assert(g.is_walk(q));
}

/// A set that holds `s` and is closed under edges holds every node reachable from `s`.
pub proof fn lemma_closed_holds_reachable(g: GraphModel, s: i64, found: Set<i64>, t: i64)
    requires
        found.contains(s),
        forall|a: i64, b: i64| found.contains(a) && #[trigger] g.connected(a, b) ==> found.contains(b),
        g.reachable(s, t),
    ensures
        found.contains(t),
{
    let p = choose|p: Seq<i64>| g.is_walk(p) && p[0] == s && p.last() == t;
    lemma_walk_stays_in(g, p, found, p.len() - 1);
}

proof fn lemma_walk_stays_in(g: GraphModel, p: Seq<i64>, found: Set<i64>, i: int)
    requires
        g.is_walk(p),
        0 <= i < p.len(),
        found.contains(p[0]),
        forall|a: i64, b: i64| found.contains(a) && #[trigger] g.connected(a, b) ==> found.contains(b),
    ensures
        found.contains(p[i]),
    decreases i,
{
    if i > 0 {
        lemma_walk_stays_in(g, p, found, i - 1);
        let j = i - 1;
        assert(g.connected(p[j], p[j + 1]));
    }
}

/// A sequence of distinct indices below `n` has at most `n` elements.
pub proof fn lemma_distinct_indices_bounded(q: Seq<usize>, n: usize)
    requires
        q.no_duplicates(),
        forall|k: int| 0 <= k < q.len() ==> q[k] < n,
    ensures
        q.len() <= n,
{
    let r = set_int_range(0, n as int);
    let qs = q.to_set().map(|x: usize| x as int);
    q.unique_seq_to_set();
    lemma_int_range(0, n as int);
    assert(qs.subset_of(r));
    lemma_len_subset(qs, r);
    assert(vstd::relations::injective_on(|x: usize| x as int, q.to_set()));
    vstd::set_lib::lemma_map_size(q.to_set(), qs, |x: usize| x as int);
}

/// The number of `false` entries.
pub open spec fn count_false(s: Seq<bool>) -> int
    decreases s.len(),
{
    if s.len() == 0 {
        0
    } else {
        count_false(s.drop_last()) + if s.last() {
            0int
        } else {
            1int
        }
    }
}

pub proof fn lemma_count_false_len(s: Seq<bool>)
    ensures
        count_false(s) <= s.len(),
    decreases s.len(),
{
    if s.len() > 0 {
        lemma_count_false_len(s.drop_last());
    }
}

/// Turning entries to `true` never adds a `false`, and turning one strictly
/// lowers the count.
pub proof fn lemma_count_false_mono(a: Seq<bool>, b: Seq<bool>)
    requires
        a.len() == b.len(),
        forall|i: int| 0 <= i < a.len() && a[i] ==> b[i],
    ensures
        0 <= count_false(b) <= count_false(a),
        (exists|i: int| 0 <= i < a.len() && !a[i] && b[i]) ==> count_false(b) < count_false(a),
    decreases a.len(),
{
    if a.len() > 0 {
        let a2 = a.drop_last();
        let b2 = b.drop_last();
        lemma_count_false_mono(a2, b2);
        if exists|i: int| 0 <= i < a.len() && !a[i] && b[i] {
            let i = choose|i: int| 0 <= i < a.len() && !a[i] && b[i];
            if i < a.len() - 1 {
                assert(!a2[i] && b2[i]);
            }
        }
    }
}

/// The position of `v` in a sequence that holds it.
pub open spec fn pos_of(s: Seq<i64>, v: i64) -> int {
    choose|j: int| 0 <= j < s.len() && s[j] == v
}

/// Every edge leads from a node to one that stands earlier in `ord`.
pub open spec fn edges_point_back(g: GraphModel, ord: Seq<i64>) -> bool {
    forall|i: int, k: int|
        0 <= i < ord.len() && 0 <= k < g.edges.len() && (#[trigger] g.edges[k]).0 == #[trigger] ord[i]
            ==> ord.subrange(0, i).contains(g.edges[k].1)
}

proof fn lemma_edge_goes_back(g: GraphModel, ord: Seq<i64>, a: i64, b: i64)
    requires
        g.wf(),
        ord.no_duplicates(),
        edges_point_back(g, ord),
        ord.contains(a),
        g.connected(a, b),
    ensures
        ord.contains(b),
        pos_of(ord, b) < pos_of(ord, a),
{
    let i = pos_of(ord, a);
    let w = choose|w: Option<u64>| g.edges.contains((a, b, w));
    let k = choose|k: int| 0 <= k < g.edges.len() && g.edges[k] == (a, b, w);
    assert(g.edges[k].0 == ord[i]);
    assert(ord.subrange(0, i).contains(b));
    let j = choose|j: int| 0 <= j < i && ord.subrange(0, i)[j] == b;
    assert(ord[j] == b);
    let pb = pos_of(ord, b);
    assert(pb == j);
}

proof fn lemma_walk_goes_back(g: GraphModel, ord: Seq<i64>, p: Seq<i64>, i: int)
    requires
        g.wf(),
        ord.no_duplicates(),
        edges_point_back(g, ord),
        forall|v: i64| g.nodes.contains(v) ==> ord.contains(v),
        g.is_walk(p),
        1 <= i < p.len(),
    ensures
        ord.contains(p[i]),
        pos_of(ord, p[i]) < pos_of(ord, p[0]),
    decreases i,
{
    assert(g.connected(p[i - 1], p[(i - 1) + 1]));
    if i == 1 {
        lemma_edge_goes_back(g, ord, p[0], p[1]);
    } else {
        lemma_walk_goes_back(g, ord, p, i - 1);
        lemma_edge_goes_back(g, ord, p[i - 1], p[i]);
    }
}

/// An order of all nodes in which every edge points back is a witness that
/// the graph has no cycle.
pub proof fn lemma_back_order_acyclic(g: GraphModel, ord: Seq<i64>)
    requires
        g.wf(),
        ord.no_duplicates(),
        edges_point_back(g, ord),
        forall|v: i64| g.nodes.contains(v) ==> ord.contains(v),
    ensures
        !g.has_cycle(),
{
    if g.has_cycle() {
        let p = choose|p: Seq<i64>| g.is_walk(p) && p.len() >= 2 && p[0] == p.last();
        lemma_walk_goes_back(g, ord, p, p.len() - 1);
    }
}

} // verus!
