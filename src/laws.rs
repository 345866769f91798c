use vstd::prelude::*;
use crate::graph::{avoids, touches, Edge, GraphModel};

verus! {

/// Filtering by a predicate and by its negation splits a sequence: the two
/// lengths add up to the whole.
pub proof fn lemma_filter_split_len<A>(s: Seq<A>, p: spec_fn(A) -> bool, q: spec_fn(A) -> bool)
    requires
        forall|x: A| #[trigger] p(x) == !q(x),
    ensures
        s.filter(p).len() + s.filter(q).len() == s.len(),
    decreases s.len(),
{
    reveal(Seq::filter);
    if s.len() > 0 {
        lemma_filter_split_len(s.drop_last(), p, q);
    }
}

/// After `add_node(v)`, `v` is a node; a second `add_node(v)` returns `false`
/// and leaves the node count as it was.
pub proof fn law_add_node_twice(
    g0: GraphModel,
    v: i64,
    r1: bool,
    g1: GraphModel,
    r2: bool,
    g2: GraphModel,
)
    requires
        g0.wf(),
        g0.add_node_post(v, r1, g1),
        g1.add_node_post(v, r2, g2),
    ensures
        g1.nodes.contains(v),
        !r2,
        g2.nodes.len() == g1.nodes.len(),
{
    assert(g1.node_set().contains(v));
}

/// For registered `src` and `dst`: after `add_edge` the edge is present; a
/// following `remove_edge` returns `true` and leaves it absent; removing it
/// again returns `false`.
pub proof fn law_add_remove_edge(
    g0: GraphModel,
    src: i64,
    dst: i64,
    w: Option<u64>,
    r1: bool,
    g1: GraphModel,
    r2: bool,
    g2: GraphModel,
    r3: bool,
    g3: GraphModel,
)
    requires
        g0.wf(),
        g0.nodes.contains(src),
        g0.nodes.contains(dst),
        g0.add_edge_post(src, dst, w, r1, g1),
        g1.remove_edge_post(src, dst, w, r2, g2),
        g2.remove_edge_post(src, dst, w, r3, g3),
    ensures
        g1.edges.contains((src, dst, w)),
        r2,
        !g2.edges.contains((src, dst, w)),
        !r3,
{
    let e: Edge = (src, dst, w);
    if r1 {
        assert(g1.edge_set().contains(e));
    }
    assert(!g2.edge_set().contains(e));
}

/// `remove_node(v)` leaves neither `v` nor any edge at it, and the edge
/// count drops by exactly the number of edges that had `v` as an endpoint.
pub proof fn law_remove_node_edges(g0: GraphModel, v: i64, r: bool, g1: GraphModel)
    requires
        g0.wf(),
        g0.remove_node_post(v, r, g1),
    ensures
        !g1.nodes.contains(v),
        forall|k: int| 0 <= k < g1.edges.len() ==> (#[trigger] g1.edges[k]).0 != v && g1.edges[k].1 != v,
        g1.edges.len() == g0.edges.len() - g0.touching(v).len(),
{
    assert(!g1.node_set().contains(v));
    lemma_filter_split_len(g0.edges, avoids(v), touches(v));
    g0.edges.filter_lemma(avoids(v));
    assert forall|k: int| 0 <= k < g1.edges.len() implies (#[trigger] g1.edges[k]).0 != v
        && g1.edges[k].1 != v by {
        assert(avoids(v)(g0.edges.filter(avoids(v))[k]));
    }
}

/// `add_undirected_edge(a, b, w)` adds exactly what `add_edge(a, b, w)`
/// followed by `add_edge(b, a, w)` adds; calling it again returns `false`;
/// with `a == b` it returns `false` and changes nothing.
pub proof fn law_undirected_edge(
    g0: GraphModel,
    a: i64,
    b: i64,
    w: Option<u64>,
    r: bool,
    g1: GraphModel,
    r_again: bool,
    g2: GraphModel,
    ra: bool,
    ga: GraphModel,
    rb: bool,
    gb: GraphModel,
)
    requires
        g0.wf(),
        g0.add_undirected_edge_post(a, b, w, r, g1),
        g1.add_undirected_edge_post(a, b, w, r_again, g2),
        g0.add_edge_post(a, b, w, ra, ga),
        ga.add_edge_post(b, a, w, rb, gb),
    ensures
        r ==> ra && rb && gb.nodes == g1.nodes && gb.edge_set() == g1.edge_set(),
        !r_again,
        a == b ==> !r && g1 == g0,
{
    if r {
        assert(ga.edge_set().contains((a, b, w)) == ga.edges.contains((a, b, w)));
        assert(!g0.edge_set().contains((b, a, w)));
        assert(!ga.edge_set().contains((b, a, w)));
        assert(gb.edge_set() =~= g1.edge_set());
        assert(g1.edge_set().contains((a, b, w)));
    }
}

} // verus!
