//! The run of the Bellman-Ford algorithm, step by step: which records it
//! holds after each edge, in the order in which the graph hands out its
//! vertices and edges. This fixes the result down to the predecessors.
use vstd::prelude::*;
use std::collections::BTreeMap;
use vstd::std_specs::btree::{into_iter, spec_btree_map_iter};
use crate::graph::bellman_ford::Graph;
use crate::graph::relaxation::{distance, settled};
use crate::graph::weight::Weight;

verus! {

/// The weight that stands for the integer `x`.
pub open spec fn weight_of<E: Weight>(x: int) -> E {
    choose|c: E| c.value() == x
}

/// A weight is the weight that stands for its value.
pub proof fn lemma_weight_of<E: Weight>(c: E)
    ensures
        weight_of::<E>(c.value()) == c,
{
    let d = weight_of::<E>(c.value());
    assert(d.value() == c.value());
    E::lemma_value_injective(d, c);
}

/// The records after the edge from `u` to `v` of weight `w` has been
/// relaxed, where `du` is the distance that was read for `u`. `None`
/// stands for a run that has come upon a negative cycle through the
/// source, and stays `None`.
pub open spec fn relaxed<V, E: Weight>(
    state: Option<Map<V, Option<(V, E)>>>,
    u: V,
    du: int,
    v: V,
    w: E,
) -> Option<Map<V, Option<(V, E)>>> {
    match state {
        None => None,
        Some(m) => {
            let c = du + w.value();
            if !m.contains_key(v) {
                Some(m.insert(v, Some((u, weight_of::<E>(c)))))
            } else if m[v] is None {
                if c < 0 {
                    None
                } else {
                    Some(m)
                }
            } else if c < distance(m, v) {
                Some(m.insert(v, Some((u, weight_of::<E>(c)))))
            } else {
                Some(m)
            }
        },
    }
}

/// The records after the first `upto` of the edges `edges` that leave `u`
/// have been relaxed.
pub open spec fn relaxed_edges<V, E: Weight>(
    state: Option<Map<V, Option<(V, E)>>>,
    u: V,
    du: int,
    edges: Seq<(V, E)>,
    upto: int,
) -> Option<Map<V, Option<(V, E)>>>
    decreases upto,
{
    if upto <= 0 {
        state
    } else {
        relaxed(
            relaxed_edges(state, u, du, edges, upto - 1),
            u,
            du,
            edges[upto - 1].0,
            edges[upto - 1].1,
        )
    }
}

/// The edges that leave a vertex, in the order in which they are handed
/// out: each destination with the weight of the edge to it.
pub open spec fn edge_order<V, E>(edges: BTreeMap<V, E>) -> Seq<(V, E)> {
    into_iter(spec_btree_map_iter(&edges))
}

/// The vertices of a graph, in the order in which they are handed out,
/// each with its edges.
pub open spec fn vertex_order<V, E>(g: Graph<V, E>) -> Seq<(V, BTreeMap<V, E>)> {
    into_iter(spec_btree_map_iter(&g))
}

/// The records after the edges of one vertex have been relaxed: nothing
/// happens for a vertex that is not recorded; for a recorded one its
/// distance is read once and all its edges are relaxed with it.
pub open spec fn relaxed_vertex<V, E: Weight>(
    state: Option<Map<V, Option<(V, E)>>>,
    u: V,
    edges: BTreeMap<V, E>,
) -> Option<Map<V, Option<(V, E)>>> {
    match state {
        None => None,
        Some(m) => if m.contains_key(u) {
            let order = edge_order(edges);
            relaxed_edges(state, u, distance(m, u), order, order.len() as int)
        } else {
            state
        },
    }
}

/// The records after the first `upto` of the vertices `vertices` have had
/// their edges relaxed.
pub open spec fn relaxed_vertices<V, E: Weight>(
    state: Option<Map<V, Option<(V, E)>>>,
    vertices: Seq<(V, BTreeMap<V, E>)>,
    upto: int,
) -> Option<Map<V, Option<(V, E)>>>
    decreases upto,
{
    if upto <= 0 {
        state
    } else {
        relaxed_vertex(
            relaxed_vertices(state, vertices, upto - 1),
            vertices[upto - 1].0,
            vertices[upto - 1].1,
        )
    }
}

/// The records after `rounds` passes over all edges of the graph, starting
/// with the source alone.
pub open spec fn after_rounds<V, E: Weight>(g: Graph<V, E>, source: V, rounds: int) -> Option<
    Map<V, Option<(V, E)>>,
>
    decreases rounds,
{
    if rounds <= 0 {
        Some(Map::<V, Option<(V, E)>>::empty().insert(source, None))
    } else {
        let order = vertex_order(g);
        relaxed_vertices(after_rounds(g, source, rounds - 1), order, order.len() as int)
    }
}

/// The number of passes: one less than the graph has vertices.
pub open spec fn passes<V, E>(g: Graph<V, E>) -> int {
    if g@.len() >= 1 {
        g@.len() - 1
    } else {
        0
    }
}

/// What a run of the algorithm on `g` from `source` results in: the records
/// after all passes, if no edge could still lower a distance, and `None`
/// otherwise.
pub open spec fn bellman_ford_run<V, E: Weight>(g: Graph<V, E>, source: V) -> Option<
    Map<V, Option<(V, E)>>,
> {
    match after_rounds(g, source, passes(g)) {
        Some(m) => if settled(g, m) {
            Some(m)
        } else {
            None
        },
        None => None,
    }
}

/// The records that a result holds, if it holds any.
pub open spec fn records_of<V, E>(result: Option<BTreeMap<V, Option<(V, E)>>>) -> Option<
    Map<V, Option<(V, E)>>,
> {
    match result {
        Some(paths) => Some(paths@),
        None => None,
    }
}

/// Once a run has come upon a negative cycle, relaxing more edges changes
/// nothing.
pub proof fn lemma_edges_stay_none<V, E: Weight>(
    state: Option<Map<V, Option<(V, E)>>>,
    u: V,
    du: int,
    edges: Seq<(V, E)>,
    from: int,
    upto: int,
)
    requires
        0 <= from <= upto,
        relaxed_edges(state, u, du, edges, from) is None,
    ensures
        relaxed_edges(state, u, du, edges, upto) is None,
    decreases upto - from,
{
    if from < upto {
        lemma_edges_stay_none(state, u, du, edges, from, upto - 1);
    }
}

/// Once a run has come upon a negative cycle, relaxing the edges of more
/// vertices changes nothing.
pub proof fn lemma_vertices_stay_none<V, E: Weight>(
    state: Option<Map<V, Option<(V, E)>>>,
    vertices: Seq<(V, BTreeMap<V, E>)>,
    from: int,
    upto: int,
)
    requires
        0 <= from <= upto,
        relaxed_vertices(state, vertices, from) is None,
    ensures
        relaxed_vertices(state, vertices, upto) is None,
    decreases upto - from,
{
    if from < upto {
        lemma_vertices_stay_none(state, vertices, from, upto - 1);
    }
}

/// Once a run has come upon a negative cycle, more passes change nothing.
pub proof fn lemma_rounds_stay_none<V, E: Weight>(g: Graph<V, E>, source: V, from: int, upto: int)
    requires
        0 <= from <= upto,
        after_rounds(g, source, from) is None,
    ensures
        after_rounds(g, source, upto) is None,
    decreases upto - from,
{
    if from < upto {
        lemma_rounds_stay_none(g, source, from, upto - 1);
        let order = vertex_order(g);
        lemma_vertices_stay_none(
            after_rounds(g, source, upto - 1),
            order,
            0,
            order.len() as int,
        );
    }
}

} // verus!
