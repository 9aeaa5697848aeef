//! Laws that relate the results of the shortest-path routines to the graph.
use vstd::prelude::*;
use std::collections::BTreeMap;
use crate::graph::bellman_ford::Graph;
use crate::graph::dijkstra::nonnegative;
use crate::graph::relaxation::{distance, shortest_paths};
use crate::graph::run::{bellman_ford_run, records_of};
use crate::graph::walks::{
    edge_weight, has_edge, has_negative_cycle, is_walk, lemma_walk_drop_last, lemma_walk_push,
    lemma_walk_single, lemma_walk_split, negative_cycle, reachable, walk_between, walk_weight,
};
use crate::graph::weight::Weight;

verus! {

/// An edge of negative weight from a vertex to itself is a negative cycle:
/// every source from which that vertex can be reached reaches a negative
/// cycle, even where the vertex is the only one of the graph.
pub proof fn lemma_negative_self_loop<V, E: Weight>(g: Graph<V, E>, source: V, a: V)
    requires
        has_edge(g, a, a),
        edge_weight(g, a, a) < 0,
        reachable(g, source, a),
    ensures
        has_negative_cycle(g, source),
{
    lemma_walk_single(g, a);
    lemma_walk_push(g, seq![a], a);
    let c = seq![a].push(a);
    assert(negative_cycle(g, c) && reachable(g, source, c[0]));
}

/// A negative cycle can be reached from each of its own vertices.
pub proof fn lemma_negative_cycle_from_inside<V, E: Weight>(g: Graph<V, E>, c: Seq<V>, i: int)
    requires
        negative_cycle(g, c),
        0 <= i < c.len(),
    ensures
        has_negative_cycle(g, c[i]),
{
    lemma_walk_split(g, c, i);
    let rest = c.subrange(i, c.len() as int);
    assert(walk_between(g, rest, c[i], c[0]));
    assert(negative_cycle(g, c) && reachable(g, c[i], c[0]));
}

/// A negative cycle that can be reached from some vertex can be reached
/// from every source that reaches that vertex.
pub proof fn lemma_negative_cycle_spreads<V, E: Weight>(g: Graph<V, E>, source: V, via: V)
    requires
        reachable(g, source, via),
        has_negative_cycle(g, via),
    ensures
        has_negative_cycle(g, source),
{
    let c = choose|c: Seq<V>| negative_cycle(g, c) && reachable(g, via, #[trigger] c[0]);
    let p = choose|p: Seq<V>| walk_between(g, p, source, via);
    let q = choose|q: Seq<V>| walk_between(g, q, via, c[0]);
    crate::graph::walks::lemma_walk_join(g, p, q);
    assert(walk_between(g, p + q.drop_first(), source, c[0]));
    assert(negative_cycle(g, c) && reachable(g, source, c[0]));
}

/// Where a vertex other than the source has a single vertex with an edge to
/// it, as every vertex but the root of a tree has, shortest paths record
/// that vertex as its predecessor, and its distance is the predecessor's
/// distance plus the weight of the edge between them.
pub proof fn lemma_single_parent<V, E: Weight>(
    g: Graph<V, E>,
    source: V,
    m: Map<V, Option<(V, E)>>,
    parent: V,
    v: V,
)
    requires
        shortest_paths(g, source, m),
        m.contains_key(v),
        v != source,
        forall|u: V| #[trigger] has_edge(g, u, v) ==> u == parent,
    ensures
        m[v] matches Some(r) && r.0 == parent,
        distance(m, v) == distance(m, parent) + edge_weight(g, parent, v),
{
    let r = m[v];
    assert(r is Some);
}

/// Two outcomes of a shortest-path computation on the same graph from the
/// same source agree: both report a negative cycle or neither does, and
/// where they hold records, these are for the same vertices and give every
/// vertex the same distance.
pub proof fn lemma_results_agree<V, E: Weight>(
    g: Graph<V, E>,
    source: V,
    a: Option<Map<V, Option<(V, E)>>>,
    b: Option<Map<V, Option<(V, E)>>>,
)
    requires
        a is None <==> has_negative_cycle(g, source),
        b is None <==> has_negative_cycle(g, source),
        a matches Some(m) ==> shortest_paths(g, source, m),
        b matches Some(m) ==> shortest_paths(g, source, m),
    ensures
        a is None <==> b is None,
        match (a, b) {
            (Some(x), Some(y)) => {
                &&& x.dom() == y.dom()
                &&& forall|v: V| #[trigger]
                    x.contains_key(v) ==> {
                        &&& distance(x, v) == distance(y, v)
                        &&& x[v] is None <==> y[v] is None
                        &&& (x[v] matches Some(r) ==> y[v] matches Some(s) && r.1 == s.1)
                    }
            },
            _ => true,
        },
{
    if let (Some(x), Some(y)) = (a, b) {
        assert forall|v: V| x.dom().contains(v) <==> y.dom().contains(v) by {
            if x.contains_key(v) {
                assert(reachable(g, source, v));
            }
            if y.contains_key(v) {
                assert(reachable(g, source, v));
            }
        }
        assert(x.dom() =~= y.dom());
        assert forall|v: V| #[trigger] x.contains_key(v) implies {
            &&& distance(x, v) == distance(y, v)
            &&& x[v] is None <==> y[v] is None
            &&& (x[v] matches Some(r) ==> y[v] matches Some(s) && r.1 == s.1)
        } by {
            assert(y.contains_key(v));
            if v != source {
                let rx = x[v];
                let ry = y[v];
                assert(rx is Some && ry is Some);
                let tx = rx->0;
                let ty = ry->0;
                let dx = tx.1;
                let dy = ty.1;
                let px = choose|p: Seq<V>|
                    walk_between(g, p, source, v) && #[trigger] walk_weight(g, p) == dx.value();
                let py = choose|p: Seq<V>|
                    walk_between(g, p, source, v) && #[trigger] walk_weight(g, p) == dy.value();
                assert(dx.value() <= walk_weight(g, py));
                assert(dy.value() <= walk_weight(g, px));
                E::lemma_value_injective(dx, dy);
            }
        }
    }
}

/// Running the Bellman-Ford algorithm twice on the same graph from the
/// same source gives the same result: both runs report a negative cycle,
/// or both hold the same records, predecessors included.
pub proof fn lemma_same_run<V, E: Weight>(
    g: Graph<V, E>,
    source: V,
    first: Option<BTreeMap<V, Option<(V, E)>>>,
    second: Option<BTreeMap<V, Option<(V, E)>>>,
)
    requires
        records_of(first) == bellman_ford_run(g, source),
        records_of(second) == bellman_ford_run(g, source),
    ensures
        records_of(first) == records_of(second),
        first is None <==> second is None,
{
}

/// In a graph without negative weights no walk has a negative weight.
pub proof fn lemma_nonnegative_walk<V, E: Weight>(g: Graph<V, E>, p: Seq<V>)
    requires
        nonnegative(g),
        is_walk(g, p),
    ensures
        0 <= walk_weight(g, p),
    decreases p.len(),
{
    if p.len() >= 2 {
        lemma_walk_drop_last(g, p);
        lemma_nonnegative_walk(g, p.drop_last());
    }
}

/// A graph without negative weights has no negative cycle that any source
/// could reach.
pub proof fn lemma_nonnegative_no_cycle<V, E: Weight>(g: Graph<V, E>, source: V)
    requires
        nonnegative(g),
    ensures
        !has_negative_cycle(g, source),
{
    if has_negative_cycle(g, source) {
        let c = choose|c: Seq<V>| negative_cycle(g, c) && reachable(g, source, #[trigger] c[0]);
        lemma_nonnegative_walk(g, c);
    }
}

} // verus!
