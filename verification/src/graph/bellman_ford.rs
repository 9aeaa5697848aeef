//! Single-source shortest paths by the Bellman-Ford algorithm.
use vstd::prelude::*;
use std::collections::BTreeMap;
use vstd::std_specs::iter::IteratorSpec;
use crate::graph::relaxation::{
    covers,
    covers_all,
    covers_via,
    distance,
    distances_within,
    lemma_budget,
    lemma_covers_all,
    lemma_edge_stays_inside,
    lemma_final_budget,
    lemma_initial,
    lemma_negative_return,
    lemma_pass_complete,
    lemma_read,
    lemma_relax_keep,
    lemma_relax_skip,
    lemma_relax_update,
    lemma_settled_is_shortest,
    lemma_steps,
    lemma_unsettled_edge,
    lemma_within_after_update,
    lemma_within_more,
    read_sound,
    record_sound,
    records_sound,
    shortest_paths,
    sums_fit,
    weights_fit,
};
use crate::graph::run::{
    after_rounds,
    bellman_ford_run,
    edge_order,
    lemma_edges_stay_none,
    lemma_rounds_stay_none,
    lemma_vertices_stay_none,
    lemma_weight_of,
    passes,
    records_of,
    relaxed,
    relaxed_edges,
    relaxed_vertex,
    relaxed_vertices,
    vertex_order,
};
use crate::graph::walks::{
    edge_weight,
    has_edge,
    has_negative_cycle,
    walk_between,
    walk_weight,
    well_formed,
};
use crate::graph::weight::Weight;
use crate::order::ordered_keys;

verus! {

/// A weighted directed graph: each vertex maps to its out-edges, each
/// out-edge maps its destination to the edge's weight.
pub type Graph<V, E> = BTreeMap<V, BTreeMap<V, E>>;

/// What the records hold for `v`: `None` where `v` is not recorded,
/// `Some(None)` for the source, and the recorded distance otherwise.
pub(crate) fn recorded<V: Ord + Copy, E: Weight>(ans: &BTreeMap<V, Option<(V, E)>>, v: &V) -> (r: Option<
    Option<E>,
>)
    requires
        ordered_keys::<V>(),
    ensures
        r is None <==> !ans@.contains_key(*v),
        r == Some(None::<E>) <==> ans@.contains_key(*v) && ans@[*v] is None,
        r matches Some(Some(d)) ==> d.value() == distance(ans@, *v),
{
    match ans.get(v) {
        Some(Some((_, d))) => Some(Some(*d)),
        Some(None) => Some(None),
        None => None,
    }
}

/// The distance over an edge of weight `w` from a vertex whose recorded
/// distance is `du` (`None` for the source, which stands for zero).
pub(crate) fn through<E: Weight>(du: Option<E>, w: E) -> (c: E)
    requires
        match du {
            Some(d) => E::lowest() <= d.value() + w.value() <= E::highest(),
            None => true,
        },
    ensures
        c.value() == w.value() + match du {
            Some(d) => d.value(),
            None => 0,
        },
{
    match du {
        Some(d) => d.plus(w),
        None => w,
    }
}

/// Computes the shortest paths from `start` to every vertex that can be
/// reached from it, or reports that a negative cycle can be reached.
///
/// The result is `None` exactly when some closed walk of negative weight can
/// be reached from `start`. Otherwise it holds a record for exactly the
/// reachable vertices: `None` for `start`, and for every other vertex its
/// predecessor on a shortest walk together with the least weight of a walk
/// from `start`.
///
/// Edges are relaxed in the order of the vertices and, for each vertex, of
/// its destinations; of two ways of equal weight the first found is kept.
pub fn bellman_ford<V: Ord + Copy, E: Weight>(graph: &Graph<V, E>, start: &V) -> (result: Option<
    BTreeMap<V, Option<(V, E)>>,
>)
    requires
        ordered_keys::<V>(),
        well_formed(*graph),
        sums_fit(*graph),
    ensures
        match result {
            Some(paths) => shortest_paths(*graph, *start, paths@),
            None => true,
        },
        result is None <==> has_negative_cycle(*graph, *start),
        records_of(result) == bellman_ford_run(*graph, *start),
{
    let mut ans: BTreeMap<V, Option<(V, E)>> = BTreeMap::new();
    ans.insert(*start, None);
    let n = graph.len();
    let ghost bound = choose|bound: int| weights_fit(*graph, bound);
    let ghost cap = bound * n * n;
    let ghost mut lim: int = 0;
    let ghost vertices = vertex_order(*graph);
    proof {
        lemma_initial(*graph, *start, ans@);
        assert(((1 - 1) * n) * bound == 0) by (nonlinear_arith);
    }
    let mut round: usize = 1;
    while round < n
        invariant
            ordered_keys::<V>(),
            well_formed(*graph),
            weights_fit(*graph, bound),
            n == graph@.len(),
            cap == bound * n * n,
            1 <= round,
            round <= n || round == 1,
            lim == ((round - 1) * n) * bound,
            records_sound(*graph, *start, ans@),
            covers(*graph, *start, ans@, round - 1),
            distances_within(ans@, lim),
            vertices == vertex_order(*graph),
            Some(ans@) == after_rounds(*graph, *start, round - 1),
        decreases n - round,
    {
        let ghost k = round - 1;
        let ghost pass_start = Some(ans@);
        let ghost mut done = Set::<(V, V)>::empty();
        let ghost mut seen = Set::<V>::empty();
        for (u, edges) in it: graph.iter()
            invariant
                ordered_keys::<V>(),
                well_formed(*graph),
                weights_fit(*graph, bound),
                n == graph@.len(),
                cap == bound * n * n,
                1 <= round < n,
                k == round - 1,
                it.seq() == graph.iter().remaining(),
                it.seq().len() == n,
                vertices == vertex_order(*graph),
                vertices == it.seq().unref(),
                pass_start == after_rounds(*graph, *start, round - 1),
                Some(ans@) == relaxed_vertices(pass_start, vertices, it.index()),
                lim == ((round - 1) * n + it.index()) * bound,
                records_sound(*graph, *start, ans@),
                covers(*graph, *start, ans@, k),
                covers_via(*graph, *start, ans@, k, done),
                distances_within(ans@, lim),
                forall|i: int| 0 <= i < it.index() ==> seen.contains(*(#[trigger] it.seq()[i]).0),
                forall|x: V, v: V|
                    seen.contains(x) && #[trigger] has_edge(*graph, x, v) ==> done.contains((x, v)),
        {
            proof {
                lemma_steps(n as int, round as int, it.index());
                lemma_budget(bound, n as int, (round - 1) * n + it.index());
            }
            match recorded(&ans, u) {
                Some(du) => {
                    let ghost du_int = distance(ans@, *u);
                    let ghost vertex_start = Some(ans@);
                    let ghost order = edge_order(*edges);
                    proof {
                        lemma_read(*graph, *start, ans@, k, *u);
                        lemma_within_more(ans@, lim, lim + bound);
                        assert(vertices[it.index()] == (*u, *edges));
                    }
                    for (v, w) in jt: edges.iter()
                        invariant
                            ordered_keys::<V>(),
                            weights_fit(*graph, bound),
                            cap == bound * n * n,
                            n == graph@.len(),
                            graph@.contains_key(*u),
                            graph@[*u] == *edges,
                            jt.seq() == edges.iter().remaining(),
                            order == edge_order(*edges),
                            order == jt.seq().unref(),
                            Some(ans@) == relaxed_edges(
                                vertex_start,
                                *u,
                                du_int,
                                order,
                                jt.index(),
                            ),
                            vertices == vertex_order(*graph),
                            pass_start == after_rounds(*graph, *start, round - 1),
                            0 <= it.index() < vertices.len(),
                            vertices[it.index()] == (*u, *edges),
                            vertex_start == relaxed_vertices(pass_start, vertices, it.index()),
                            vertex_start matches Some(m) && m.contains_key(*u) && distance(m, *u)
                                == du_int,
                            1 <= round < n,
                            0 <= lim,
                            lim + bound <= cap,
                            du_int == match du {
                                Some(d) => d.value(),
                                None => 0,
                            },
                            -lim <= du_int <= lim,
                            read_sound(*graph, *start, ans@, k, *u, du_int),
                            records_sound(*graph, *start, ans@),
                            covers(*graph, *start, ans@, k),
                            covers_via(*graph, *start, ans@, k, done),
                            distances_within(ans@, lim + bound),
                            forall|j: int|
                                0 <= j < jt.index() ==> done.contains(
                                    (*u, *(#[trigger] jt.seq()[j]).0),
                                ),
                            forall|x: V, v: V|
                                seen.contains(x) && #[trigger] has_edge(*graph, x, v)
                                    ==> done.contains((x, v)),
                    {
                        assert(has_edge(*graph, *u, *v));
                        assert(edge_weight(*graph, *u, *v) == w.value());
                        let cand = through(du, *w);
                        proof {
                            assert(order[jt.index()] == (*v, *w));
                            lemma_weight_of(cand);
                        }
                        let ghost here = Some(ans@);
                        let improves = match recorded(&ans, v) {
                            Some(Some(dv)) => cand.below(dv),
                            Some(None) => {
                                if cand.negative() {
                                    proof {
                                        assert(relaxed(here, *u, du_int, *v, *w) is None);
                                        lemma_edges_stay_none(
                                            vertex_start,
                                            *u,
                                            du_int,
                                            order,
                                            jt.index() + 1,
                                            order.len() as int,
                                        );
                                        assert(relaxed_vertex(vertex_start, *u, *edges) is None);
                                        lemma_vertices_stay_none(
                                            pass_start,
                                            vertices,
                                            it.index() + 1,
                                            vertices.len() as int,
                                        );
                                        lemma_rounds_stay_none(
                                            *graph,
                                            *start,
                                            round as int,
                                            passes(*graph),
                                        );
                                        assert(record_sound(*graph, *start, ans@, *v));
                                        let p = choose|p: Seq<V>|
                                            walk_between(*graph, p, *start, *u)
                                                && #[trigger] walk_weight(*graph, p) == du_int;
                                        lemma_negative_return(*graph, *start, p, *u);
                                    }
                                    return None;
                                }
                                false
                            },
                            None => true,
                        };
                        if improves {
                            proof {
                                assert(ans@.contains_key(*v) ==> record_sound(
                                    *graph,
                                    *start,
                                    ans@,
                                    *v,
                                ));
                                lemma_relax_update(
                                    *graph,
                                    *start,
                                    ans@,
                                    k,
                                    done,
                                    *u,
                                    du_int,
                                    *v,
                                    cand,
                                );
                                lemma_within_after_update(ans@, *v, (*u, cand), lim + bound);
                            }
                            ans.insert(*v, Some((*u, cand)));
                        } else {
                            proof {
                                lemma_relax_keep(*graph, *start, ans@, k, done, *u, du_int, *v);
                            }
                        }
                        proof {
                            done = done.insert((*u, *v));
                            assert(Some(ans@) == relaxed(here, *u, du_int, *v, *w));
                        }
                    }
                    proof {
                        assert(Some(ans@) == relaxed_vertex(vertex_start, *u, *edges));
                        assert forall|v: V| has_edge(*graph, *u, v) implies done.contains(
                            (*u, v),
                        ) by {
                            let s = edges.iter().remaining();
                            assert(s.contains((&v, &edges@[v])));
                            let j = choose|j: int| 0 <= j < s.len() && s[j] == (&v, &edges@[v]);
                            assert(*s[j].0 == v);
                        }
                    }
                },
                None => {
                    proof {
                        assert(vertices[it.index()] == (*u, *edges));
                        assert(relaxed_vertex(Some(ans@), *u, *edges) == Some(ans@));
                        lemma_relax_skip(*graph, *start, ans@, k, done, *u);
                        lemma_within_more(ans@, lim, lim + bound);
                        done = done.union(Set::new(|e: (V, V)| e.0 == *u));
                    }
                },
            }
            proof {
                seen = seen.insert(*u);
                lim = lim + bound;
            }
        }
        proof {
            assert forall|u: V, v: V| #[trigger] has_edge(*graph, u, v) implies done.contains(
                (u, v),
            ) by {
                let s = graph.iter().remaining();
                assert(s.contains((&u, &graph@[u])));
                let i = choose|i: int| 0 <= i < s.len() && s[i] == (&u, &graph@[u]);
                assert(*s[i].0 == u);
            }
            lemma_pass_complete(*graph, *start, ans@, k, done);
            lemma_steps(n as int, round as int, 0);
            assert(Some(ans@) == after_rounds(*graph, *start, round as int));
        }
        round += 1;
    }
    proof {
        lemma_covers_all(*graph, *start, ans@, round - 1);
        if n >= 1 {
            lemma_final_budget(bound, n as int, round as int);
        }
        assert(round - 1 == passes(*graph));
    }
    let ghost mut seen = Set::<V>::empty();
    for (u, edges) in it: graph.iter()
        invariant
            ordered_keys::<V>(),
            weights_fit(*graph, bound),
            n == graph@.len(),
            cap == bound * n * n,
            n >= 1 ==> 0 <= lim && lim + bound <= cap,
            it.seq() == graph.iter().remaining(),
            Some(ans@) == after_rounds(*graph, *start, passes(*graph)),
            records_sound(*graph, *start, ans@),
            covers_all(*graph, *start, ans@),
            distances_within(ans@, lim),
            forall|i: int| 0 <= i < it.index() ==> seen.contains(*(#[trigger] it.seq()[i]).0),
            forall|x: V, v: V|
                seen.contains(x) && ans@.contains_key(x) && #[trigger] has_edge(*graph, x, v)
                    ==> ans@.contains_key(v) && distance(ans@, v) <= distance(ans@, x)
                    + edge_weight(*graph, x, v),
    {
        if let Some(du) = recorded(&ans, u) {
            let ghost du_int = distance(ans@, *u);
            let ghost mut checked = Set::<V>::empty();
            for (v, w) in jt: edges.iter()
                invariant
                    ordered_keys::<V>(),
                    weights_fit(*graph, bound),
                    cap == bound * n * n,
                    n == graph@.len(),
                    n >= 1,
                    0 <= lim,
                    lim + bound <= cap,
                    graph@.contains_key(*u),
                    graph@[*u] == *edges,
                    ans@.contains_key(*u),
                    jt.seq() == edges.iter().remaining(),
                    Some(ans@) == after_rounds(*graph, *start, passes(*graph)),
                    du_int == distance(ans@, *u),
                    du_int == match du {
                        Some(d) => d.value(),
                        None => 0,
                    },
                    records_sound(*graph, *start, ans@),
                    covers_all(*graph, *start, ans@),
                    distances_within(ans@, lim),
                    forall|j: int|
                        0 <= j < jt.index() ==> checked.contains(*(#[trigger] jt.seq()[j]).0),
                    forall|v: V| #[trigger]
                        checked.contains(v) ==> ans@.contains_key(v) && distance(ans@, v) <= du_int
                            + edge_weight(*graph, *u, v),
            {
                assert(has_edge(*graph, *u, *v));
                assert(edge_weight(*graph, *u, *v) == w.value());
                let cand = through(du, *w);
                let improves = match recorded(&ans, v) {
                    Some(Some(dv)) => cand.below(dv),
                    Some(None) => cand.negative(),
                    None => {
                        proof {
                            lemma_edge_stays_inside(*graph, *start, ans@, *u, *v);
                        }
                        false
                    },
                };
                if improves {
                    proof {
                        lemma_unsettled_edge(*graph, *start, ans@, *u, *v);
                    }
                    return None;
                }
                proof {
                    assert(ans@.contains_key(*v));
                    assert(distance(ans@, *v) <= du_int + edge_weight(*graph, *u, *v));
                    checked = checked.insert(*v);
                }
            }
            proof {
                assert forall|v: V| has_edge(*graph, *u, v) implies ans@.contains_key(v)
                    && distance(ans@, v) <= distance(ans@, *u) + edge_weight(*graph, *u, v) by {
                    let s = edges.iter().remaining();
                    assert(s.contains((&v, &edges@[v])));
                    let j = choose|j: int| 0 <= j < s.len() && s[j] == (&v, &edges@[v]);
                    assert(*s[j].0 == v);
                }
            }
        }
        proof {
            seen = seen.insert(*u);
        }
    }
    proof {
        assert forall|u: V, v: V| ans@.contains_key(u) && #[trigger] has_edge(
            *graph,
            u,
            v,
        ) implies ans@.contains_key(v) && distance(ans@, v) <= distance(ans@, u) + edge_weight(
            *graph,
            u,
            v,
        ) by {
            let s = graph.iter().remaining();
            assert(s.contains((&u, &graph@[u])));
            let i = choose|i: int| 0 <= i < s.len() && s[i] == (&u, &graph@[u]);
            assert(*s[i].0 == u);
        }
        lemma_settled_is_shortest(*graph, *start, ans@);
    }
    Some(ans)
}

/// The out-edges of `u` in `g`, as a map from destination to weight; empty
/// where `u` is not a vertex of `g`.
pub open spec fn out_edges<V, E>(g: Graph<V, E>, u: V) -> Map<V, E> {
    if g@.contains_key(u) {
        g@[u]@
    } else {
        Map::empty()
    }
}

/// Inserts the edge from `v1` to `v2` with weight `c`, replacing the weight
/// of an edge that was already there, and makes sure that both ends are
/// vertices of the graph. All other vertices and edges stay as they were.
pub fn add_edge<V: Ord + Copy, E: Ord>(graph: &mut Graph<V, E>, v1: V, v2: V, c: E)
    requires
        ordered_keys::<V>(),
    ensures
        final(graph)@.dom() == old(graph)@.dom().insert(v1).insert(v2),
        out_edges(*final(graph), v1) == out_edges(*old(graph), v1).insert(v2, c),
        forall|u: V| u != v1 ==> out_edges(*final(graph), u) == out_edges(*old(graph), u),
        forall|u: V|
            u != v1 && u != v2 && old(graph)@.contains_key(u) ==> final(graph)@[u] == old(
                graph,
            )@[u],
        well_formed(*old(graph)) ==> well_formed(*final(graph)),
{
    let mut edges = match graph.remove(&v1) {
        Some(edges) => edges,
        None => BTreeMap::new(),
    };
    edges.insert(v2, c);
    graph.insert(v1, edges);
    if !graph.contains_key(&v2) {
        graph.insert(v2, BTreeMap::new());
    }
    proof {
        assert(graph@.dom() =~= old(graph)@.dom().insert(v1).insert(v2));
        if well_formed(*old(graph)) {
            assert forall|u: V, v: V| #[trigger] has_edge(*graph, u, v) implies graph@.contains_key(
                v,
            ) by {
                if !(u == v1 && v == v2) {
                    assert(out_edges(*graph, u).contains_key(v));
                    assert(has_edge(*old(graph), u, v));
                }
            }
        }
    }
}

} // verus!
