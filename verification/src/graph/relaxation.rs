//! Edge relaxation: the records that the shortest-path routines keep for the
//! vertices they have reached, and why relaxing edges leads to shortest
//! distances or to a negative cycle.
use vstd::prelude::*;
use crate::graph::bellman_ford::Graph;
use crate::graph::weight::Weight;
use crate::graph::walks::{
    edge_weight, has_edge, has_negative_cycle, is_walk, lemma_shorten, lemma_walk_drop_last,
    lemma_walk_push, lemma_walk_single, negative_cycle, reachable, shortest_distance,
    walk_between, walk_weight, well_formed,
};

verus! {

/// The distance that the record of `v` stands for. The source's record is
/// `None` and stands for zero.
pub open spec fn distance<V, E: Weight>(m: Map<V, Option<(V, E)>>, v: V) -> int {
    match m[v] {
        Some((_, d)) => d.value(),
        None => 0,
    }
}

/// The record of `v` is backed by the graph: some walk from the source has
/// the recorded distance, and the recorded predecessor has an edge to `v`
/// over which its own distance gives no more than the recorded one.
pub open spec fn record_sound<V, E: Weight>(
    g: Graph<V, E>,
    source: V,
    m: Map<V, Option<(V, E)>>,
    v: V,
) -> bool {
    &&& exists|p: Seq<V>|
        walk_between(g, p, source, v) && #[trigger] walk_weight(g, p) == distance(m, v)
    &&& v == source ==> m[v] is None
    &&& v != source ==> match m[v] {
        Some((u, d)) => m.contains_key(u) && has_edge(g, u, v) && distance(m, u) + edge_weight(
            g,
            u,
            v,
        ) <= d.value(),
        None => false,
    }
}

/// The source is recorded, and every record is sound.
pub open spec fn records_sound<V, E: Weight>(
    g: Graph<V, E>,
    source: V,
    m: Map<V, Option<(V, E)>>,
) -> bool {
    &&& m.contains_key(source)
    &&& forall|v: V| m.contains_key(v) ==> #[trigger] record_sound(g, source, m, v)
}

/// The records account for the walk `p`: its last vertex is recorded, with a
/// distance of at most the walk's weight unless a negative cycle can be
/// reached.
pub open spec fn walk_covered<V, E: Weight>(
    g: Graph<V, E>,
    source: V,
    m: Map<V, Option<(V, E)>>,
    p: Seq<V>,
) -> bool {
    &&& m.contains_key(p.last())
    &&& !has_negative_cycle(g, source) ==> distance(m, p.last()) <= walk_weight(g, p)
}

/// The records account for every walk from the source with at most `k`
/// edges.
pub open spec fn covers<V, E: Weight>(
    g: Graph<V, E>,
    source: V,
    m: Map<V, Option<(V, E)>>,
    k: int,
) -> bool {
    forall|p: Seq<V>|
        is_walk(g, p) && p[0] == source && p.len() - 1 <= k ==> #[trigger] walk_covered(
            g,
            source,
            m,
            p,
        )
}

/// The records account for every walk from the source with at most `k + 1`
/// edges whose last edge is in `done`.
pub open spec fn covers_via<V, E: Weight>(
    g: Graph<V, E>,
    source: V,
    m: Map<V, Option<(V, E)>>,
    k: int,
    done: Set<(V, V)>,
) -> bool {
    forall|p: Seq<V>|
        is_walk(g, p) && p[0] == source && 2 <= p.len() <= k + 2 && done.contains(
            (p[p.len() - 2], p.last()),
        ) ==> #[trigger] walk_covered(g, source, m, p)
}

/// The records account for every walk from the source.
pub open spec fn covers_all<V, E: Weight>(
    g: Graph<V, E>,
    source: V,
    m: Map<V, Option<(V, E)>>,
) -> bool {
    forall|p: Seq<V>| is_walk(g, p) && p[0] == source ==> #[trigger] walk_covered(g, source, m, p)
}

/// Every recorded distance lies between `-bound` and `bound`.
pub open spec fn distances_within<V, E: Weight>(m: Map<V, Option<(V, E)>>, bound: int) -> bool {
    forall|v: V| m.contains_key(v) ==> -bound <= #[trigger] distance(m, v) <= bound
}

/// Every edge weight lies between `-bound` and `bound`.
pub open spec fn weights_within<V, E: Weight>(g: Graph<V, E>, bound: int) -> bool {
    forall|u: V, v: V| has_edge(g, u, v) ==> -bound <= #[trigger] edge_weight(g, u, v) <= bound
}

/// No edge that leaves a recorded vertex could still lower a distance.
pub open spec fn settled<V, E: Weight>(g: Graph<V, E>, m: Map<V, Option<(V, E)>>) -> bool {
    forall|u: V, v: V|
        m.contains_key(u) && #[trigger] has_edge(g, u, v) ==> m.contains_key(v) && distance(m, v)
            <= distance(m, u) + edge_weight(g, u, v)
}

/// What a successful run returns: records for exactly the vertices that can
/// be reached from the source, `None` for the source itself, and for every
/// other vertex a predecessor with an edge to it, together with the least
/// weight of a walk from the source, which is the predecessor's distance
/// plus that edge's weight.
pub open spec fn shortest_paths<V, E: Weight>(
    g: Graph<V, E>,
    source: V,
    m: Map<V, Option<(V, E)>>,
) -> bool {
    &&& forall|v: V| #[trigger] m.contains_key(v) ==> reachable(g, source, v)
    &&& forall|v: V| #[trigger] reachable(g, source, v) ==> m.contains_key(v)
    &&& m.contains_key(source)
    &&& m[source] is None
    &&& forall|v: V|
        #![trigger m[v]]
        m.contains_key(v) && v != source ==> match m[v] {
            Some((u, d)) => {
                &&& m.contains_key(u)
                &&& has_edge(g, u, v)
                &&& d.value() == distance(m, u) + edge_weight(g, u, v)
                &&& shortest_distance(g, source, v, d.value())
            },
            None => false,
        }
}

/// Before any edge is relaxed only the source is recorded, which accounts
/// for the walk without edges.
pub proof fn lemma_initial<V, E: Weight>(g: Graph<V, E>, source: V, m: Map<V, Option<(V, E)>>)
    requires
        m == Map::<V, Option<(V, E)>>::empty().insert(source, None),
    ensures
        records_sound(g, source, m),
        covers(g, source, m, 0),
        distances_within(m, 0),
{
    lemma_walk_single(g, source);
    assert forall|v: V| m.contains_key(v) implies #[trigger] record_sound(g, source, m, v) by {
        assert(v == source);
        assert(walk_between(g, seq![source], source, v) && walk_weight(g, seq![source])
            == distance(m, v));
    }
    assert forall|p: Seq<V>| is_walk(g, p) && p[0] == source && p.len() - 1 <= 0 implies #[trigger] walk_covered(
        g,
        source,
        m,
        p,
    ) by {
        assert(p.last() == source);
    }
}

/// Along any walk that starts at a recorded vertex of settled records, the
/// distance grows by at most the walk's weight.
pub proof fn lemma_settled_walk<V, E: Weight>(
    g: Graph<V, E>,
    m: Map<V, Option<(V, E)>>,
    p: Seq<V>,
)
    requires
        settled(g, m),
        is_walk(g, p),
        m.contains_key(p[0]),
    ensures
        m.contains_key(p.last()),
        distance(m, p.last()) <= distance(m, p[0]) + walk_weight(g, p),
    decreases p.len(),
{
    if p.len() >= 2 {
        lemma_walk_drop_last(g, p);
        lemma_settled_walk(g, m, p.drop_last());
        assert(has_edge(g, p[p.len() - 2], p.last()));
    }
}

/// Settled, sound records are shortest paths, and no negative cycle can be
/// reached from the source.
pub proof fn lemma_settled_is_shortest<V, E: Weight>(
    g: Graph<V, E>,
    source: V,
    m: Map<V, Option<(V, E)>>,
)
    requires
        records_sound(g, source, m),
        settled(g, m),
    ensures
        shortest_paths(g, source, m),
        !has_negative_cycle(g, source),
{
    assert(record_sound(g, source, m, source));
    assert forall|v: V| #[trigger] m.contains_key(v) implies reachable(g, source, v) by {
        assert(record_sound(g, source, m, v));
    }
    assert forall|v: V| #[trigger] reachable(g, source, v) implies m.contains_key(v) by {
        let p = choose|p: Seq<V>| walk_between(g, p, source, v);
        lemma_settled_walk(g, m, p);
    }
    assert forall|v: V| #![trigger m[v]] m.contains_key(v) && v != source implies match m[v] {
        Some((u, d)) => {
            &&& m.contains_key(u)
            &&& has_edge(g, u, v)
            &&& d.value() == distance(m, u) + edge_weight(g, u, v)
            &&& shortest_distance(g, source, v, d.value())
        },
        None => false,
    } by {
        assert(record_sound(g, source, m, v));
        assert forall|p: Seq<V>| walk_between(g, p, source, v) implies distance(m, v)
            <= #[trigger] walk_weight(g, p) by {
            lemma_settled_walk(g, m, p);
        }
    }
    if has_negative_cycle(g, source) {
        let c = choose|c: Seq<V>| negative_cycle(g, c) && reachable(g, source, #[trigger] c[0]);
        let p = choose|p: Seq<V>| walk_between(g, p, source, c[0]);
        lemma_settled_walk(g, m, p);
        lemma_settled_walk(g, m, c);
    }
}

/// Records that account for all walks of fewer edges than the graph has
/// vertices account for every walk.
pub proof fn lemma_covers_all<V, E: Weight>(
    g: Graph<V, E>,
    source: V,
    m: Map<V, Option<(V, E)>>,
    k: int,
)
    requires
        well_formed(g),
        g@.dom().finite(),
        covers(g, source, m, k),
        0 <= k,
        g@.dom().len() - 1 <= k,
    ensures
        covers_all(g, source, m),
{
    assert forall|p: Seq<V>| is_walk(g, p) && p[0] == source implies #[trigger] walk_covered(
        g,
        source,
        m,
        p,
    ) by {
        let q = lemma_shorten(g, source, p);
        assert(walk_covered(g, source, m, q));
    }
}

/// Where the records account for every walk, an edge that could still lower
/// a distance shows that a negative cycle can be reached.
pub proof fn lemma_unsettled_edge<V, E: Weight>(
    g: Graph<V, E>,
    source: V,
    m: Map<V, Option<(V, E)>>,
    u: V,
    v: V,
)
    requires
        records_sound(g, source, m),
        covers_all(g, source, m),
        m.contains_key(u),
        has_edge(g, u, v),
        distance(m, u) + edge_weight(g, u, v) < distance(m, v),
    ensures
        has_negative_cycle(g, source),
{
    if !has_negative_cycle(g, source) {
        assert(record_sound(g, source, m, u));
        let p = choose|p: Seq<V>|
            walk_between(g, p, source, u) && #[trigger] walk_weight(g, p) == distance(m, u);
        lemma_walk_push(g, p, v);
        assert(walk_covered(g, source, m, p.push(v)));
    }
}

/// Where the records account for every walk, every edge that leaves a
/// recorded vertex leads to a recorded vertex.
pub proof fn lemma_edge_stays_inside<V, E: Weight>(
    g: Graph<V, E>,
    source: V,
    m: Map<V, Option<(V, E)>>,
    u: V,
    v: V,
)
    requires
        records_sound(g, source, m),
        covers_all(g, source, m),
        m.contains_key(u),
        has_edge(g, u, v),
    ensures
        m.contains_key(v),
{
    assert(record_sound(g, source, m, u));
    let p = choose|p: Seq<V>|
        walk_between(g, p, source, u) && #[trigger] walk_weight(g, p) == distance(m, u);
    lemma_walk_push(g, p, v);
    assert(walk_covered(g, source, m, p.push(v)));
}

/// A walk from the source that comes back to it with a negative weight is a
/// negative cycle that can be reached.
pub proof fn lemma_negative_return<V, E: Weight>(g: Graph<V, E>, source: V, p: Seq<V>, u: V)
    requires
        walk_between(g, p, source, u),
        has_edge(g, u, source),
        walk_weight(g, p) + edge_weight(g, u, source) < 0,
    ensures
        has_negative_cycle(g, source),
{
    lemma_walk_push(g, p, source);
    lemma_walk_single(g, source);
    let c = p.push(source);
    assert(negative_cycle(g, c) && reachable(g, source, c[0]));
}

/// `du` is a distance of `u` that was read from the records earlier: the
/// records have not gone above it since, some walk from the source has that
/// weight, and no walk of at most `k` edges weighs less unless a negative
/// cycle can be reached.
pub open spec fn read_sound<V, E: Weight>(
    g: Graph<V, E>,
    source: V,
    m: Map<V, Option<(V, E)>>,
    k: int,
    u: V,
    du: int,
) -> bool {
    &&& m.contains_key(u)
    &&& distance(m, u) <= du
    &&& exists|p: Seq<V>| walk_between(g, p, source, u) && #[trigger] walk_weight(g, p) == du
    &&& !has_negative_cycle(g, source) ==> forall|p: Seq<V>|
        walk_between(g, p, source, u) && p.len() - 1 <= k ==> du <= #[trigger] walk_weight(g, p)
}

/// The distance that the records hold for `u` now is a sound read.
pub proof fn lemma_read<V, E: Weight>(
    g: Graph<V, E>,
    source: V,
    m: Map<V, Option<(V, E)>>,
    k: int,
    u: V,
)
    requires
        records_sound(g, source, m),
        covers(g, source, m, k),
        m.contains_key(u),
    ensures
        read_sound(g, source, m, k, u, distance(m, u)),
{
    assert(record_sound(g, source, m, u));
    if !has_negative_cycle(g, source) {
        assert forall|p: Seq<V>|
            walk_between(g, p, source, u) && p.len() - 1 <= k implies distance(m, u)
            <= #[trigger] walk_weight(g, p) by {
            assert(walk_covered(g, source, m, p));
        }
    }
}

/// Recording a new vertex, or a smaller distance for a recorded one, keeps
/// every walk accounted for that was so before.
pub proof fn lemma_covered_after_update<V, E: Weight>(
    g: Graph<V, E>,
    source: V,
    m: Map<V, Option<(V, E)>>,
    v: V,
    r: (V, E),
    p: Seq<V>,
)
    requires
        walk_covered(g, source, m, p),
        !m.contains_key(v) || r.1.value() <= distance(m, v),
    ensures
        walk_covered(g, source, m.insert(v, Some(r)), p),
{
}

/// Relaxing the edge from `u` to `v` with effect: `v` was not recorded, or
/// the way over `u` is shorter than its recorded distance. The new record is
/// sound, nothing that was accounted for is lost, and the walks that end
/// with this edge are accounted for as well.
pub proof fn lemma_relax_update<V, E: Weight>(
    g: Graph<V, E>,
    source: V,
    m: Map<V, Option<(V, E)>>,
    k: int,
    done: Set<(V, V)>,
    u: V,
    du: int,
    v: V,
    c: E,
)
    requires
        records_sound(g, source, m),
        covers(g, source, m, k),
        covers_via(g, source, m, k, done),
        read_sound(g, source, m, k, u, du),
        has_edge(g, u, v),
        c.value() == du + edge_weight(g, u, v),
        v != source,
        !m.contains_key(v) || c.value() < distance(m, v),
    ensures
        records_sound(g, source, m.insert(v, Some((u, c)))),
        covers(g, source, m.insert(v, Some((u, c))), k),
        covers_via(g, source, m.insert(v, Some((u, c))), k, done.insert((u, v))),
        read_sound(g, source, m.insert(v, Some((u, c))), k, u, du),
{
    let m2 = m.insert(v, Some((u, c)));
    let pu = choose|p: Seq<V>| walk_between(g, p, source, u) && #[trigger] walk_weight(g, p) == du;
    lemma_walk_push(g, pu, v);
    assert forall|x: V| m2.contains_key(x) implies #[trigger] record_sound(g, source, m2, x) by {
        if x == v {
            assert(walk_between(g, pu.push(v), source, v) && walk_weight(g, pu.push(v))
                == distance(m2, v));
            assert(distance(m2, u) <= du);
        } else {
            assert(record_sound(g, source, m, x));
            let px = choose|p: Seq<V>|
                walk_between(g, p, source, x) && #[trigger] walk_weight(g, p) == distance(m, x);
            assert(walk_between(g, px, source, x) && walk_weight(g, px) == distance(m2, x));
            if x != source {
                let y = match m[x] {
                    Some((y, _)) => y,
                    None => x,
                };
                assert(distance(m2, y) <= distance(m, y));
            }
        }
    }
    assert forall|p: Seq<V>|
        is_walk(g, p) && p[0] == source && p.len() - 1 <= k implies #[trigger] walk_covered(
        g,
        source,
        m2,
        p,
    ) by {
        assert(walk_covered(g, source, m, p));
        lemma_covered_after_update(g, source, m, v, (u, c), p);
    }
    assert forall|p: Seq<V>|
        is_walk(g, p) && p[0] == source && 2 <= p.len() <= k + 2 && done.insert((u, v)).contains(
            (p[p.len() - 2], p.last()),
        ) implies #[trigger] walk_covered(g, source, m2, p) by {
        if done.contains((p[p.len() - 2], p.last())) {
            assert(walk_covered(g, source, m, p));
            lemma_covered_after_update(g, source, m, v, (u, c), p);
        } else {
            lemma_walk_drop_last(g, p);
            if !has_negative_cycle(g, source) {
                assert(du <= walk_weight(g, p.drop_last()));
            }
        }
    }
}

/// Relaxing the edge from `u` to `v` without effect: `v` is recorded with a
/// distance that the way over `u` does not improve. The walks that end with
/// this edge are then accounted for.
pub proof fn lemma_relax_keep<V, E: Weight>(
    g: Graph<V, E>,
    source: V,
    m: Map<V, Option<(V, E)>>,
    k: int,
    done: Set<(V, V)>,
    u: V,
    du: int,
    v: V,
)
    requires
        covers_via(g, source, m, k, done),
        read_sound(g, source, m, k, u, du),
        has_edge(g, u, v),
        m.contains_key(v),
        distance(m, v) <= du + edge_weight(g, u, v),
    ensures
        covers_via(g, source, m, k, done.insert((u, v))),
{
    assert forall|p: Seq<V>|
        is_walk(g, p) && p[0] == source && 2 <= p.len() <= k + 2 && done.insert((u, v)).contains(
            (p[p.len() - 2], p.last()),
        ) implies #[trigger] walk_covered(g, source, m, p) by {
        if done.contains((p[p.len() - 2], p.last())) {
            assert(walk_covered(g, source, m, p));
        } else {
            lemma_walk_drop_last(g, p);
            if !has_negative_cycle(g, source) {
                assert(du <= walk_weight(g, p.drop_last()));
            }
        }
    }
}

/// Once every edge of the graph has been relaxed in a pass, the records
/// account for walks that are one edge longer than before the pass.
pub proof fn lemma_pass_complete<V, E: Weight>(
    g: Graph<V, E>,
    source: V,
    m: Map<V, Option<(V, E)>>,
    k: int,
    done: Set<(V, V)>,
)
    requires
        0 <= k,
        covers(g, source, m, k),
        covers_via(g, source, m, k, done),
        forall|u: V, v: V| #[trigger] has_edge(g, u, v) ==> done.contains((u, v)),
    ensures
        covers(g, source, m, k + 1),
{
    assert forall|p: Seq<V>|
        is_walk(g, p) && p[0] == source && p.len() - 1 <= k + 1 implies #[trigger] walk_covered(
        g,
        source,
        m,
        p,
    ) by {
        if p.len() - 1 <= k {
            assert(walk_covered(g, source, m, p));
        } else {
            lemma_walk_drop_last(g, p);
            assert(has_edge(g, p[p.len() - 2], p.last()));
        }
    }
}

/// A vertex that is not recorded although the records account for all walks
/// of at most `k` edges is not the end of any such walk, so its out-edges
/// end no walk of at most `k + 1` edges.
pub proof fn lemma_relax_skip<V, E: Weight>(
    g: Graph<V, E>,
    source: V,
    m: Map<V, Option<(V, E)>>,
    k: int,
    done: Set<(V, V)>,
    u: V,
)
    requires
        covers(g, source, m, k),
        covers_via(g, source, m, k, done),
        !m.contains_key(u),
    ensures
        covers_via(g, source, m, k, done.union(Set::new(|e: (V, V)| e.0 == u))),
{
    let more = done.union(Set::new(|e: (V, V)| e.0 == u));
    assert forall|p: Seq<V>|
        is_walk(g, p) && p[0] == source && 2 <= p.len() <= k + 2 && more.contains(
            (p[p.len() - 2], p.last()),
        ) implies #[trigger] walk_covered(g, source, m, p) by {
        if done.contains((p[p.len() - 2], p.last())) {
            assert(walk_covered(g, source, m, p));
        } else {
            lemma_walk_drop_last(g, p);
            assert(walk_covered(g, source, m, p.drop_last()));
        }
    }
}

/// `bound` limits every edge weight, and sums of as many weights as the
/// square of the number of vertices still fit in the weight type.
pub open spec fn weights_fit<V, E: Weight>(g: Graph<V, E>, bound: int) -> bool {
    &&& 0 <= bound
    &&& weights_within(g, bound)
    &&& E::lowest() <= -(bound * g@.len() * g@.len())
    &&& bound * g@.len() * g@.len() <= E::highest()
}

/// The edge weights are small enough for the sums that relaxation forms:
/// some bound limits every weight, and that bound times the square of the
/// number of vertices fits in the weight type.
pub open spec fn sums_fit<V, E: Weight>(g: Graph<V, E>) -> bool {
    exists|bound: int| weights_fit(g, bound)
}

/// After `steps` vertices have had their edges relaxed, distances are
/// within `steps * bound`; one more weight can be added as long as fewer
/// than `n * n` vertices have been handled.
pub proof fn lemma_budget(bound: int, n: int, steps: int)
    requires
        0 <= bound,
        0 <= steps < n * n,
    ensures
        0 <= steps * bound,
        steps * bound + bound == (steps + 1) * bound,
        (steps + 1) * bound <= bound * n * n,
{
    assert(0 <= steps * bound) by (nonlinear_arith)
        requires
            0 <= bound,
            0 <= steps,
    ;
    assert(steps * bound + bound == (steps + 1) * bound) by (nonlinear_arith);
    assert((steps + 1) * bound <= bound * n * n) by (nonlinear_arith)
        requires
            0 <= bound,
            steps + 1 <= n * n,
    ;
}

/// In pass `round` of fewer than `n`, at most `n * n - 1` vertices were
/// handled before the vertex at position `i`.
pub proof fn lemma_steps(n: int, round: int, i: int)
    requires
        1 <= round < n,
        0 <= i < n,
    ensures
        0 <= (round - 1) * n + i < n * n,
        (round - 1) * n + n == round * n,
{
    assert(0 <= (round - 1) * n) by (nonlinear_arith)
        requires
            1 <= round,
            0 <= n,
    ;
    assert((round - 1) * n + n == round * n) by (nonlinear_arith);
    assert(round * n <= (n - 1) * n) by (nonlinear_arith)
        requires
            round <= n - 1,
            0 <= n,
    ;
    assert((n - 1) * n + n == n * n) by (nonlinear_arith);
}

/// A new record whose distance is within `bound` keeps all distances
/// within `bound`.
pub proof fn lemma_within_after_update<V, E: Weight>(
    m: Map<V, Option<(V, E)>>,
    v: V,
    r: (V, E),
    bound: int,
)
    requires
        distances_within(m, bound),
        -bound <= r.1.value() <= bound,
    ensures
        distances_within(m.insert(v, Some(r)), bound),
{
    let m2 = m.insert(v, Some(r));
    assert forall|x: V| m2.contains_key(x) implies -bound <= #[trigger] distance(m2, x)
        <= bound by {
        if x != v {
            assert(distance(m2, x) == distance(m, x));
        }
    }
}

/// Distances that are within a bound are within every larger bound.
pub proof fn lemma_within_more<V, E: Weight>(m: Map<V, Option<(V, E)>>, bound: int, more: int)
    requires
        distances_within(m, bound),
        bound <= more,
    ensures
        distances_within(m, more),
{
    assert forall|x: V| m.contains_key(x) implies -more <= #[trigger] distance(m, x) <= more by {
        assert(-bound <= distance(m, x) <= bound);
    }
}

/// When the passes are over (`round` has reached `n`, or was 1 from the
/// start in a graph of at most one vertex), one more weight can still be
/// added to any distance.
pub proof fn lemma_final_budget(bound: int, n: int, round: int)
    requires
        0 <= bound,
        1 <= n,
        round == n || (round == 1 && n <= 1),
    ensures
        0 <= ((round - 1) * n) * bound,
        ((round - 1) * n) * bound + bound <= bound * n * n,
{
    assert(0 <= (round - 1) * n < n * n) by (nonlinear_arith)
        requires
            1 <= n,
            round == n,
    ;
    lemma_budget(bound, n, (round - 1) * n);
}

/// A new record for `v` over an edge from the recorded vertex `u`, with
/// the distance of `u` plus the edge's weight, keeps the records sound
/// where `v` was not recorded or had a larger distance.
pub proof fn lemma_record_update<V, E: Weight>(
    g: Graph<V, E>,
    source: V,
    m: Map<V, Option<(V, E)>>,
    u: V,
    v: V,
    c: E,
)
    requires
        records_sound(g, source, m),
        m.contains_key(u),
        has_edge(g, u, v),
        c.value() == distance(m, u) + edge_weight(g, u, v),
        v != source,
        !m.contains_key(v) || c.value() < distance(m, v),
    ensures
        records_sound(g, source, m.insert(v, Some((u, c)))),
{
    let m2 = m.insert(v, Some((u, c)));
    assert(record_sound(g, source, m, u));
    let pu = choose|p: Seq<V>|
        walk_between(g, p, source, u) && #[trigger] walk_weight(g, p) == distance(m, u);
    lemma_walk_push(g, pu, v);
    assert forall|x: V| m2.contains_key(x) implies #[trigger] record_sound(g, source, m2, x) by {
        if x == v {
            assert(walk_between(g, pu.push(v), source, v) && walk_weight(g, pu.push(v))
                == distance(m2, v));
            assert(distance(m2, u) <= distance(m, u));
        } else {
            assert(record_sound(g, source, m, x));
            let px = choose|p: Seq<V>|
                walk_between(g, p, source, x) && #[trigger] walk_weight(g, p) == distance(m, x);
            assert(walk_between(g, px, source, x) && walk_weight(g, px) == distance(m2, x));
            if x != source {
                let y = match m[x] {
                    Some((y, _)) => y,
                    None => x,
                };
                assert(distance(m2, y) <= distance(m, y));
            }
        }
    }
}

} // verus!
