//! Walks in a weighted directed graph: the vocabulary in which the
//! shortest-path routines state what they compute.
use vstd::prelude::*;
use crate::graph::bellman_ford::Graph;
use crate::graph::weight::Weight;

verus! {

/// The graph has an edge from `u` to `v`.
pub open spec fn has_edge<V, E>(g: Graph<V, E>, u: V, v: V) -> bool {
    g@.contains_key(u) && g@[u]@.contains_key(v)
}

/// The weight of the edge from `u` to `v`.
pub open spec fn edge_weight<V, E: Weight>(g: Graph<V, E>, u: V, v: V) -> int {
    g@[u]@[v].value()
}

/// Every destination of an edge is itself a vertex of the graph.
pub open spec fn well_formed<V, E>(g: Graph<V, E>) -> bool {
    forall|u: V, v: V| #[trigger] has_edge(g, u, v) ==> g@.contains_key(v)
}

/// `p` is a non-empty sequence of vertices in which each one has an edge to
/// the next.
pub open spec fn is_walk<V, E>(g: Graph<V, E>, p: Seq<V>) -> bool {
    &&& p.len() >= 1
    &&& forall|i: int| 0 <= i < p.len() - 1 ==> has_edge(g, #[trigger] p[i], p[i + 1])
}

/// `p` is a walk that starts at `from` and ends at `to`.
pub open spec fn walk_between<V, E>(g: Graph<V, E>, p: Seq<V>, from: V, to: V) -> bool {
    is_walk(g, p) && p[0] == from && p.last() == to
}

/// The sum of the weights of the edges along `p`.
pub open spec fn walk_weight<V, E: Weight>(g: Graph<V, E>, p: Seq<V>) -> int
    decreases p.len(),
{
    if p.len() <= 1 {
        0
    } else {
        walk_weight(g, p.drop_last()) + edge_weight(g, p[p.len() - 2], p.last())
    }
}

/// Some walk leads from `from` to `to`. Every vertex reaches itself.
pub open spec fn reachable<V, E>(g: Graph<V, E>, from: V, to: V) -> bool {
    exists|p: Seq<V>| walk_between(g, p, from, to)
}

/// `c` is a closed walk with at least one edge whose weights sum to less
/// than zero.
pub open spec fn negative_cycle<V, E: Weight>(g: Graph<V, E>, c: Seq<V>) -> bool {
    &&& is_walk(g, c)
    &&& c.len() >= 2
    &&& c[0] == c.last()
    &&& walk_weight(g, c) < 0
}

/// A negative cycle can be reached from `source`.
pub open spec fn has_negative_cycle<V, E: Weight>(g: Graph<V, E>, source: V) -> bool {
    exists|c: Seq<V>| negative_cycle(g, c) && reachable(g, source, #[trigger] c[0])
}

/// `d` is the least weight of a walk from `source` to `v`: some walk has that
/// weight and none has less.
pub open spec fn shortest_distance<V, E: Weight>(g: Graph<V, E>, source: V, v: V, d: int) -> bool {
    &&& exists|p: Seq<V>| walk_between(g, p, source, v) && #[trigger] walk_weight(g, p) == d
    &&& forall|p: Seq<V>| walk_between(g, p, source, v) ==> d <= #[trigger] walk_weight(g, p)
}

/// The walk that only visits `v` has weight zero.
pub proof fn lemma_walk_single<V, E: Weight>(g: Graph<V, E>, v: V)
    ensures
        walk_between(g, seq![v], v, v),
        walk_weight(g, seq![v]) == 0,
{
}

/// A walk can be extended by an edge that leaves its last vertex, and the
/// edge's weight is added to the walk's.
pub proof fn lemma_walk_push<V, E: Weight>(g: Graph<V, E>, p: Seq<V>, v: V)
    requires
        is_walk(g, p),
        has_edge(g, p.last(), v),
    ensures
        walk_between(g, p.push(v), p[0], v),
        walk_weight(g, p.push(v)) == walk_weight(g, p) + edge_weight(g, p.last(), v),
{
    let q = p.push(v);
    assert(q.drop_last() =~= p);
    assert forall|i: int| 0 <= i < q.len() - 1 implies has_edge(g, #[trigger] q[i], q[i + 1]) by {
        if i < p.len() - 1 {
            assert(q[i] == p[i]);
            assert(q[i + 1] == p[i + 1]);
        }
    }
}

/// A walk without its last vertex is a walk to the vertex before it.
pub proof fn lemma_walk_drop_last<V, E: Weight>(g: Graph<V, E>, p: Seq<V>)
    requires
        is_walk(g, p),
        p.len() >= 2,
    ensures
        walk_between(g, p.drop_last(), p[0], p[p.len() - 2]),
        has_edge(g, p[p.len() - 2], p.last()),
        walk_weight(g, p) == walk_weight(g, p.drop_last()) + edge_weight(
            g,
            p[p.len() - 2],
            p.last(),
        ),
{
    let q = p.drop_last();
    assert forall|i: int| 0 <= i < q.len() - 1 implies has_edge(g, #[trigger] q[i], q[i + 1]) by {
        assert(q[i] == p[i]);
        assert(q[i + 1] == p[i + 1]);
    }
    assert(has_edge(g, p[p.len() - 2], p[p.len() - 2 + 1]));
}

/// Two walks that meet (the first ends where the second starts) join into
/// one walk whose weight is the sum of theirs.
pub proof fn lemma_walk_join<V, E: Weight>(g: Graph<V, E>, p: Seq<V>, q: Seq<V>)
    requires
        is_walk(g, p),
        is_walk(g, q),
        p.last() == q[0],
    ensures
        walk_between(g, p + q.drop_first(), p[0], q.last()),
        walk_weight(g, p + q.drop_first()) == walk_weight(g, p) + walk_weight(g, q),
    decreases q.len(),
{
    if q.len() == 1 {
        assert(p + q.drop_first() =~= p);
    } else {
        let q0 = q.drop_last();
        lemma_walk_drop_last(g, q);
        lemma_walk_join(g, p, q0);
        let r = p + q0.drop_first();
        lemma_walk_push(g, r, q.last());
        assert(r.push(q.last()) =~= p + q.drop_first());
    }
}

/// Cutting a walk at position `i` gives a walk up to there and a walk from
/// there on, and their weights add up to the whole.
pub proof fn lemma_walk_split<V, E: Weight>(g: Graph<V, E>, p: Seq<V>, i: int)
    requires
        is_walk(g, p),
        0 <= i < p.len(),
    ensures
        walk_between(g, p.subrange(0, i + 1), p[0], p[i]),
        walk_between(g, p.subrange(i, p.len() as int), p[i], p.last()),
        walk_weight(g, p) == walk_weight(g, p.subrange(0, i + 1)) + walk_weight(
            g,
            p.subrange(i, p.len() as int),
        ),
    decreases p.len() - i,
{
    let a = p.subrange(0, i + 1);
    let b = p.subrange(i, p.len() as int);
    assert forall|k: int| 0 <= k < a.len() - 1 implies has_edge(g, #[trigger] a[k], a[k + 1]) by {
        assert(a[k] == p[k]);
        assert(a[k + 1] == p[k + 1]);
    }
    assert forall|k: int| 0 <= k < b.len() - 1 implies has_edge(g, #[trigger] b[k], b[k + 1]) by {
        assert(b[k] == p[k + i]);
        assert(b[k + 1] == p[k + i + 1]);
    }
    if i == p.len() - 1 {
        assert(a =~= p);
        assert(b.len() == 1);
    } else {
        lemma_walk_join(g, a, b);
        assert(a + b.drop_first() =~= p);
    }
}

/// A walk with at least one edge only visits vertices of the graph.
pub proof fn lemma_walk_vertices<V, E: Weight>(g: Graph<V, E>, p: Seq<V>)
    requires
        well_formed(g),
        is_walk(g, p),
        p.len() >= 2,
    ensures
        p.to_set().subset_of(g@.dom()),
{
    assert forall|v: V| p.to_set().contains(v) implies g@.dom().contains(v) by {
        let i = choose|i: int| 0 <= i < p.len() && p[i] == v;
        if i == 0 {
            assert(has_edge(g, p[0], p[0int + 1]));
        } else {
            assert(has_edge(g, p[i - 1], p[i - 1 + 1]));
        }
    }
}

/// A walk that is longer than the graph has vertices visits some vertex
/// twice.
pub proof fn lemma_walk_repeats<V, E: Weight>(g: Graph<V, E>, p: Seq<V>) -> (ij: (int, int))
    requires
        well_formed(g),
        g@.dom().finite(),
        is_walk(g, p),
        p.len() >= 2,
        p.len() > g@.dom().len(),
    ensures
        0 <= ij.0 < ij.1 < p.len(),
        p[ij.0] == p[ij.1],
{
    lemma_walk_vertices(g, p);
    if p.no_duplicates() {
        p.unique_seq_to_set();
        vstd::set_lib::lemma_len_subset(p.to_set(), g@.dom());
    }
    let (i, j) = choose|i: int, j: int|
        0 <= i < p.len() && 0 <= j < p.len() && i != j && p[i] == p[j];
    if i < j {
        (i, j)
    } else {
        (j, i)
    }
}

/// Every walk from `source` can be replaced by one to the same vertex that
/// has fewer vertices than the graph has, or only one. Where no negative
/// cycle can be reached from `source`, the replacement weighs no more.
pub proof fn lemma_shorten<V, E: Weight>(g: Graph<V, E>, source: V, p: Seq<V>) -> (q: Seq<V>)
    requires
        well_formed(g),
        g@.dom().finite(),
        is_walk(g, p),
        p[0] == source,
    ensures
        walk_between(g, q, source, p.last()),
        q.len() == 1 || q.len() <= g@.dom().len(),
        !has_negative_cycle(g, source) ==> walk_weight(g, q) <= walk_weight(g, p),
    decreases p.len(),
{
    if p.len() == 1 || p.len() <= g@.dom().len() {
        p
    } else {
        let (i, j) = lemma_walk_repeats(g, p);
        let n = p.len() as int;
        let a = p.subrange(0, i + 1);
        let rest = p.subrange(i, n);
        lemma_walk_split(g, p, i);
        lemma_walk_split(g, rest, j - i);
        let c = rest.subrange(0, j - i + 1);
        let b = rest.subrange(j - i, rest.len() as int);
        assert(c[0] == p[i]);
        assert(c.last() == p[j]);
        assert(b[0] == p[j]);
        assert(b.last() == p.last());
        lemma_walk_join(g, a, b);
        let shorter = a + b.drop_first();
        if !has_negative_cycle(g, source) {
            if walk_weight(g, c) < 0 {
                assert(walk_between(g, a, source, c[0]));
                assert(negative_cycle(g, c) && reachable(g, source, c[0]));
            }
        }
        lemma_shorten(g, source, shorter)
    }
}

} // verus!
