//! Single-source shortest paths by Dijkstra's algorithm, for graphs without
//! negative weights.
use vstd::prelude::*;
use std::collections::BTreeMap;
use vstd::std_specs::iter::IteratorSpec;
use crate::graph::bellman_ford::{recorded, through, Graph};
use crate::graph::relaxation::{
    distance,
    lemma_record_update,
    lemma_settled_is_shortest,
    record_sound,
    records_sound,
    settled,
    shortest_paths,
    weights_within,
};
use crate::graph::walks::{edge_weight, has_edge, well_formed};
use crate::graph::weight::Weight;
use crate::order::ordered_keys;

verus! {

/// No edge has a weight below zero.
pub open spec fn nonnegative<V, E: Weight>(g: Graph<V, E>) -> bool {
    forall|u: V, v: V| has_edge(g, u, v) ==> 0 <= #[trigger] edge_weight(g, u, v)
}

/// No edge that leaves `u` could still lower a distance.
pub open spec fn closed<V, E: Weight>(g: Graph<V, E>, m: Map<V, Option<(V, E)>>, u: V) -> bool {
    forall|v: V| #[trigger]
        has_edge(g, u, v) ==> m.contains_key(v) && distance(m, v) <= distance(m, u) + edge_weight(
            g,
            u,
            v,
        )
}

/// The queue holds an entry for `u` with the distance that is recorded for
/// it now.
pub open spec fn queued<V, E: Weight>(q: Seq<(E, V, V)>, m: Map<V, Option<(V, E)>>, u: V) -> bool {
    exists|i: int| 0 <= i < q.len() && (#[trigger] q[i]).1 == u && q[i].0.value() == distance(m, u)
}

/// Every recorded vertex but those in `skip` is closed or waits in the
/// queue with its present distance.
pub open spec fn tended<V, E: Weight>(
    g: Graph<V, E>,
    m: Map<V, Option<(V, E)>>,
    q: Seq<(E, V, V)>,
    skip: Set<V>,
) -> bool {
    forall|x: V|
        m.contains_key(x) && !skip.contains(x) ==> #[trigger] closed(g, m, x) || queued(q, m, x)
}

/// Every entry of the queue is for a recorded vertex of the graph other
/// than the source, with a distance of at least `low` and of at least the
/// recorded one; two entries for one vertex differ in their distances.
pub open spec fn queue_ok<V, E: Weight>(
    g: Graph<V, E>,
    source: V,
    m: Map<V, Option<(V, E)>>,
    q: Seq<(E, V, V)>,
    low: int,
) -> bool {
    &&& forall|i: int|
        0 <= i < q.len() ==> {
            &&& m.contains_key((#[trigger] q[i]).1)
            &&& q[i].1 != source
            &&& g@.contains_key(q[i].1)
            &&& distance(m, q[i].1) <= q[i].0.value()
            &&& low <= q[i].0.value()
        }
    &&& forall|i: int, j: int|
        0 <= i < j < q.len() && (#[trigger] q[i]).1 == (#[trigger] q[j]).1 ==> q[i].0.value()
            != q[j].0.value()
}

/// Every finished vertex is a recorded vertex of the graph with a distance
/// of at most `low`, below that of every entry that the queue holds for
/// it.
pub open spec fn finished_ok<V, E: Weight>(
    g: Graph<V, E>,
    m: Map<V, Option<(V, E)>>,
    q: Seq<(E, V, V)>,
    finished: Set<V>,
    low: int,
) -> bool {
    &&& forall|v: V| #[trigger]
        finished.contains(v) ==> m.contains_key(v) && g@.contains_key(v) && distance(m, v) <= low
    &&& forall|i: int|
        0 <= i < q.len() && finished.contains((#[trigger] q[i]).1) ==> distance(m, q[i].1)
            < q[i].0.value()
}

/// `bound` limits every edge weight, and the sum of as many weights as the
/// graph has vertices still fits in the weight type.
pub open spec fn path_weights_fit<V, E: Weight>(g: Graph<V, E>, bound: int) -> bool {
    &&& 0 <= bound
    &&& weights_within(g, bound)
    &&& g@.len() * bound <= E::highest()
}

/// The edge weights are small enough for the sums along walks that visit no
/// vertex twice: some bound limits every weight, and that bound times the
/// number of vertices fits in the weight type.
pub open spec fn path_sums_fit<V, E: Weight>(g: Graph<V, E>) -> bool {
    exists|bound: int| path_weights_fit(g, bound)
}

/// Every recorded distance lies between zero and `bound`.
pub open spec fn distances_up_to<V, E: Weight>(m: Map<V, Option<(V, E)>>, bound: int) -> bool {
    forall|v: V| m.contains_key(v) ==> 0 <= #[trigger] distance(m, v) <= bound
}

/// Taking an entry out of the queue keeps what holds of its entries, and
/// leaves every vertex in the queue that waited there with another entry.
pub proof fn lemma_entry_taken<V, E: Weight>(
    g: Graph<V, E>,
    source: V,
    m: Map<V, Option<(V, E)>>,
    q: Seq<(E, V, V)>,
    finished: Set<V>,
    low: int,
    idx: int,
    skip: Set<V>,
)
    requires
        0 <= idx < q.len(),
        queue_ok(g, source, m, q, low),
        finished_ok(g, m, q, finished, low),
        tended(g, m, q, Set::empty()),
        forall|i: int| 0 <= i < q.len() ==> q[idx].0.value() <= (#[trigger] q[i]).0.value(),
        skip.contains(q[idx].1) || q[idx].0.value() != distance(m, q[idx].1),
    ensures
        queue_ok(g, source, m, q.remove(idx), q[idx].0.value()),
        finished_ok(g, m, q.remove(idx), finished, q[idx].0.value()),
        tended(g, m, q.remove(idx), skip),
        forall|i: int|
            0 <= i < q.remove(idx).len() && (#[trigger] q.remove(idx)[i]).1 == q[idx].1
                ==> q.remove(idx)[i].0.value() != q[idx].0.value(),
{
    let r = q.remove(idx);
    let now = q[idx].0.value();
    assert forall|i: int| 0 <= i < r.len() implies (#[trigger] r[i]) == q[if i < idx {
        i
    } else {
        i + 1
    }] by {
    }
    assert forall|i: int| 0 <= i < r.len() implies {
        &&& m.contains_key((#[trigger] r[i]).1)
        &&& r[i].1 != source
        &&& g@.contains_key(r[i].1)
        &&& distance(m, r[i].1) <= r[i].0.value()
        &&& now <= r[i].0.value()
    } by {
        let k = if i < idx {
            i
        } else {
            i + 1
        };
        assert(r[i] == q[k]);
    }
    assert forall|i: int, j: int|
        0 <= i < j < r.len() && (#[trigger] r[i]).1 == (#[trigger] r[j]).1 implies r[i].0.value()
        != r[j].0.value() by {
        let a = if i < idx {
            i
        } else {
            i + 1
        };
        let b = if j < idx {
            j
        } else {
            j + 1
        };
        assert(r[i] == q[a] && r[j] == q[b]);
    }
    assert forall|v: V| #[trigger] finished.contains(v) implies m.contains_key(v)
        && g@.contains_key(v) && distance(m, v) <= now by {
        assert(low <= q[idx].0.value());
    }
    assert forall|i: int| 0 <= i < r.len() && finished.contains((#[trigger] r[i]).1) implies distance(
        m,
        r[i].1,
    ) < r[i].0.value() by {
        let k = if i < idx {
            i
        } else {
            i + 1
        };
        assert(r[i] == q[k]);
    }
    assert forall|x: V| m.contains_key(x) && !skip.contains(x) implies #[trigger] closed(g, m, x)
        || queued(r, m, x) by {
        if !closed(g, m, x) {
            assert(queued(q, m, x));
            let i = choose|i: int|
                0 <= i < q.len() && (#[trigger] q[i]).1 == x && q[i].0.value() == distance(m, x);
            assert(i != idx);
            let k = if i < idx {
                i
            } else {
                i - 1
            };
            assert(r[k] == q[i]);
        }
    }
    assert forall|i: int| 0 <= i < r.len() && (#[trigger] r[i]).1 == q[idx].1 implies r[i].0.value()
        != q[idx].0.value() by {
        let k = if i < idx {
            i
        } else {
            i + 1
        };
        assert(r[i] == q[k]);
        if k < idx {
            assert(q[k].1 == q[idx].1);
        } else {
            assert(q[idx].1 == q[k].1);
        }
    }
}

/// Recording a shorter way to `v` over an edge from `u`, and queueing `v`
/// with its new distance, keeps what holds of the records and the queue.
pub proof fn lemma_entry_added<V, E: Weight>(
    g: Graph<V, E>,
    source: V,
    m: Map<V, Option<(V, E)>>,
    q: Seq<(E, V, V)>,
    finished: Set<V>,
    low: int,
    u: V,
    v: V,
    c: E,
)
    requires
        well_formed(g),
        nonnegative(g),
        records_sound(g, source, m),
        queue_ok(g, source, m, q, low),
        finished_ok(g, m, q, finished, low),
        tended(g, m, q, Set::empty().insert(u)),
        m.contains_key(u),
        distance(m, u) == low,
        has_edge(g, u, v),
        c.value() == low + edge_weight(g, u, v),
        v != source,
        !m.contains_key(v) || c.value() < distance(m, v),
    ensures
        v != u,
        !finished.contains(v),
        records_sound(g, source, m.insert(v, Some((u, c)))),
        queue_ok(g, source, m.insert(v, Some((u, c))), q.push((c, v, u)), low),
        finished_ok(g, m.insert(v, Some((u, c))), q.push((c, v, u)), finished, low),
        tended(g, m.insert(v, Some((u, c))), q.push((c, v, u)), Set::empty().insert(u)),
        forall|x: V|
            m.contains_key(x) ==> distance(m.insert(v, Some((u, c))), x) <= #[trigger] distance(
                m,
                x,
            ),
        forall|x: V| x != v && m.contains_key(x) ==> m.insert(v, Some((u, c)))[x] == m[x],
{
    let m2 = m.insert(v, Some((u, c)));
    let q2 = q.push((c, v, u));
    assert(0 <= edge_weight(g, u, v));
    lemma_record_update(g, source, m, u, v, c);
    assert forall|i: int| 0 <= i < q2.len() implies {
        &&& m2.contains_key((#[trigger] q2[i]).1)
        &&& q2[i].1 != source
        &&& g@.contains_key(q2[i].1)
        &&& distance(m2, q2[i].1) <= q2[i].0.value()
        &&& low <= q2[i].0.value()
    } by {
        if i < q.len() {
            assert(q2[i] == q[i]);
            assert(distance(m2, q[i].1) <= distance(m, q[i].1));
        }
    }
    assert forall|i: int, j: int|
        0 <= i < j < q2.len() && (#[trigger] q2[i]).1 == (#[trigger] q2[j]).1 implies q2[i].0.value()
        != q2[j].0.value() by {
        assert(q2[i] == q[i]);
        if j < q.len() {
            assert(q2[j] == q[j]);
        } else {
            assert(m.contains_key(q[i].1));
            assert(distance(m, q[i].1) <= q[i].0.value());
        }
    }
    assert forall|x: V| #[trigger] finished.contains(x) implies m2.contains_key(x)
        && g@.contains_key(x) && distance(m2, x) <= low by {
        assert(distance(m2, x) <= distance(m, x));
    }
    assert forall|i: int| 0 <= i < q2.len() && finished.contains((#[trigger] q2[i]).1) implies distance(
        m2,
        q2[i].1,
    ) < q2[i].0.value() by {
        if i < q.len() {
            assert(q2[i] == q[i]);
            assert(distance(m2, q[i].1) == distance(m, q[i].1));
        }
    }
    assert forall|x: V|
        m2.contains_key(x) && !Set::<V>::empty().insert(u).contains(x) implies #[trigger] closed(
        g,
        m2,
        x,
    ) || queued(q2, m2, x) by {
        if x == v {
            assert(q2[q.len() as int] == (c, v, u));
            assert(queued(q2, m2, x));
        } else if closed(g, m, x) {
            assert forall|y: V| #[trigger] has_edge(g, x, y) implies m2.contains_key(y)
                && distance(m2, y) <= distance(m2, x) + edge_weight(g, x, y) by {
                assert(m.contains_key(y));
                assert(distance(m2, y) <= distance(m, y));
            }
        } else {
            assert(queued(q, m, x));
            let i = choose|i: int|
                0 <= i < q.len() && (#[trigger] q[i]).1 == x && q[i].0.value() == distance(m, x);
            assert(q2[i] == q[i]);
        }
    }
}

/// When every edge of `u` has been looked at, `u` is closed and can be
/// counted as finished.
pub proof fn lemma_vertex_finished<V, E: Weight>(
    g: Graph<V, E>,
    m: Map<V, Option<(V, E)>>,
    q: Seq<(E, V, V)>,
    finished: Set<V>,
    low: int,
    u: V,
)
    requires
        finished_ok(g, m, q, finished, low),
        tended(g, m, q, Set::empty().insert(u)),
        closed(g, m, u),
        m.contains_key(u),
        g@.contains_key(u),
        distance(m, u) == low,
        forall|i: int| 0 <= i < q.len() && (#[trigger] q[i]).1 == u ==> low < q[i].0.value(),
    ensures
        finished_ok(g, m, q, finished.insert(u), low),
        tended(g, m, q, Set::empty()),
{
}

/// One vertex more in a set leaves fewer of a finite set outside it.
pub proof fn lemma_fewer_outside<V>(all: Set<V>, inside: Set<V>, v: V)
    requires
        all.finite(),
        all.contains(v),
        !inside.contains(v),
    ensures
        all.difference(inside.insert(v)).len() + 1 == all.difference(inside).len(),
        all.difference(inside).len() <= all.len(),
{
    let before = all.difference(inside);
    assert(before.contains(v));
    assert(all.difference(inside.insert(v)) =~= before.remove(v));
    vstd::set_lib::lemma_len_subset(before, all);
}

/// With `left` vertices left to finish out of `n`, a distance within the
/// share of the finished ones leaves room for one more weight.
pub proof fn lemma_room(bound: int, n: int, left: int, lim: int)
    requires
        0 <= bound,
        1 <= left <= n,
        lim + left * bound <= n * bound,
    ensures
        lim + bound <= n * bound,
        (lim + bound) + (left - 1) * bound <= n * bound,
        (left - 1) * bound == left * bound - bound,
{
    assert((left - 1) * bound == left * bound - bound) by (nonlinear_arith);
    assert(0 <= (left - 1) * bound) by (nonlinear_arith)
        requires
            1 <= left,
            0 <= bound,
    ;
}

/// Whether the entry `a` comes before the entry `b`: by distance, then by
/// vertex, then by predecessor.
fn comes_first<V: Ord + Copy, E: Weight>(a: &(E, V, V), b: &(E, V, V)) -> (r: bool)
    ensures
        r ==> a.0.value() <= b.0.value(),
        !r ==> b.0.value() <= a.0.value(),
{
    if a.0.below(b.0) {
        true
    } else if b.0.below(a.0) {
        false
    } else if a.1 < b.1 {
        true
    } else if b.1 < a.1 {
        false
    } else {
        a.2 < b.2
    }
}

/// Takes the entry with the least distance out of the queue; of several,
/// the one with the least vertex and predecessor.
fn pop_least<V: Ord + Copy, E: Weight>(prio: &mut Vec<(E, V, V)>) -> (r: Option<(usize, (E, V, V))>)
    ensures
        match r {
            Some((idx, e)) => {
                &&& idx < old(prio)@.len()
                &&& e == old(prio)@[idx as int]
                &&& final(prio)@ == old(prio)@.remove(idx as int)
                &&& forall|i: int|
                    0 <= i < old(prio)@.len() ==> e.0.value() <= (#[trigger] old(prio)@[i]).0.value()
            },
            None => old(prio)@.len() == 0 && final(prio)@ == old(prio)@,
        },
{
    if prio.len() == 0 {
        return None;
    }
    let mut best: usize = 0;
    let mut i: usize = 1;
    while i < prio.len()
        invariant
            prio@ == old(prio)@,
            1 <= i <= prio@.len(),
            best < i,
            forall|k: int| 0 <= k < i ==> prio@[best as int].0.value() <= (#[trigger] prio@[k]).0.value(),
        decreases prio@.len() - i,
    {
        if comes_first(&prio[i], &prio[best]) {
            best = i;
        }
        i += 1;
    }
    let e = prio.remove(best);
    Some((best, e))
}

/// Computes the shortest paths from `start` to every vertex that can be
/// reached from it, in a graph without negative weights.
///
/// The result holds a record for exactly the reachable vertices: `None`
/// for `start`, and for every other vertex its predecessor on a shortest
/// walk together with the least weight of a walk from `start`.
pub fn dijkstra<V: Ord + Copy, E: Weight>(graph: &Graph<V, E>, start: &V) -> (ans: BTreeMap<
    V,
    Option<(V, E)>,
>)
    requires
        ordered_keys::<V>(),
        well_formed(*graph),
        graph@.contains_key(*start),
        nonnegative(*graph),
        path_sums_fit(*graph),
    ensures
        shortest_paths(*graph, *start, ans@),
{
    let mut ans: BTreeMap<V, Option<(V, E)>> = BTreeMap::new();
    let mut prio: Vec<(E, V, V)> = Vec::new();
    ans.insert(*start, None);
    let n = graph.len();
    let ghost bound = choose|bound: int| path_weights_fit(*graph, bound);
    let ghost all = graph@.dom();
    let ghost mut finished = Set::<V>::empty().insert(*start);
    let ghost mut low: int = 0;
    let ghost mut lim: int = bound;
    proof {
        crate::graph::relaxation::lemma_initial(*graph, *start, ans@);
        assert(all.finite());
    }
    let first = match graph.get(start) {
        Some(edges) => edges,
        None => {
            return ans;
        },
    };
    let ghost mut checked = Set::<V>::empty();
    for (new, weight) in it: first.iter()
        invariant
            ordered_keys::<V>(),
            well_formed(*graph),
            nonnegative(*graph),
            path_weights_fit(*graph, bound),
            graph@.contains_key(*start),
            graph@[*start] == *first,
            it.seq() == first.iter().remaining(),
            ans@.contains_key(*start),
            ans@[*start] is None,
            records_sound(*graph, *start, ans@),
            queue_ok(*graph, *start, ans@, prio@, 0),
            finished_ok(*graph, ans@, prio@, finished, 0),
            finished == Set::<V>::empty().insert(*start),
            tended(*graph, ans@, prio@, finished),
            distances_up_to(ans@, bound),
            forall|j: int| 0 <= j < it.index() ==> checked.contains(*(#[trigger] it.seq()[j]).0),
            forall|v: V| ans@.contains_key(v) && v != *start ==> #[trigger] checked.contains(v),
            forall|v: V| #[trigger]
                checked.contains(v) ==> ans@.contains_key(v) && distance(ans@, v) <= edge_weight(
                    *graph,
                    *start,
                    v,
                ),
    {
        assert(has_edge(*graph, *start, *new));
        assert(edge_weight(*graph, *start, *new) == weight.value());
        assert(0 <= edge_weight(*graph, *start, *new));
        let ghost m = ans@;
        let ghost q = prio@;
        match recorded(&ans, new) {
            None => {
                proof {
                    lemma_entry_added(*graph, *start, m, q, Set::empty(), 0, *start, *new, *weight);
                }
                ans.insert(*new, Some((*start, *weight)));
                prio.push((*weight, *new, *start));
                proof {
                    assert forall|v: V| ans@.contains_key(v) implies 0 <= #[trigger] distance(
                        ans@,
                        v,
                    ) <= bound by {
                        if v != *new {
                            assert(distance(ans@, v) == distance(m, v));
                        }
                    }
                    assert forall|i: int|
                        0 <= i < prio@.len() && finished.contains((#[trigger] prio@[i]).1) implies distance(
                        ans@,
                        prio@[i].1,
                    ) < prio@[i].0.value() by {
                    }
                    assert forall|v: V| #[trigger] checked.insert(*new).contains(v) implies ans@.contains_key(
                        v,
                    ) && distance(ans@, v) <= edge_weight(*graph, *start, v) by {
                        if v != *new {
                            assert(checked.contains(v));
                            assert(distance(ans@, v) <= distance(m, v));
                        }
                    }
                }
            },
            Some(_) => {
                proof {
                    assert(record_sound(*graph, *start, ans@, *new));
                }
            },
        }
        proof {
            checked = checked.insert(*new);
        }
    }
    proof {
        assert(closed(*graph, ans@, *start)) by {
            assert forall|v: V| #[trigger] has_edge(*graph, *start, v) implies ans@.contains_key(v)
                && distance(ans@, v) <= distance(ans@, *start) + edge_weight(*graph, *start, v) by {
                let s = first.iter().remaining();
                assert(s.contains((&v, &first@[v])));
                let j = choose|j: int| 0 <= j < s.len() && s[j] == (&v, &first@[v]);
                assert(*s[j].0 == v);
            }
        }
        assert(tended(*graph, ans@, prio@, Set::empty()));
        lemma_fewer_outside(all, Set::empty(), *start);
        assert(Set::<V>::empty().insert(*start) =~= finished);
        assert(all.difference(Set::empty()) =~= all);
        assert(all.difference(finished).len() == n - 1);
        assert((n - 1) * bound == n * bound - bound) by (nonlinear_arith);
    }
    loop
        invariant
            ordered_keys::<V>(),
            well_formed(*graph),
            nonnegative(*graph),
            path_weights_fit(*graph, bound),
            n == graph@.len(),
            all == graph@.dom(),
            all.finite(),
            0 <= low,
            0 <= lim,
            lim + all.difference(finished).len() * bound <= n * bound,
            records_sound(*graph, *start, ans@),
            queue_ok(*graph, *start, ans@, prio@, low),
            finished_ok(*graph, ans@, prio@, finished, low),
            tended(*graph, ans@, prio@, Set::empty()),
            distances_up_to(ans@, lim),
        ensures
            records_sound(*graph, *start, ans@),
            settled(*graph, ans@),
        decreases all.difference(finished).len(), prio@.len(),
    {
        let ghost q0 = prio@;
        let (ghost_idx, dist_new, new) = match pop_least(&mut prio) {
            Some((idx, (d, v, _))) => (idx, d, v),
            None => {
                proof {
                    assert forall|u: V, v: V| ans@.contains_key(u) && #[trigger] has_edge(
                        *graph,
                        u,
                        v,
                    ) implies ans@.contains_key(v) && distance(ans@, v) <= distance(ans@, u)
                        + edge_weight(*graph, u, v) by {
                        assert(closed(*graph, ans@, u) || queued(prio@, ans@, u));
                    }
                }
                break;
            },
        };
        let ghost idx = ghost_idx as int;
        let ghost now = dist_new.value();
        let current = match recorded(&ans, &new) {
            Some(Some(d)) => !d.below(dist_new) && !dist_new.below(d),
            _ => false,
        };
        proof {
            assert(q0[idx].1 == new && q0[idx].0 == dist_new);
            assert(ans@.contains_key(new) && new != *start);
            assert(record_sound(*graph, *start, ans@, new));
            assert(current == (distance(ans@, new) == now));
            lemma_entry_taken(
                *graph,
                *start,
                ans@,
                q0,
                finished,
                low,
                idx,
                if current {
                    Set::empty().insert(new)
                } else {
                    Set::empty()
                },
            );
            low = now;
        }
        if current {
            proof {
                assert(!finished.contains(new)) by {
                    if finished.contains(new) {
                        assert(distance(ans@, q0[idx].1) < q0[idx].0.value());
                    }
                }
                lemma_fewer_outside(all, finished, new);
                lemma_room(
                    bound,
                    n as int,
                    all.difference(finished).len() as int,
                    lim,
                );
                assert(lim + bound + all.difference(finished.insert(new)).len() * bound <= n
                    * bound);
            }
            let edges = match graph.get(&new) {
                Some(edges) => edges,
                None => {
                    return ans;
                },
            };
            let ghost mut checked = Set::<V>::empty();
            for (next, weight) in it: edges.iter()
                invariant
                    ordered_keys::<V>(),
                    well_formed(*graph),
                    nonnegative(*graph),
                    path_weights_fit(*graph, bound),
                    n == graph@.len(),
                    graph@.contains_key(new),
                    graph@[new] == *edges,
                    it.seq() == edges.iter().remaining(),
                    0 <= lim,
                    lim + bound <= n * bound,
                    now == low,
                    now == dist_new.value(),
                    new != *start,
                    !finished.contains(new),
                    ans@.contains_key(new),
                    distance(ans@, new) == now,
                    records_sound(*graph, *start, ans@),
                    queue_ok(*graph, *start, ans@, prio@, low),
                    finished_ok(*graph, ans@, prio@, finished, low),
                    tended(*graph, ans@, prio@, Set::empty().insert(new)),
                    distances_up_to(ans@, lim + bound),
                    now <= lim,
                    forall|i: int|
                        0 <= i < prio@.len() && (#[trigger] prio@[i]).1 == new ==> low
                            < prio@[i].0.value(),
                    forall|j: int|
                        0 <= j < it.index() ==> checked.contains(*(#[trigger] it.seq()[j]).0),
                    forall|v: V| #[trigger]
                        checked.contains(v) ==> ans@.contains_key(v) && distance(ans@, v) <= now
                            + edge_weight(*graph, new, v),
            {
                assert(has_edge(*graph, new, *next));
                assert(edge_weight(*graph, new, *next) == weight.value());
                assert(0 <= edge_weight(*graph, new, *next));
                assert(-bound <= edge_weight(*graph, new, *next) <= bound);
                proof {
                    dist_new.lemma_range();
                }
                let cand = through(Some(dist_new), *weight);
                let improves = match recorded(&ans, next) {
                    Some(Some(dist_next)) => cand.below(dist_next),
                    Some(None) => false,
                    None => true,
                };
                let ghost m = ans@;
                let ghost q = prio@;
                if improves {
                    proof {
                        assert(ans@.contains_key(*next) ==> record_sound(
                            *graph,
                            *start,
                            ans@,
                            *next,
                        ));
                        lemma_entry_added(*graph, *start, m, q, finished, low, new, *next, cand);
                    }
                    ans.insert(*next, Some((new, cand)));
                    prio.push((cand, *next, new));
                    proof {
                        assert forall|v: V| ans@.contains_key(v) implies 0 <= #[trigger] distance(
                            ans@,
                            v,
                        ) <= lim + bound by {
                            if v != *next {
                                assert(distance(ans@, v) == distance(m, v));
                            }
                        }
                        assert forall|i: int|
                            0 <= i < prio@.len() && (#[trigger] prio@[i]).1 == new implies low
                            < prio@[i].0.value() by {
                            if i < q.len() {
                                assert(prio@[i] == q[i]);
                            }
                        }
                        assert forall|v: V| #[trigger] checked.insert(*next).contains(v) implies ans@.contains_key(
                            v,
                        ) && distance(ans@, v) <= now + edge_weight(*graph, new, v) by {
                            if v != *next {
                                assert(checked.contains(v));
                                assert(distance(ans@, v) <= distance(m, v));
                            }
                        }
                    }
                } else {
                    proof {
                        assert(ans@.contains_key(*next));
                        assert(record_sound(*graph, *start, ans@, *next));
                    }
                }
                proof {
                    checked = checked.insert(*next);
                }
            }
            proof {
                assert(closed(*graph, ans@, new)) by {
                    assert forall|v: V| #[trigger] has_edge(*graph, new, v) implies ans@.contains_key(
                        v,
                    ) && distance(ans@, v) <= distance(ans@, new) + edge_weight(*graph, new, v) by {
                        let s = edges.iter().remaining();
                        assert(s.contains((&v, &edges@[v])));
                        let j = choose|j: int| 0 <= j < s.len() && s[j] == (&v, &edges@[v]);
                        assert(*s[j].0 == v);
                    }
                }
                lemma_vertex_finished(*graph, ans@, prio@, finished, low, new);
                finished = finished.insert(new);
                lim = lim + bound;
            }
        }
    }
    proof {
        lemma_settled_is_shortest(*graph, *start, ans@);
    }
    ans
}

} // verus!
