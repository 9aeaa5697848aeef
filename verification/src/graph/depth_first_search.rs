//! Depth-first search for a vertex in a directed graph given by its edges.
use vstd::prelude::*;
use std::collections::HashSet;
use std::collections::VecDeque;

verus! {

/// A vertex, known by its number.
#[derive(Copy, Clone, PartialEq, Eq, Hash, Structural)]
pub struct Vertex(pub u32);

/// A directed edge from the vertex with the first number to the vertex with
/// the second.
#[derive(Copy, Clone, PartialEq, Eq, Hash, Structural)]
pub struct Edge(pub u32, pub u32);

/// A directed graph: its vertices and its edges, in the order given.
#[derive(Clone)]
pub struct Graph {
    pub vertices: Vec<Vertex>,
    pub edges: Vec<Edge>,
}

impl Graph {
    /// A graph with the given vertices and edges.
    pub fn new(vertices: Vec<Vertex>, edges: Vec<Edge>) -> (g: Self)
        ensures
            g.vertices == vertices,
            g.edges == edges,
    {
        Graph { vertices, edges }
    }
}

impl From<u32> for Vertex {
    fn from(item: u32) -> (v: Self) {
        Vertex(item)
    }
}

impl vstd::std_specs::convert::FromSpecImpl<u32> for Vertex {
    open spec fn obeys_from_spec() -> bool {
        true
    }

    open spec fn from_spec(item: u32) -> Self {
        Vertex(item)
    }
}

impl From<(u32, u32)> for Edge {
    fn from(item: (u32, u32)) -> (e: Self) {
        Edge(item.0, item.1)
    }
}

impl vstd::std_specs::convert::FromSpecImpl<(u32, u32)> for Edge {
    open spec fn obeys_from_spec() -> bool {
        true
    }

    open spec fn from_spec(item: (u32, u32)) -> Self {
        Edge(item.0, item.1)
    }
}

/// The vertices that the edges of `edges` lead to from the vertex numbered
/// `from`, in the order of the edges.
pub open spec fn successors(edges: Seq<Edge>, from: u32) -> Seq<Vertex>
    decreases edges.len(),
{
    if edges.len() == 0 {
        Seq::empty()
    } else {
        let rest = successors(edges.drop_last(), from);
        if edges.last().0 == from {
            rest.push(Vertex(edges.last().1))
        } else {
            rest
        }
    }
}

/// Some edge leads from the vertex numbered `a` to the vertex numbered `b`.
pub open spec fn linked(edges: Seq<Edge>, a: u32, b: u32) -> bool {
    exists|i: int| 0 <= i < edges.len() && #[trigger] edges[i] == Edge(a, b)
}

/// `p` is a non-empty sequence of vertex numbers in which each one is
/// linked to the next.
pub open spec fn is_trail(edges: Seq<Edge>, p: Seq<u32>) -> bool {
    &&& p.len() >= 1
    &&& forall|i: int| 0 <= i < p.len() - 1 ==> linked(edges, #[trigger] p[i], p[i + 1])
}

/// The vertex numbered `to` can be reached from the one numbered `from` by
/// following edges. Every vertex reaches itself.
pub open spec fn reaches(edges: Seq<Edge>, from: u32, to: u32) -> bool {
    exists|p: Seq<u32>| is_trail(edges, p) && p[0] == from && #[trigger] p.last() == to
}

/// A vertex that is linked to from a vertex that can be reached can be
/// reached as well.
pub proof fn lemma_reaches_step(edges: Seq<Edge>, from: u32, a: u32, b: u32)
    requires
        reaches(edges, from, a),
        linked(edges, a, b),
    ensures
        reaches(edges, from, b),
{
    let p = choose|p: Seq<u32>| is_trail(edges, p) && p[0] == from && #[trigger] p.last() == a;
    let q = p.push(b);
    assert forall|i: int| 0 <= i < q.len() - 1 implies linked(edges, #[trigger] q[i], q[i + 1]) by {
        if i < p.len() - 1 {
            assert(q[i] == p[i] && q[i + 1] == p[i + 1]);
        }
    }
    assert(is_trail(edges, q) && q[0] == from && q.last() == b);
}

/// Every vertex reaches itself.
pub proof fn lemma_reaches_self(edges: Seq<Edge>, from: u32)
    ensures
        reaches(edges, from, from),
{
    let p = seq![from];
    assert(is_trail(edges, p) && p[0] == from && p.last() == from);
}

/// A set of vertex numbers that holds `from` and every number that one of
/// its own is linked to holds every number that `from` reaches.
pub proof fn lemma_closed_set(edges: Seq<Edge>, from: u32, closed: Set<u32>, p: Seq<u32>)
    requires
        closed.contains(from),
        forall|a: u32, b: u32| closed.contains(a) && #[trigger] linked(edges, a, b) ==> closed.contains(b),
        is_trail(edges, p),
        p[0] == from,
    ensures
        closed.contains(p.last()),
    decreases p.len(),
{
    if p.len() >= 2 {
        let q = p.drop_last();
        assert forall|i: int| 0 <= i < q.len() - 1 implies linked(edges, #[trigger] q[i], q[i + 1]) by {
            assert(q[i] == p[i] && q[i + 1] == p[i + 1]);
        }
        lemma_closed_set(edges, from, closed, q);
        assert(linked(edges, p[p.len() - 2], p[p.len() - 2 + 1]));
    }
}

/// The successors of a vertex are exactly the vertices it is linked to.
pub proof fn lemma_successors_linked(edges: Seq<Edge>, from: u32)
    ensures
        forall|j: int|
            0 <= j < successors(edges, from).len() ==> linked(
                edges,
                from,
                (#[trigger] successors(edges, from)[j]).0,
            ),
        forall|b: u32| #[trigger]
            linked(edges, from, b) ==> successors(edges, from).contains(Vertex(b)),
    decreases edges.len(),
{
    if edges.len() > 0 {
        let front = edges.drop_last();
        lemma_successors_linked(front, from);
        let s = successors(edges, from);
        let rest = successors(front, from);
        assert forall|j: int| 0 <= j < s.len() implies linked(edges, from, (#[trigger] s[j]).0) by {
            if j < rest.len() {
                assert(linked(front, from, rest[j].0));
                let i = choose|i: int| 0 <= i < front.len() && #[trigger] front[i] == Edge(from, rest[j].0);
                assert(edges[i] == front[i]);
            } else {
                assert(edges[edges.len() - 1] == Edge(from, s[j].0));
            }
        }
        assert forall|b: u32| #[trigger] linked(edges, from, b) implies s.contains(Vertex(b)) by {
            let i = choose|i: int| 0 <= i < edges.len() && #[trigger] edges[i] == Edge(from, b);
            if i < edges.len() - 1 {
                assert(front[i] == edges[i]);
                assert(linked(front, from, b));
                let j = choose|j: int| 0 <= j < rest.len() && rest[j] == Vertex(b);
                assert(s[j] == Vertex(b));
            } else {
                assert(s[s.len() - 1] == Vertex(b));
            }
        }
    }
}

impl Vertex {
    /// The number of the vertex.
    pub fn value(&self) -> (r: u32)
        ensures
            r == self.0,
    {
        self.0
    }

    /// The vertices that the edges of `graph` lead to from this one, in the
    /// order of the edges.
    pub fn neighbors(&self, graph: &Graph) -> (r: VecDeque<Vertex>)
        ensures
            r@ == successors(graph.edges@, self.0),
    {
        let mut found: VecDeque<Vertex> = VecDeque::new();
        let mut i: usize = 0;
        while i < graph.edges.len()
            invariant
                i <= graph.edges@.len(),
                found@ == successors(graph.edges@.subrange(0, i as int), self.0),
            decreases graph.edges@.len() - i,
        {
            let e = graph.edges[i];
            proof {
                let next = graph.edges@.subrange(0, i + 1);
                assert(next.drop_last() =~= graph.edges@.subrange(0, i as int));
                assert(next.last() == e);
            }
            if e.0 == self.0 {
                found.push_back(Vertex(e.1));
            }
            i += 1;
        }
        proof {
            assert(graph.edges@.subrange(0, i as int) =~= graph.edges@);
        }
        found
    }
}

/// The numbers of the vertices that some edge leads to.
pub open spec fn targets(edges: Seq<Edge>) -> Set<u32> {
    edges.map_values(|e: Edge| e.1).to_set()
}

/// A vertex that is linked to is a target, and there are finitely many.
pub proof fn lemma_targets(edges: Seq<Edge>)
    ensures
        targets(edges).finite(),
        forall|a: u32, b: u32| #[trigger] linked(edges, a, b) ==> targets(edges).contains(b),
{
    let ends = edges.map_values(|e: Edge| e.1);
    vstd::seq_lib::seq_to_set_is_finite(ends);
    assert forall|a: u32, b: u32| #[trigger] linked(edges, a, b) implies targets(edges).contains(
        b,
    ) by {
        let i = choose|i: int| 0 <= i < edges.len() && #[trigger] edges[i] == Edge(a, b);
        assert(ends[i] == b);
        assert(ends.contains(b));
    }
}

/// The queue and the set of visited numbers after the vertices of `next`
/// from position `from` on have been taken up, the last of them first:
/// each that has not been visited is marked as visited and put at the front
/// of the queue.
pub open spec fn taken_up(queue: Seq<Vertex>, visited: Set<u32>, next: Seq<Vertex>, from: int) -> (
    Seq<Vertex>,
    Set<u32>,
)
    decreases next.len() - from,
{
    if from < 0 || from >= next.len() {
        (queue, visited)
    } else {
        let later = taken_up(queue, visited, next, from + 1);
        if later.1.contains(next[from].0) {
            later
        } else {
            (seq![next[from]] + later.0, later.1.insert(next[from].0))
        }
    }
}

/// What the search results in when it goes on from a queue of vertices to
/// take up, a set of visited numbers and the history so far, and may take
/// up `fuel` vertices more: the history up to the objective, or `None`
/// where the queue runs empty before the objective is found. The outer
/// `None` stands for a search that runs out of fuel.
pub open spec fn search(
    edges: Seq<Edge>,
    queue: Seq<Vertex>,
    visited: Set<u32>,
    history: Seq<u32>,
    objective: u32,
    fuel: nat,
) -> Option<Option<Seq<u32>>>
    decreases fuel,
{
    if queue.len() == 0 {
        Some(None)
    } else if fuel == 0 {
        None
    } else {
        let current = queue[0];
        let longer = history.push(current.0);
        if current.0 == objective {
            Some(Some(longer))
        } else {
            let then = taken_up(
                queue.subrange(1, queue.len() as int),
                visited,
                successors(edges, current.0),
                0,
            );
            search(edges, then.0, then.1, longer, objective, (fuel - 1) as nat)
        }
    }
}

/// A search that comes to an end with some fuel comes to the same end with
/// more, so that there is one result that a search can have.
pub proof fn lemma_search_settles(
    edges: Seq<Edge>,
    queue: Seq<Vertex>,
    visited: Set<u32>,
    history: Seq<u32>,
    objective: u32,
    fuel: nat,
    more: nat,
)
    requires
        search(edges, queue, visited, history, objective, fuel) is Some,
    ensures
        search(edges, queue, visited, history, objective, fuel + more) == search(
            edges,
            queue,
            visited,
            history,
            objective,
            fuel,
        ),
    decreases fuel,
{
    if queue.len() > 0 && fuel > 0 && queue[0].0 != objective {
        let then = taken_up(
            queue.subrange(1, queue.len() as int),
            visited,
            successors(edges, queue[0].0),
            0,
        );
        lemma_search_settles(
            edges,
            then.0,
            then.1,
            history.push(queue[0].0),
            objective,
            (fuel - 1) as nat,
            more,
        );
    }
}

/// The history that a result holds, if it holds one.
pub open spec fn history_of(r: Option<Vec<u32>>) -> Option<Seq<u32>> {
    match r {
        Some(history) => Some(history@),
        None => None,
    }
}

/// Marking one more target as visited leaves one target less to visit.
pub proof fn lemma_fewer_left(all: Set<u32>, visited: Set<u32>, b: u32)
    requires
        all.finite(),
        all.contains(b),
        !visited.contains(b),
    ensures
        all.difference(visited.insert(b)).len() + 1 == all.difference(visited).len(),
{
    let before = all.difference(visited);
    assert(before.contains(b));
    assert(all.difference(visited.insert(b)) =~= before.remove(b));
}

/// Searches `graph` depth first, from `root`, for `objective`.
///
/// Where `objective` can be reached from `root`, the numbers of the vertices
/// are returned in the order in which the search took them up: `root`
/// first, `objective` last and nowhere else, and only vertices that can be
/// reached from `root`. Where it cannot be reached, `None` is returned.
pub fn depth_first_search(graph: &Graph, root: Vertex, objective: Vertex) -> (r: Option<Vec<u32>>)
    ensures
        r is Some <==> reaches(graph.edges@, root.0, objective.0),
        exists|fuel: nat|
            search(
                graph.edges@,
                seq![root],
                Set::empty(),
                Seq::empty(),
                objective.0,
                fuel,
            ) == Some(history_of(r)),
        match r {
            Some(history) => {
                &&& history@.len() >= 1
                &&& history@[0] == root.0
                &&& history@.last() == objective.0
                &&& forall|i: int|
                    0 <= i < history@.len() ==> reaches(graph.edges@, root.0, #[trigger] history@[i])
                &&& forall|i: int| 0 <= i < history@.len() - 1 ==> #[trigger] history@[i] != objective.0
            },
            None => true,
        },
{
    let mut visited: HashSet<u32> = HashSet::new();
    let mut history: Vec<u32> = Vec::new();
    let mut queue: VecDeque<Vertex> = VecDeque::new();
    let ghost edges = graph.edges@;
    let ghost all = targets(edges);
    queue.push_back(root);
    let ghost total = (all.len() + 1) as nat;
    let ghost mut fuel = total;
    proof {
        lemma_targets(edges);
        lemma_reaches_self(edges, root.0);
        assert(queue@[0] == root);
        assert(queue@ =~= seq![root]);
        assert(all.difference(visited@) =~= all);
    }
    loop
        invariant
            fuel == queue@.len() + all.difference(visited@).len(),
            search(edges, seq![root], Set::empty(), Seq::empty(), objective.0, total) == search(
                edges,
                queue@,
                visited@,
                history@,
                objective.0,
                fuel,
            ),
            edges == graph.edges@,
            all == targets(edges),
            all.finite(),
            forall|a: u32, b: u32| #[trigger] linked(edges, a, b) ==> all.contains(b),
            forall|i: int| 0 <= i < queue@.len() ==> reaches(edges, root.0, (#[trigger] queue@[i]).0),
            forall|v: u32| #[trigger]
                visited@.contains(v) ==> reaches(edges, root.0, v) && all.contains(v),
            forall|v: u32| #[trigger]
                visited@.contains(v) ==> history@.contains(v) || queue@.contains(Vertex(v)),
            forall|i: int|
                0 <= i < history@.len() ==> reaches(edges, root.0, #[trigger] history@[i])
                    && history@[i] != objective.0,
            forall|i: int, b: u32|
                0 <= i < history@.len() && #[trigger] linked(edges, history@[i], b)
                    ==> visited@.contains(b),
            history@.contains(root.0) || queue@.contains(root),
            history@.len() > 0 ==> history@[0] == root.0,
            history@.len() == 0 ==> queue@.len() == 1 && queue@[0] == root,
        ensures
            !reaches(edges, root.0, objective.0),
            search(edges, seq![root], Set::empty(), Seq::empty(), objective.0, total) == Some(
                None::<Seq<u32>>,
            ),
        decreases all.difference(visited@).len(), queue@.len(),
    {
        let ghost queue0 = queue@;
        let ghost visited0 = visited@;
        let ghost history0 = history@;
        let current_vertex = match queue.pop_front() {
            Some(v) => v,
            None => {
                proof {
                    let seen = Set::new(|x: u32| history@.contains(x));
                    assert(seen.contains(root.0));
                    assert forall|a: u32, b: u32|
                        seen.contains(a) && #[trigger] linked(edges, a, b) implies seen.contains(
                        b,
                    ) by {
                        let i = choose|i: int| 0 <= i < history@.len() && history@[i] == a;
                        assert(visited@.contains(b));
                    }
                    if reaches(edges, root.0, objective.0) {
                        let p = choose|p: Seq<u32>|
                            is_trail(edges, p) && p[0] == root.0 && #[trigger] p.last()
                                == objective.0;
                        lemma_closed_set(edges, root.0, seen, p);
                        let i = choose|i: int|
                            0 <= i < history@.len() && history@[i] == objective.0;
                        assert(history@[i] != objective.0);
                    }
                }
                break;
            },
        };
        let ghost queue1 = queue@;
        proof {
            assert(queue1 =~= queue0.subrange(1, queue0.len() as int));
        }
        history.push(current_vertex.value());
        proof {
            assert(current_vertex == queue0[0]);
            assert(history@[history@.len() - 1] == current_vertex.0);
            assert forall|v: u32| #[trigger] visited@.contains(v) implies history@.contains(v)
                || queue@.contains(Vertex(v)) by {
                if history0.contains(v) {
                    let i = choose|i: int| 0 <= i < history0.len() && history0[i] == v;
                    assert(history@[i] == v);
                } else {
                    let i = choose|i: int| 0 <= i < queue0.len() && queue0[i] == Vertex(v);
                    if i == 0 {
                        assert(history@[history@.len() - 1] == v);
                    } else {
                        assert(queue1[i - 1] == Vertex(v));
                    }
                }
            }
            if history0.contains(root.0) {
                let i = choose|i: int| 0 <= i < history0.len() && history0[i] == root.0;
                assert(history@[i] == root.0);
            } else {
                let i = choose|i: int| 0 <= i < queue0.len() && queue0[i] == root;
                if i == 0 {
                    assert(history@[history@.len() - 1] == root.0);
                } else {
                    assert(queue1[i - 1] == root);
                }
            }
            assert forall|i: int| 0 <= i < queue1.len() implies reaches(
                edges,
                root.0,
                (#[trigger] queue1[i]).0,
            ) by {
                assert(queue1[i] == queue0[i + 1]);
            }
        }
        if current_vertex == objective {
            proof {
                assert forall|i: int| 0 <= i < history@.len() - 1 implies #[trigger] history@[i]
                    != objective.0 by {
                    assert(history@[i] == history0[i]);
                }
                assert forall|i: int| 0 <= i < history@.len() implies reaches(
                    edges,
                    root.0,
                    #[trigger] history@[i],
                ) by {
                    if i < history0.len() {
                        assert(history@[i] == history0[i]);
                    }
                }
            }
            return Some(history);
        }
        let next = current_vertex.neighbors(graph);
        proof {
            lemma_successors_linked(edges, current_vertex.0);
        }
        let mut k: usize = next.len();
        while k > 0
            invariant
                edges == graph.edges@,
                all == targets(edges),
                all.finite(),
                k <= next@.len(),
                next@ == successors(edges, current_vertex.0),
                reaches(edges, root.0, current_vertex.0),
                forall|j: int|
                    0 <= j < next@.len() ==> linked(edges, current_vertex.0, (#[trigger] next@[j]).0),
                forall|a: u32, b: u32| #[trigger] linked(edges, a, b) ==> all.contains(b),
                forall|i: int|
                    0 <= i < queue@.len() ==> reaches(edges, root.0, (#[trigger] queue@[i]).0),
                forall|v: u32| #[trigger]
                    visited@.contains(v) ==> reaches(edges, root.0, v) && all.contains(v),
                forall|v: u32| #[trigger]
                    visited@.contains(v) ==> history@.contains(v) || queue@.contains(Vertex(v)),
                forall|v: u32| visited0.contains(v) ==> visited@.contains(v),
                (queue@, visited@) == taken_up(queue1, visited0, next@, k as int),
                queue@.len() + all.difference(visited@).len() == queue1.len() + all.difference(
                    visited0,
                ).len(),
                forall|j: int| k <= j < next@.len() ==> visited@.contains((#[trigger] next@[j]).0),
                history@.contains(root.0) || queue@.contains(root),
                (visited@ == visited0 && queue@ == queue1) || all.difference(visited@).len()
                    < all.difference(visited0).len(),
            decreases k,
        {
            k -= 1;
            let neighbor = next[k];
            let ghost queue_before = queue@;
            let ghost visited_before = visited@;
            proof {
                assert(linked(edges, current_vertex.0, next@[k as int].0));
                lemma_reaches_step(edges, root.0, current_vertex.0, neighbor.0);
            }
            if visited.insert(neighbor.value()) {
                queue.push_front(neighbor);
                proof {
                    lemma_fewer_left(all, visited_before, neighbor.0);
                    assert(all.difference(visited0).finite());
                    assert(all.difference(visited_before).subset_of(all.difference(visited0)));
                    vstd::set_lib::lemma_len_subset(
                        all.difference(visited_before),
                        all.difference(visited0),
                    );
                    assert(queue@[0] == neighbor);
                    assert forall|i: int| 0 <= i < queue@.len() implies reaches(
                        edges,
                        root.0,
                        (#[trigger] queue@[i]).0,
                    ) by {
                        if i > 0 {
                            assert(queue@[i] == queue_before[i - 1]);
                        }
                    }
                    assert forall|v: u32| #[trigger] visited@.contains(v) implies history@.contains(
                        v,
                    ) || queue@.contains(Vertex(v)) by {
                        if v == neighbor.0 {
                            assert(queue@[0] == Vertex(v));
                        } else if !history@.contains(v) {
                            let i = choose|i: int|
                                0 <= i < queue_before.len() && queue_before[i] == Vertex(v);
                            assert(queue@[i + 1] == Vertex(v));
                        }
                    }
                    if !history@.contains(root.0) {
                        let i = choose|i: int| 0 <= i < queue_before.len() && queue_before[i] == root;
                        assert(queue@[i + 1] == root);
                    }
                }
            } else {
                proof {
                    assert(visited@ =~= visited_before);
                }
            }
        }
        proof {
            fuel = (fuel - 1) as nat;
        }
        proof {
            assert forall|i: int, b: u32|
                0 <= i < history@.len() && #[trigger] linked(edges, history@[i], b) implies visited@.contains(
                b,
            ) by {
                if i < history0.len() {
                    assert(history@[i] == history0[i]);
                    assert(visited0.contains(b));
                } else {
                    assert(next@.contains(Vertex(b)));
                    let j = choose|j: int| 0 <= j < next@.len() && next@[j] == Vertex(b);
                    assert(visited@.contains(next@[j].0));
                }
            }
            assert forall|i: int| 0 <= i < history@.len() implies reaches(
                edges,
                root.0,
                #[trigger] history@[i],
            ) && history@[i] != objective.0 by {
                if i < history0.len() {
                    assert(history@[i] == history0[i]);
                }
            }
        }
    }
    None
}

} // verus!
