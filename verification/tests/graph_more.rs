use std::collections::BTreeMap;

use rust_algorithm::graph::bellman_ford::{add_edge, bellman_ford, Graph};
use rust_algorithm::graph::depth_first_search::{depth_first_search, Edge, Vertex};
use rust_algorithm::graph::depth_first_search::Graph as SearchGraph;
use rust_algorithm::graph::dijkstra::dijkstra;
use rust_algorithm::graph::weight::Weight;

#[test]
fn dijkstra_agrees_with_bellman_ford_without_negative_weights() {
  let mut graph: Graph<u32, i64> = BTreeMap::new();
  let mut state: u64 = 88172645463325252;
  for _ in 0..60 {
    state ^= state << 13;
    state ^= state >> 7;
    state ^= state << 17;
    let from = (state % 12) as u32;
    let to = ((state >> 8) % 12) as u32;
    let weight = ((state >> 16) % 50) as i64;
    add_edge(&mut graph, from, to, weight);
  }
  add_edge(&mut graph, 20, 21, 1);
  for source in graph.keys() {
    let slow = bellman_ford(&graph, source).unwrap();
    let fast = dijkstra(&graph, source);
    assert_eq!(slow.keys().collect::<Vec<_>>(), fast.keys().collect::<Vec<_>>());
    for (v, record) in &slow {
      assert_eq!(record.map(|r| r.1), fast[v].map(|r| r.1));
    }
    assert_eq!(fast[source], None);
  }
}

#[test]
fn dijkstra_keeps_the_source_without_predecessor() {
  let mut graph: Graph<i32, u32> = BTreeMap::new();
  add_edge(&mut graph, 0, 0, 5);
  add_edge(&mut graph, 0, 1, 2);
  add_edge(&mut graph, 1, 0, 0);
  add_edge(&mut graph, 1, 2, 0);
  add_edge(&mut graph, 3, 0, 1);
  let mut dists = BTreeMap::new();
  dists.insert(0, None);
  dists.insert(1, Some((0, 2)));
  dists.insert(2, Some((1, 2)));
  assert_eq!(dijkstra(&graph, &0), dists);
}

#[test]
fn dijkstra_takes_the_way_that_is_shorter_over_more_edges() {
  let mut graph = BTreeMap::new();
  add_edge(&mut graph, 'a', 'b', 10);
  add_edge(&mut graph, 'a', 'c', 1);
  add_edge(&mut graph, 'c', 'd', 1);
  add_edge(&mut graph, 'd', 'b', 1);
  let paths = dijkstra(&graph, &'a');
  assert_eq!(paths[&'b'], Some(('d', 3)));
  assert_eq!(bellman_ford(&graph, &'a'), Some(paths));
}

#[test]
fn weights_add_and_compare_as_integers() {
  assert_eq!(5i32.plus(-7), -2);
  assert!((-3i64).below(2));
  assert!(!2u8.below(2));
  assert!((-1isize).negative());
  assert!(!0i16.negative());
  assert!(!7usize.negative());
  assert_eq!(200u8.plus(55), 255);
}

fn search_graph(edges: &[(u32, u32)]) -> SearchGraph {
  SearchGraph::new(
    vec![Vertex::from(0)],
    edges.iter().map(|e| Edge::from(*e)).collect(),
  )
}

#[test]
fn depth_first_search_finds_the_root_at_once() {
  let graph = search_graph(&[(1, 2), (2, 1)]);
  assert_eq!(depth_first_search(&graph, 1.into(), 1.into()), Some(vec![1]));
}

#[test]
fn depth_first_search_ends_on_a_cycle_without_the_objective() {
  let graph = search_graph(&[(1, 2), (2, 3), (3, 1), (3, 2), (4, 5)]);
  assert_eq!(depth_first_search(&graph, 1.into(), 5.into()), None);
  assert_eq!(depth_first_search(&graph, 1.into(), 3.into()), Some(vec![1, 2, 3]));
  assert_eq!(depth_first_search(&graph, 4.into(), 5.into()), Some(vec![4, 5]));
}

#[test]
fn vertex_knows_its_value_and_neighbors() {
  let graph = search_graph(&[(1, 2), (3, 1), (1, 4), (1, 2)]);
  let one = Vertex::from(1);
  assert_eq!(one.value(), 1);
  let values: Vec<u32> = one.neighbors(&graph).iter().map(|v| v.value()).collect();
  assert_eq!(values, vec![2, 4, 2]);
  assert!(Vertex::from(9).neighbors(&graph).is_empty());
}
