use std::collections::BTreeMap;

use rust_algorithm::graph::bellman_ford::{add_edge, bellman_ford, Graph};

#[test]
fn bellman_ford_single_vertex() {
  let mut graph: Graph<isize, isize> = BTreeMap::new();
  graph.insert(0, BTreeMap::new());
  let mut dists = BTreeMap::new();
  dists.insert(0, None);
  assert_eq!(bellman_ford(&graph, &0), Some(dists));
}

#[test]
fn bellman_ford_single_edge() {
  let mut graph = BTreeMap::new();
  add_edge(&mut graph, 0, 1, 2);
  let mut dists_0 = BTreeMap::new();
  dists_0.insert(0, None);
  dists_0.insert(1, Some((0, 2)));
  assert_eq!(bellman_ford(&graph, &0), Some(dists_0));
  let mut dists_1 = BTreeMap::new();
  dists_1.insert(1, None);
  assert_eq!(bellman_ford(&graph, &1), Some(dists_1));
}

#[test]
fn bellman_ford_tree_1() {
  let mut graph = BTreeMap::new();
  let mut dists = BTreeMap::new();
  dists.insert(1, None);
  for i in 1..100 {
    add_edge(&mut graph, i, i * 2, i * 2);
    add_edge(&mut graph, i, i * 2 + 1, i * 2 + 1);
    match dists[&i] {
      Some((_, d)) => {
        dists.insert(i * 2, Some((i, d + i * 2)));
        dists.insert(i * 2 + 1, Some((i, d + i * 2 + 1)));
      }
      None => {
        dists.insert(i * 2, Some((i, i * 2)));
        dists.insert(i * 2 + 1, Some((i, i * 2 + 1)));
      }
    }
  }
  assert_eq!(bellman_ford(&graph, &1), Some(dists));
}

#[test]
fn bellman_ford_graph_1() {
  let mut graph = BTreeMap::new();
  add_edge(&mut graph, 'a', 'c', 12);
  add_edge(&mut graph, 'a', 'd', 60);
  add_edge(&mut graph, 'b', 'a', 10);
  add_edge(&mut graph, 'c', 'b', 20);
  add_edge(&mut graph, 'c', 'd', 32);
  add_edge(&mut graph, 'e', 'a', 7);
  let mut dists_a = BTreeMap::new();
  dists_a.insert('a', None);
  dists_a.insert('c', Some(('a', 12)));
  dists_a.insert('d', Some(('c', 44)));
  dists_a.insert('b', Some(('c', 32)));
  assert_eq!(bellman_ford(&graph, &'a'), Some(dists_a));
  let mut dists_b = BTreeMap::new();
  dists_b.insert('b', None);
  dists_b.insert('a', Some(('b', 10)));
  dists_b.insert('c', Some(('a', 22)));
  dists_b.insert('d', Some(('c', 54)));
  assert_eq!(bellman_ford(&graph, &'b'), Some(dists_b));
  let mut dists_c = BTreeMap::new();
  dists_c.insert('c', None);
  dists_c.insert('b', Some(('c', 20)));
  dists_c.insert('d', Some(('c', 32)));
  dists_c.insert('a', Some(('b', 30)));
  assert_eq!(bellman_ford(&graph, &'c'), Some(dists_c));
  let mut dists_d = BTreeMap::new();
  dists_d.insert('d', None);
  assert_eq!(bellman_ford(&graph, &'d'), Some(dists_d));
  let mut dists_e = BTreeMap::new();
  dists_e.insert('e', None);
  dists_e.insert('a', Some(('e', 7)));
  dists_e.insert('c', Some(('a', 19)));
  dists_e.insert('d', Some(('c', 51)));
  dists_e.insert('b', Some(('c', 39)));
  assert_eq!(bellman_ford(&graph, &'e'), Some(dists_e));
}

#[test]
fn graph_2() {
  let mut graph = BTreeMap::new();
  add_edge(&mut graph, 0, 1, 6);
  add_edge(&mut graph, 0, 3, 7);
  add_edge(&mut graph, 1, 2, 5);
  add_edge(&mut graph, 1, 3, 8);
  add_edge(&mut graph, 1, 4, -4);
  add_edge(&mut graph, 2, 1, -2);
  add_edge(&mut graph, 3, 2, -3);
  add_edge(&mut graph, 3, 4, 9);
  add_edge(&mut graph, 4, 0, 3);
  add_edge(&mut graph, 4, 2, 7);

  let mut dists_0 = BTreeMap::new();
  dists_0.insert(0, None);
  dists_0.insert(1, Some((2, 2)));
  dists_0.insert(2, Some((3, 4)));
  dists_0.insert(3, Some((0, 7)));
  dists_0.insert(4, Some((1, -2)));

  assert_eq!(bellman_ford(&graph, &0), Some(dists_0));

  let mut dists_1 = BTreeMap::new();
  dists_1.insert(0, Some((4, -1)));
  dists_1.insert(1, None);
  dists_1.insert(2, Some((4, 3)));
  dists_1.insert(3, Some((0, 6)));
  dists_1.insert(4, Some((1, -4)));

  assert_eq!(bellman_ford(&graph, &1), Some(dists_1));

  let mut dists_2 = BTreeMap::new();
  dists_2.insert(0, Some((4, -3)));
  dists_2.insert(1, Some((2, -2)));
  dists_2.insert(2, None);
  dists_2.insert(3, Some((0, 4)));
  dists_2.insert(4, Some((1, -6)));

  assert_eq!(bellman_ford(&graph, &2), Some(dists_2));

  let mut dists_3 = BTreeMap::new();
  dists_3.insert(0, Some((4, -6)));
  dists_3.insert(1, Some((2, -5)));
  dists_3.insert(2, Some((3, -3)));
  dists_3.insert(3, None);
  dists_3.insert(4, Some((1, -9)));

  assert_eq!(bellman_ford(&graph, &3), Some(dists_3));

  let mut dists_4 = BTreeMap::new();
  dists_4.insert(0, Some((4, 3)));
  dists_4.insert(1, Some((2, 5)));
  dists_4.insert(2, Some((4, 7)));
  dists_4.insert(3, Some((0, 10)));
  dists_4.insert(4, None);

  assert_eq!(bellman_ford(&graph, &4), Some(dists_4));
}

#[test]
fn graph_with_negative_loop() {
  let mut graph = BTreeMap::new();
  add_edge(&mut graph, 0, 1, 6);
  add_edge(&mut graph, 0, 3, 7);
  add_edge(&mut graph, 1, 2, 5);
  add_edge(&mut graph, 1, 3, 8);
  add_edge(&mut graph, 1, 4, -4);
  add_edge(&mut graph, 2, 1, -4);
  add_edge(&mut graph, 3, 2, -3);
  add_edge(&mut graph, 3, 4, 9);
  add_edge(&mut graph, 4, 0, 3);
  add_edge(&mut graph, 4, 2, 7);

  assert_eq!(bellman_ford(&graph, &0), None);
  assert_eq!(bellman_ford(&graph, &1), None);
  assert_eq!(bellman_ford(&graph, &2), None);
  assert_eq!(bellman_ford(&graph, &3), None);
  assert_eq!(bellman_ford(&graph, &4), None);
}

#[test]
fn bellman_ford_empty_graph_isolated_source() {
  let graph: Graph<i32, i32> = BTreeMap::new();
  let mut dists = BTreeMap::new();
  dists.insert(7, None);
  assert_eq!(bellman_ford(&graph, &7), Some(dists));
}

#[test]
fn bellman_ford_source_outside_graph() {
  let mut graph = BTreeMap::new();
  add_edge(&mut graph, 1, 2, 5);
  let mut dists = BTreeMap::new();
  dists.insert(9, None);
  assert_eq!(bellman_ford(&graph, &9), Some(dists));
}

#[test]
fn bellman_ford_negative_self_loop_single_node() {
  let mut graph = BTreeMap::new();
  add_edge(&mut graph, 'A', 'A', -1);
  assert_eq!(graph.len(), 1);
  assert_eq!(bellman_ford(&graph, &'A'), None);
}

#[test]
fn bellman_ford_non_negative_self_loop() {
  let mut graph = BTreeMap::new();
  add_edge(&mut graph, 'A', 'A', 0);
  let mut dists = BTreeMap::new();
  dists.insert('A', None);
  assert_eq!(bellman_ford(&graph, &'A'), Some(dists.clone()));
  let mut graph = BTreeMap::new();
  add_edge(&mut graph, 'A', 'A', 3);
  assert_eq!(bellman_ford(&graph, &'A'), Some(dists));
}

#[test]
fn bellman_ford_negative_self_loop_on_reached_vertex() {
  let mut graph = BTreeMap::new();
  add_edge(&mut graph, 1, 2, 4);
  add_edge(&mut graph, 2, 2, -3);
  add_edge(&mut graph, 2, 3, 1);
  assert_eq!(bellman_ford(&graph, &1), None);
  assert_eq!(bellman_ford(&graph, &2), None);
  let mut dists = BTreeMap::new();
  dists.insert(3, None);
  assert_eq!(bellman_ford(&graph, &3), Some(dists));
}

#[test]
fn bellman_ford_negative_cycle_through_source_with_positive_return() {
  // 0 -> 1 weighs -5 and 1 -> 0 weighs 2: the cycle sums to -3.
  let mut graph = BTreeMap::new();
  add_edge(&mut graph, 0, 1, -5);
  add_edge(&mut graph, 1, 0, 2);
  assert_eq!(bellman_ford(&graph, &0), None);
  assert_eq!(bellman_ford(&graph, &1), None);
}

#[test]
fn bellman_ford_unreachable_negative_cycle_is_ignored() {
  let mut graph = BTreeMap::new();
  add_edge(&mut graph, 0, 1, 3);
  add_edge(&mut graph, 1, 2, 4);
  // a negative cycle that leads into the rest but cannot be reached from 0
  add_edge(&mut graph, 10, 11, -2);
  add_edge(&mut graph, 11, 10, 1);
  add_edge(&mut graph, 11, 0, 1);
  let mut dists = BTreeMap::new();
  dists.insert(0, None);
  dists.insert(1, Some((0, 3)));
  dists.insert(2, Some((1, 7)));
  assert_eq!(bellman_ford(&graph, &0), Some(dists));
  assert_eq!(bellman_ford(&graph, &10), None);
  assert_eq!(bellman_ford(&graph, &11), None);
}

#[test]
fn bellman_ford_twice_gives_the_same() {
  let mut graph = BTreeMap::new();
  add_edge(&mut graph, 0, 1, 6);
  add_edge(&mut graph, 0, 3, 7);
  add_edge(&mut graph, 1, 2, 5);
  add_edge(&mut graph, 3, 2, 4);
  add_edge(&mut graph, 2, 0, 1);
  let before = graph.clone();
  let first = bellman_ford(&graph, &0);
  let second = bellman_ford(&graph, &0);
  assert_eq!(first, second);
  assert_eq!(graph, before);
}

#[test]
fn bellman_ford_tie_keeps_first_found() {
  // two ways to 3 of weight 2: over 1 (found first) and over 2
  let mut graph = BTreeMap::new();
  add_edge(&mut graph, 0, 1, 1);
  add_edge(&mut graph, 0, 2, 1);
  add_edge(&mut graph, 1, 3, 1);
  add_edge(&mut graph, 2, 3, 1);
  let paths = bellman_ford(&graph, &0).unwrap();
  assert_eq!(paths[&3], Some((1, 2)));
}

fn all_walk_minimum(graph: &Graph<u8, i64>, from: u8, to: u8, max_edges: usize) -> Option<i64> {
  // least weight over all walks of at most `max_edges` edges
  let mut best: Option<i64> = if from == to { Some(0) } else { None };
  let mut frontier: Vec<(u8, i64)> = vec![(from, 0)];
  for _ in 0..max_edges {
    let mut next = Vec::new();
    for (u, d) in frontier {
      if let Some(edges) = graph.get(&u) {
        for (v, w) in edges {
          next.push((*v, d + *w));
          if *v == to && best.map_or(true, |b| d + *w < b) {
            best = Some(d + *w);
          }
        }
      }
    }
    frontier = next;
  }
  best
}

#[test]
fn bellman_ford_distance_is_minimum_over_all_paths() {
  let mut graph: Graph<u8, i64> = BTreeMap::new();
  add_edge(&mut graph, 0, 1, 4);
  add_edge(&mut graph, 0, 2, 1);
  add_edge(&mut graph, 2, 1, 2);
  add_edge(&mut graph, 1, 3, 1);
  add_edge(&mut graph, 2, 3, 5);
  add_edge(&mut graph, 3, 4, -2);
  add_edge(&mut graph, 0, 4, 3);
  let paths = bellman_ford(&graph, &0).unwrap();
  for v in 0u8..5 {
    let expected = all_walk_minimum(&graph, 0, v, 4);
    match paths.get(&v) {
      Some(None) => assert_eq!(expected, Some(0)),
      Some(Some((_, d))) => assert_eq!(expected, Some(*d)),
      None => assert_eq!(expected, None),
    }
  }
  assert_eq!(paths[&1], Some((2, 3)));
  assert_eq!(paths[&3], Some((1, 4)));
  assert_eq!(paths[&4], Some((3, 2)));
}

#[test]
fn add_edge_overwrites_and_adds_both_ends() {
  let mut graph: Graph<i32, i32> = BTreeMap::new();
  add_edge(&mut graph, 1, 2, 10);
  assert!(graph.contains_key(&1));
  assert!(graph.contains_key(&2));
  assert!(graph[&2].is_empty());
  add_edge(&mut graph, 1, 2, 3);
  assert_eq!(graph[&1].len(), 1);
  assert_eq!(graph[&1][&2], 3);
  add_edge(&mut graph, 2, 1, 4);
  assert_eq!(graph[&2][&1], 4);
  assert_eq!(graph[&1][&2], 3);
  assert_eq!(graph.len(), 2);
}
