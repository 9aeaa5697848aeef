use rust_algorithm::graph::depth_first_search::{depth_first_search, Graph};

fn gen_graph(edges: Vec<(u32, u32)>, root: u32, objective: u32) -> Graph {
  let vertices = vec![1, 2, 3, 4, 5, 6, 7];
  let edges = edges;
  let _root = root;
  let _objective = objective;

  let graph = Graph::new(
    vertices.into_iter().map(|v: u32| v.into()).collect(),
    edges.into_iter().map(|e| e.into()).collect(),
  );

  return graph;
}

#[test]
fn find_1_fail() {
  let edges = vec![(1, 2), (1, 3), (2, 4), (2, 5), (3, 6), (3, 7)];
  let root = 1;
  let objective = 99;
  let graph = gen_graph(edges, root, objective);
  assert_eq!(
    depth_first_search(&graph, root.into(), objective.into()),
    None
  );
}

#[test]
fn find_1_sucess() {
  let edges = vec![(1, 2), (1, 3), (2, 4), (2, 5), (3, 6), (3, 7)];
  let root = 1;
  let objective = 7;
  let correct_path = vec![1, 2, 4, 5, 3, 6, 7];
  let graph = gen_graph(edges, root, objective);
  assert_eq!(
    depth_first_search(&graph, root.into(), objective.into()),
    Some(correct_path)
  );
}

#[test]
fn find_2_sucess() {
  let edges = vec![
    (0, 1),
    (1, 3),
    (3, 2),
    (2, 1),
    (3, 4),
    (4, 5),
    (5, 7),
    (7, 6),
    (6, 4),
  ];
  let root = 0;
  let objective = 6;
  let correct_path = vec![0, 1, 3, 2, 4, 5, 7, 6];
  let graph = gen_graph(edges, root, objective);
  assert_eq!(
    depth_first_search(&graph, root.into(), objective.into()),
    Some(correct_path)
  );
}

#[test]
fn find_3_sucess() {
  let edges = vec![
    (0, 1),
    (1, 3),
    (3, 2),
    (2, 1),
    (3, 4),
    (4, 5),
    (5, 7),
    (7, 6),
    (6, 4),
  ];
  let root = 0;
  let objective = 4;
  let correct_path = vec![0, 1, 3, 2, 4];
  let graph = gen_graph(edges, root, objective);
  assert_eq!(
    depth_first_search(&graph, root.into(), objective.into()),
    Some(correct_path)
  );
}
