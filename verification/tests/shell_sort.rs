use rust_algorithm::sorting::shell_sort::shell_sort;

#[test]
fn shell_sort_basic() {
  let mut vec = vec![3, 5, 6, 3, 1, 4];

  shell_sort(&mut vec);

  for i in 0..vec.len() - 1 {
    assert!(vec[i] <= vec[i + 1]);
  }
}

#[test]
fn shell_sort_empty() {
  let mut vec: Vec<i32> = vec![];

  shell_sort(&mut vec);

  assert_eq!(vec, vec![]);
}

#[test]
fn shell_sort_reverse() {
  let mut vec = vec![6, 5, 4, 3, 2, 1];

  shell_sort(&mut vec);

  for i in 0..vec.len() - 1 {
    assert!(vec[i] <= vec[i + 1]);
  }
}

#[test]
fn shell_sort_already_sorted() {
  let mut vec = vec![1, 2, 3, 4, 5, 6];

  shell_sort(&mut vec);

  for i in 0..vec.len() - 1 {
    assert!(vec[i] <= vec[i + 1]);
  }
}
