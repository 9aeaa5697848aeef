use rust_algorithm::sorting::tim_sort::{find_min_run, insert_sort, tim_sort};

#[test]
fn cal_min() {
  let n = 189;
  let min_run = find_min_run(n);

  assert_eq!(48, min_run);
  assert_eq!(61, find_min_run(976));
}

#[test]
fn insert_test() {
  let mut vec = vec![7, 49, 73, 58, 30, 72, 44, 78, 23, 9];

  insert_sort(&mut vec, 0, 9);

  assert_eq!(vec![7, 9, 23, 30, 44, 49, 58, 72, 73, 78], vec)
}

#[test]
fn tim_test() {
  let mut vec = vec![7, 49, 73, 58, 30, 72, 44, 78, 23, 9];

  tim_sort(&mut vec);

  assert_eq!(vec, vec![7, 9, 23, 30, 44, 49, 58, 72, 73, 78]);
}
