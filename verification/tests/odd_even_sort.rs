use rust_algorithm::sorting::odd_even_sort::odd_even_sort;

#[test]
fn odd_even_sort_basic() {
  let mut arr = vec![3, 5, 1, 2, 4, 6];
  odd_even_sort(&mut arr);
  assert_eq!(arr, vec![1, 2, 3, 4, 5, 6]);
}

#[test]
fn odd_even_sort_empty() {
  let mut arr = Vec::<i32>::new();
  odd_even_sort(&mut arr);
  assert_eq!(arr, vec![]);
}

#[test]
fn odd_even_sort_one_element() {
  let mut arr = vec![3];
  odd_even_sort(&mut arr);
  assert_eq!(arr, vec![3]);
}

#[test]
fn odd_even_sort_pre_sorted() {
  let mut arr = vec![0, 1, 2, 3, 4, 5, 6, 7, 8, 9];
  odd_even_sort(&mut arr);
  assert_eq!(arr, vec![0, 1, 2, 3, 4, 5, 6, 7, 8, 9]);
}
