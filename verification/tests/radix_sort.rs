use rust_algorithm::sorting::counting_sort::is_sorted;
use rust_algorithm::sorting::radix_sort::radix_sort;

#[test]
fn radix_sort_empty() {
  let mut a: [u64; 0] = [];
  radix_sort(&mut a);
  assert!(is_sorted(&a));
}

#[test]
fn radix_sort_descending() {
  let mut v = vec![201, 127, 64, 37, 24, 4, 1];
  radix_sort(&mut v);
  assert!(is_sorted(&v));
}

#[test]
fn radix_sort_ascending() {
  let mut v = vec![1, 4, 24, 37, 64, 127, 201];
  radix_sort(&mut v);
  assert!(is_sorted(&v));
}
