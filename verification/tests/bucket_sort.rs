use rust_algorithm::sorting::bucket_sort::bucket_sort;
use rust_algorithm::sorting::counting_sort::is_sorted;

#[test]
fn bucket_sort_empty() {
  let arr: [usize; 0] = [];
  let res = bucket_sort(&arr);
  assert!(is_sorted(&res));
}

#[test]
fn bucket_sort_one_element() {
  let arr: [usize; 1] = [4];
  let res = bucket_sort(&arr);
  assert!(is_sorted(&res));
}

#[test]
fn bucket_sort_already_sorted() {
  let arr: [usize; 3] = [10, 9, 105];
  let res = bucket_sort(&arr);
  assert!(is_sorted(&res));
}

#[test]
fn bucket_sort_basic() {
  let arr: [usize; 4] = [35, 53, 1, 0];
  let res = bucket_sort(&arr);
  assert!(is_sorted(&res));
}

#[test]
fn bucket_sort_odd_number_of_elements() {
  let arr: Vec<usize> = vec![1, 21, 5, 11, 58];
  let res = bucket_sort(&arr);
  assert!(is_sorted(&res));
}

#[test]
fn repeated_elements() {
  let arr: Vec<usize> = vec![542, 542, 542, 542];
  let res = bucket_sort(&arr);
  assert!(is_sorted(&res));
}
