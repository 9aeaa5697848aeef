use rust_algorithm::sorting::counting_sort::{counting_sort, generic_counting_sort, is_sorted};

#[test]
fn counting_sort_descending() {
  let mut ve1 = vec![6, 5, 4, 3, 2, 1];
  counting_sort(&mut ve1, 6);
  assert!(is_sorted(&ve1));
}

#[test]
fn counting_sort_pre_sorted() {
  let mut ve2 = vec![1, 2, 3, 4, 5, 6];
  counting_sort(&mut ve2, 6);
  assert!(is_sorted(&ve2));
}

#[test]
fn presorted_u64_counting_sort() {
  let mut ve2: Vec<u64> = vec![1, 2, 3, 4, 5, 6];
  generic_counting_sort(&mut ve2, 6);
  assert!(is_sorted(&ve2));
}
