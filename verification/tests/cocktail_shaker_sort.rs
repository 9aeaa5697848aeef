use rust_algorithm::sorting::cocktail_shaker_sort::cocktail_shaker_sort;

#[test]
fn cocktail_shaker_sort_basic() {
  let mut arr = vec![5, 2, 1, 3, 4, 6];
  cocktail_shaker_sort(&mut arr);
  assert_eq!(arr, vec![1, 2, 3, 4, 5, 6]);
}

#[test]
fn cocktail_shaker_sort_empty() {
  let mut arr = Vec::<i32>::new();
  cocktail_shaker_sort(&mut arr);
  assert_eq!(arr, vec![]);
}

#[test]
fn cocktail_shaker_sort_one_element() {
  let mut arr = vec![1];
  cocktail_shaker_sort(&mut arr);
  assert_eq!(arr, vec![1]);
}

#[test]
fn cocktail_shaker_sort_pre_sorted() {
  let mut arr = vec![1, 2, 3, 4, 5, 6];
  cocktail_shaker_sort(&mut arr);
  assert_eq!(arr, vec![1, 2, 3, 4, 5, 6]);
}
