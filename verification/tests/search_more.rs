use rust_algorithm::search::binary_search::binary_search;
use rust_algorithm::search::binary_search_rec::binary_search_rec;
use rust_algorithm::search::kth_smallest::kth_smallest;
use rust_algorithm::search::linear_search::linear_search;

#[test]
fn linear_search_gives_the_first_of_several() {
  assert_eq!(linear_search(&2, &[1, 2, 3, 2, 2]), Some(1));
  assert_eq!(linear_search(&"x", &["y", "z"]), None);
}

#[test]
fn binary_search_agrees_with_the_recursive_one() {
  let v = vec![1, 3, 3, 5, 8, 13, 21];
  for target in 0..25 {
    let found = binary_search(&target, &v);
    assert_eq!(found, binary_search_rec(&v, &target, &0, &v.len()));
    match found {
      Some(i) => assert_eq!(v[i], target),
      None => assert!(!v.contains(&target)),
    }
  }
}

#[test]
fn binary_search_rec_only_looks_inside_the_interval() {
  let v = vec![1, 2, 3, 4, 5, 6];
  assert_eq!(binary_search_rec(&v, &1, &1, &6), None);
  assert_eq!(binary_search_rec(&v, &6, &0, &5), None);
  assert_eq!(binary_search_rec(&v, &4, &2, &5), Some(3));
  assert_eq!(binary_search_rec(&v, &4, &4, &2), None);
}

#[test]
fn kth_smallest_with_repeats() {
  let given = [4, 2, 2, 9, 4, 4, 1];
  let mut sorted = given;
  sorted.sort();
  for k in 1..=given.len() {
    let mut v = given;
    assert_eq!(kth_smallest(&mut v, k), Some(sorted[k - 1]));
    assert_eq!(v[k - 1], sorted[k - 1]);
    assert!(v[..k - 1].iter().all(|x| *x <= v[k - 1]));
    assert!(v[k..].iter().all(|x| v[k - 1] <= *x));
  }
}
