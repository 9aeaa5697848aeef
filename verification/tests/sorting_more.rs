use rust_algorithm::sorting::bubble_sort::{bubble_sort, bubble_sort_without_flag};
use rust_algorithm::sorting::bucket_sort::bucket_sort;
use rust_algorithm::sorting::cocktail_shaker_sort::cocktail_shaker_sort;
use rust_algorithm::sorting::comb_sort::comb_sort;
use rust_algorithm::sorting::counting_sort::{counting_sort, generic_counting_sort, is_sorted};
use rust_algorithm::sorting::gnome_sort::gnome_sort;
use rust_algorithm::sorting::heap_sort::heap_sort;
use rust_algorithm::sorting::merge_sort::merge_sort;
use rust_algorithm::sorting::odd_even_sort::odd_even_sort;
use rust_algorithm::sorting::quick_sort::{partition, partition_random, quick_sort};
use rust_algorithm::sorting::radix_sort::radix_sort;
use rust_algorithm::sorting::selection_sort::selection_sort;
use rust_algorithm::sorting::shell_sort::shell_sort;
use rust_algorithm::sorting::stooge_sort::stooge_sort;
use rust_algorithm::sorting::tim_sort::{find_min_run, insert_sort, merge, tim_sort};

/// Numbers without any order to them, with repeats.
fn scrambled(len: usize) -> Vec<u64> {
  let mut state: u64 = 0x2545_f491_4f6c_dd1d;
  let mut out = Vec::with_capacity(len);
  for _ in 0..len {
    state ^= state << 13;
    state ^= state >> 7;
    state ^= state << 17;
    out.push(state % 97);
  }
  out
}

fn in_order(len: usize) -> Vec<u64> {
  let mut expected = scrambled(len);
  expected.sort();
  expected
}

#[test]
fn every_generic_sort_orders_scrambled_input() {
  for len in [0usize, 1, 2, 3, 7, 64, 65, 130] {
    let expected = in_order(len);
    let mut v = scrambled(len);
    bubble_sort(&mut v);
    assert_eq!(v, expected);
    let mut v = scrambled(len);
    bubble_sort_without_flag(&mut v);
    assert_eq!(v, expected);
    let mut v = scrambled(len);
    cocktail_shaker_sort(&mut v);
    assert_eq!(v, expected);
    let mut v = scrambled(len);
    comb_sort(&mut v);
    assert_eq!(v, expected);
    assert_eq!(gnome_sort(&scrambled(len)), expected);
    let mut v = scrambled(len);
    heap_sort(&mut v);
    assert_eq!(v, expected);
    let mut v = scrambled(len);
    merge_sort(&mut v);
    assert_eq!(v, expected);
    let mut v = scrambled(len);
    odd_even_sort(&mut v);
    assert_eq!(v, expected);
    let mut v = scrambled(len);
    quick_sort(&mut v);
    assert_eq!(v, expected);
    let mut v = scrambled(len);
    selection_sort(&mut v);
    assert_eq!(v, expected);
    let mut v = scrambled(len);
    shell_sort(&mut v);
    assert_eq!(v, expected);
    let mut v = scrambled(len);
    tim_sort(&mut v);
    assert_eq!(v, expected);
    let mut v = scrambled(len);
    radix_sort(&mut v);
    assert_eq!(v, expected);
  }
}

#[test]
fn stooge_sort_orders_scrambled_input() {
  for len in [0usize, 1, 2, 3, 4, 5, 11, 30] {
    let mut v = scrambled(len);
    stooge_sort(&mut v);
    assert_eq!(v, in_order(len));
  }
}

#[test]
fn comb_sort_takes_an_empty_slice() {
  let mut v: Vec<i32> = vec![];
  comb_sort(&mut v);
  assert_eq!(v, Vec::<i32>::new());
}

#[test]
fn radix_sort_of_one_element_and_of_large_numbers() {
  let mut one = vec![5u64];
  radix_sort(&mut one);
  assert_eq!(one, vec![5]);
  let mut large = vec![u64::MAX, 0, u64::MAX - 1, 1 << 40, 7, 1 << 63];
  radix_sort(&mut large);
  assert_eq!(large, vec![0, 7, 1 << 40, 1 << 63, u64::MAX - 1, u64::MAX]);
}

#[test]
fn bucket_sort_gives_the_sorted_elements() {
  assert_eq!(bucket_sort(&[35, 53, 1, 0]), vec![0, 1, 35, 53]);
  assert_eq!(bucket_sort(&[0, 0, 0]), vec![0, 0, 0]);
  assert_eq!(bucket_sort(&[usize::MAX, 3, usize::MAX / 2]), vec![3, usize::MAX / 2, usize::MAX]);
  assert_eq!(bucket_sort(&[542, 542, 542, 542]), vec![542, 542, 542, 542]);
}

#[test]
fn counting_sort_gives_the_sorted_elements() {
  let mut v: Vec<u32> = vec![6, 5, 4, 3, 2, 1, 6, 0, 3];
  counting_sort(&mut v, 6);
  assert_eq!(v, vec![0, 1, 2, 3, 3, 4, 5, 6, 6]);
  let mut bytes: Vec<u8> = vec![255, 0, 17, 255, 3];
  generic_counting_sort(&mut bytes, 255);
  assert_eq!(bytes, vec![0, 3, 17, 255, 255]);
  let mut empty: Vec<u16> = vec![];
  generic_counting_sort(&mut empty, 0);
  assert_eq!(empty, Vec::<u16>::new());
}

#[test]
fn is_sorted_tells_order_from_disorder() {
  assert!(is_sorted::<i32>(&[]));
  assert!(is_sorted(&[1]));
  assert!(is_sorted(&[1, 1, 2, 3]));
  assert!(!is_sorted(&[1, 3, 2]));
  assert!(!is_sorted(&["b", "a"]));
}

#[test]
fn find_min_run_at_the_edges() {
  assert_eq!(find_min_run(0), 0);
  assert_eq!(find_min_run(63), 63);
  assert_eq!(find_min_run(64), 32);
  assert_eq!(find_min_run(65), 33);
  assert_eq!(find_min_run(127), 64);
  assert_eq!(find_min_run(128), 32);
  assert_eq!(find_min_run(1000), 63);
}

#[test]
fn insert_sort_sorts_a_stretch_and_leaves_the_rest() {
  let mut v = vec![9, 5, 4, 3, 1, 0];
  insert_sort(&mut v, 1, 4);
  assert_eq!(v, vec![9, 1, 3, 4, 5, 0]);
  // a new smallest element has to go to the very front
  let mut v = vec![3, 2, 1];
  insert_sort(&mut v, 0, 2);
  assert_eq!(v, vec![1, 2, 3]);
  let mut v = vec![2, 1];
  insert_sort(&mut v, 1, 1);
  assert_eq!(v, vec![2, 1]);
}

#[test]
fn merge_joins_two_sorted_runs() {
  let mut v = vec![100, 1, 4, 9, 2, 3, 10, -5];
  merge(&mut v, 1, 3, 6);
  assert_eq!(v, vec![100, 1, 2, 3, 4, 9, 10, -5]);
  let mut v = vec![1, 2];
  merge(&mut v, 0, 1, 1);
  assert_eq!(v, vec![1, 2]);
}

#[test]
fn tim_sort_merges_many_runs() {
  let mut v: Vec<i64> = (0..1000).map(|i| (i * 7919) % 1009 - 500).collect();
  let mut expected = v.clone();
  expected.sort();
  tim_sort(&mut v);
  assert_eq!(v, expected);
}

fn split_holds(v: &[i32], lo: usize, p: usize, hi: usize) -> bool {
  lo <= p && p <= hi && (lo..p).all(|i| v[i] <= v[p]) && (p + 1..=hi).all(|i| v[p] <= v[i])
}

#[test]
fn partition_splits_around_the_first_element() {
  let mut v = vec![5, 9, 1, 7, 5, 3, 8];
  let p = partition(&mut v, 0, 6);
  assert_eq!(v[p], 5);
  assert!(split_holds(&v, 0, p, 6));
  let mut sorted = v.clone();
  sorted.sort();
  assert_eq!(sorted, vec![1, 3, 5, 5, 7, 8, 9]);
  let mut v = vec![4, 3, 2, 1];
  let p = partition(&mut v, 1, 2);
  assert_eq!(v[0], 4);
  assert_eq!(v[3], 1);
  assert!(split_holds(&v, 1, p, 2));
}

#[test]
fn partition_random_splits_around_one_of_the_elements() {
  for _ in 0..50 {
    let given = vec![5, 9, 1, 7, 5, 3, 8, 2];
    let mut v = given.clone();
    let p = partition_random(&mut v, 1, 6);
    assert_eq!(v[0], 5);
    assert_eq!(v[7], 2);
    assert!(split_holds(&v, 1, p, 6));
    let mut a = v.clone();
    a.sort();
    let mut b = given.clone();
    b.sort();
    assert_eq!(a, b);
  }
}

#[test]
fn sorts_keep_repeated_strings() {
  let words = vec!["b", "a", "c", "a", "b", "a"];
  let expected = vec!["a", "a", "a", "b", "b", "c"];
  let mut v = words.clone();
  heap_sort(&mut v);
  assert_eq!(v, expected);
  let mut v = words.clone();
  quick_sort(&mut v);
  assert_eq!(v, expected);
  let mut v = words.clone();
  merge_sort(&mut v);
  assert_eq!(v, expected);
  assert_eq!(gnome_sort(&words), expected);
}
