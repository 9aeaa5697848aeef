use rust_algorithm::string::burrows_wheeler_transform::{
  burrows_wheeler_transform, inv_burrows_wheeler_transform,
};
use rust_algorithm::string::knuth_morris_pratt::knuth_morris_pratt;
use rust_algorithm::string::manacher::manacher;
use rust_algorithm::string::rabin_karp::{hash, rabin_karp};
use rust_algorithm::string::reverse::reverse;

#[test]
fn reverse_turns_the_characters_around() {
  assert_eq!(reverse(""), "");
  assert_eq!(reverse("abc"), "cba");
  assert_eq!(reverse("añb"), "bña");
}

#[test]
fn hash_follows_its_formula() {
  // one byte: the byte itself modulo 101
  assert_eq!(hash("a".to_string()), 97);
  assert_eq!(hash("z".to_string()), 122 - 101);
  // ((104 * 256) % 101 + 105) % 101
  assert_eq!(hash("hi".to_string()), 65);
}

#[test]
fn both_searches_find_the_same_matches() {
  let texts = ["", "a", "aaaa", "abcabcabc", "mississippi", "ababababab", "xyz", "añañaña"];
  let patterns = ["", "a", "aa", "abc", "ssi", "abab", "issip", "zz", "ña", "mississippii"];
  for text in texts {
    for pattern in patterns {
      let found = knuth_morris_pratt(text.to_string(), pattern.to_string());
      assert_eq!(found, rabin_karp(text.to_string(), pattern.to_string()));
      let expected: Vec<usize> = if text.is_empty() || pattern.is_empty() {
        vec![]
      } else {
        (0..text.len())
          .filter(|i| text.as_bytes()[*i..].starts_with(pattern.as_bytes()))
          .collect()
      };
      assert_eq!(found, expected);
    }
  }
}

#[test]
fn manacher_finds_the_longest_palindrome_that_starts_last() {
  assert_eq!(manacher("".to_string()), "");
  assert_eq!(manacher("ac".to_string()), "c");
  assert_eq!(manacher("abba".to_string()), "abba");
  assert_eq!(manacher("xabbay".to_string()), "abba");
  assert_eq!(manacher("abacdc".to_string()), "cdc");
  assert_eq!(manacher("a#a".to_string()), "a#a");
  assert_eq!(manacher("añña".to_string()), "añña");
}

#[test]
fn burrows_wheeler_transform_of_known_strings() {
  assert_eq!(burrows_wheeler_transform("".to_string()), ("".to_string(), 0));
  assert_eq!(burrows_wheeler_transform("banana".to_string()), ("nnbaaa".to_string(), 3));
  assert_eq!(burrows_wheeler_transform("abab".to_string()), ("bbaa".to_string(), 1));
  assert_eq!(burrows_wheeler_transform("aB".to_string()), ("Ba".to_string(), 0));
}

#[test]
fn inv_burrows_wheeler_transform_walks_the_sorted_table() {
  assert_eq!(inv_burrows_wheeler_transform(("nnbaaa".to_string(), 3)), "banana");
  assert_eq!(inv_burrows_wheeler_transform(("".to_string(), 0)), "");
  assert_eq!(inv_burrows_wheeler_transform(("Ba".to_string(), 0)), "BB");
}
