use rust_algorithm::string::manacher::manacher;

#[test]
fn get_longest_palindrome_by_manacher() {
  assert_eq!(manacher("babad".to_string()), "aba".to_string());
  assert_eq!(manacher("cbbd".to_string()), "bb".to_string());
  assert_eq!(manacher("a".to_string()), "a".to_string());

  let ac_ans = manacher("ac".to_string());

  assert!(ac_ans == "a".to_string() || ac_ans == "c".to_string());
}
