use rust_algorithm::string::rabin_karp::{hash, rabin_karp};

#[test]
fn hi_hash() {
    let hash_result = hash("hi".to_string());

    assert_eq!(hash_result, 65);
}

#[test]
fn abr_hash() {
    let hash_result = hash("abr".to_string());

    assert_eq!(hash_result, 4);
}

#[test]
fn bra_hash() {
    let hash_result = hash("bra".to_string());

    assert_eq!(hash_result, 30);
}

#[test]
fn rabin_karp_each_letter_matches() {
    let index = rabin_karp("aaa".to_string(), "a".to_string());

    assert_eq!(index, vec![0, 1, 2]);
}

#[test]
fn rabin_karp_a_few_separate_matches() {
    let index = rabin_karp("abababa".to_string(), "ab".to_string());

    assert_eq!(index, vec![0, 2, 4]);
}

#[test]
fn rabin_karp_one_match() {
    let index = rabin_karp("ABC ABCDAB ABCDABCDABDE".to_string(), "ABCDABD".to_string());

    assert_eq!(index, vec![15]);
}

#[test]
fn rabin_karp_lots_of_matches() {
    let index = rabin_karp("aaabaabaaaaa".to_string(), "aa".to_string());

    assert_eq!(index, vec![0, 1, 4, 7, 8, 9, 10]);
}

#[test]
fn rabin_karp_lots_of_intricate_matches() {
    let index = rabin_karp("ababababa".to_string(), "aba".to_string());

    assert_eq!(index, vec![0, 2, 4, 6]);
}

#[test]
fn rabin_karp_not_found0() {
    let index = rabin_karp("abcde".to_string(), "f".to_string());

    assert_eq!(index, vec![]);
}

#[test]
fn rabin_karp_not_found1() {
    let index = rabin_karp("abcde".to_string(), "ac".to_string());

    assert_eq!(index, vec![]);
}

#[test]
fn rabin_karp_not_found2() {
    let index = rabin_karp("ababab".to_string(), "bababa".to_string());

    assert_eq!(index, vec![]);
}

#[test]
fn rabin_karp_empty_string() {
    let index = rabin_karp("".to_string(), "abcdef".to_string());

    assert_eq!(index, vec![]);
}
