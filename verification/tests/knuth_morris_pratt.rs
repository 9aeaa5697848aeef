use rust_algorithm::string::knuth_morris_pratt::knuth_morris_pratt;

#[test]
fn knuth_morris_pratt_each_letter_matches() {
    let index = knuth_morris_pratt("aaa".to_string(), "a".to_string());

    assert_eq!(index, vec![0, 1, 2]);
}

#[test]
fn knuth_morris_pratt_a_few_separate_matches() {
    let index = knuth_morris_pratt("abababa".to_string(), "ab".to_string());

    assert_eq!(index, vec![0, 2, 4]);
}

#[test]
fn knuth_morris_pratt_one_match() {
    let index =
        knuth_morris_pratt("ABC ABCDAB ABCDABCDABDE".to_string(), "ABCDABD".to_string());

    assert_eq!(index, vec![15]);
}

#[test]
fn knuth_morris_pratt_lots_of_matches() {
    let index = knuth_morris_pratt("aaabaabaaaaa".to_string(), "aa".to_string());

    assert_eq!(index, vec![0, 1, 4, 7, 8, 9, 10]);
}

#[test]
fn knuth_morris_pratt_lots_of_intricate_matches() {
    let index = knuth_morris_pratt("ababababa".to_string(), "aba".to_string());

    assert_eq!(index, vec![0, 2, 4, 6]);
}

#[test]
fn knuth_morris_pratt_not_found0() {
    let index = knuth_morris_pratt("abcde".to_string(), "f".to_string());

    assert_eq!(index, vec![]);
}

#[test]
fn knuth_morris_pratt_not_found1() {
    let index = knuth_morris_pratt("abcde".to_string(), "ac".to_string());

    assert_eq!(index, vec![]);
}

#[test]
fn knuth_morris_pratt_not_found2() {
    let index = knuth_morris_pratt("ababab".to_string(), "bababa".to_string());

    assert_eq!(index, vec![]);
}

#[test]
fn knuth_morris_pratt_empty_string() {
    let index = knuth_morris_pratt("".to_string(), "abcdef".to_string());

    assert_eq!(index, vec![]);
}
