use rust_algorithm::search::linear_search::linear_search;

#[test]
fn linear_search_search_strings() {
    let index = linear_search(&"a", &vec!["a", "b", "c", "d", "google", "zoo"]);
    assert_eq!(index, Some(0));
}

#[test]
fn linear_search_search_ints() {
    let index = linear_search(&4, &vec![1, 2, 3, 4]);
    assert_eq!(index, Some(3));
    let index = linear_search(&3, &vec![1, 2, 3, 4]);
    assert_eq!(index, Some(2));
    let index = linear_search(&2, &vec![1, 2, 3, 4]);
    assert_eq!(index, Some(1));
    let index = linear_search(&1, &vec![1, 2, 3, 4]);
    assert_eq!(index, Some(0));
}

#[test]
fn linear_search_not_found() {
    let index = linear_search(&5, &vec![1, 2, 3, 4]);
    assert_eq!(index, None);
}

#[test]
fn linear_search_empty() {
    let index = linear_search(&1, &vec![]);
    assert_eq!(index, None);
}
