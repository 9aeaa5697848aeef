use rust_algorithm::sorting::gnome_sort::gnome_sort;

#[test]
fn gnome_sort_basic() {
    let res = gnome_sort(&vec![6, 5, -8, 3, 2, 3]);
    assert_eq!(res, vec![-8, 2, 3, 3, 5, 6]);
}

#[test]
fn gnome_sort_already_sorted() {
    let res = gnome_sort(&vec!["a", "b", "c"]);
    assert_eq!(res, vec!["a", "b", "c"]);
}

#[test]
fn gnome_sort_odd_number_of_elements() {
    let res = gnome_sort(&vec!["d", "a", "c", "e", "b"]);
    assert_eq!(res, vec!["a", "b", "c", "d", "e"]);
}

#[test]
fn gnome_sort_one_element() {
    let res = gnome_sort(&vec![3]);
    assert_eq!(res, vec![3]);
}

#[test]
fn gnome_sort_empty() {
    let res = gnome_sort(&Vec::<u8>::new());
    assert_eq!(res, vec![]);
}

#[test]
fn test_gnome_sort_empty_string() {
    let res = gnome_sort(&vec!["", "c", "", "a", "b", ""]);
    assert_eq!(res, vec!["", "", "", "a", "b", "c"]);
}
