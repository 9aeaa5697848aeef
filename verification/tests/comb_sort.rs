use rust_algorithm::sorting::comb_sort::comb_sort;

#[test]
fn comb_sort_descending() {
    // descending
    let mut ve1 = vec![6, 5, 4, 3, 2, 1];

    comb_sort(&mut ve1);

    for i in 0..ve1.len() - 1 {
        assert!(ve1[i] <= ve1[i + 1]);
    }
}

#[test]
fn comb_sort_ascending() {
    // pre-sorted
    let mut ve2 = vec![1, 2, 3, 4, 5, 6];

    comb_sort(&mut ve2);

    for i in 0..ve2.len() - 1 {
        assert!(ve2[i] <= ve2[i + 1]);
    }
}
