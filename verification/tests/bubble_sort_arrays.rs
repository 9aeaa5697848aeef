use rust_algorithm::sorting::bubble_sort::bubble_sort;

#[test]
fn test_empty_vec() {
    let mut empty_vec: Vec<String> = vec![];
    bubble_sort(&mut empty_vec);
    assert_eq!(empty_vec, Vec::<String>::new());
}

#[test]
fn test_number_vec() {
    let mut vec = vec![7, 49, 73, 58, 30, 72, 44, 78, 23, 9];
    bubble_sort(&mut vec);
    assert_eq!(vec, vec![7, 9, 23, 30, 44, 49, 58, 72, 73, 78]);
}

#[test]
fn test_string_vec() {
    let mut vec = vec![
        String::from("Bob"),
        String::from("David"),
        String::from("Carol"),
        String::from("Alice"),
    ];
    bubble_sort(&mut vec);
    assert_eq!(
        vec,
        vec![
            String::from("Alice"),
            String::from("Bob"),
            String::from("Carol"),
            String::from("David"),
        ]
    );
}

#[test]
fn bubble_sort_array_with_repeats() {
    let mut nums = [4, 1, 3, 1, 5, 2];
    bubble_sort(&mut nums);
    assert_eq!(nums, [1, 1, 2, 3, 4, 5]);
}
