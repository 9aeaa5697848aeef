use rust_algorithm::sorting::quick_sort::quick_sort;

#[test]
fn quick_sort_test_empty_vec() {
  let mut empty_vec: Vec<String> = vec![];
  quick_sort(&mut empty_vec);
  assert_eq!(empty_vec, Vec::<String>::new());
}

#[test]
fn quick_sort_test_number_vec() {
  let mut vec = vec![7, 49, 73, 58, 30, 72, 44, 78, 23, 9];
  quick_sort(&mut vec);
  assert_eq!(vec, vec![7, 9, 23, 30, 44, 49, 58, 72, 73, 78]);
}

#[test]
fn quick_sort_test_string_vec() {
  let mut vec = vec![
    String::from("Bob"),
    String::from("David"),
    String::from("Carol"),
    String::from("Alice"),
  ];
  quick_sort(&mut vec);
  assert_eq!(
    vec,
    vec![
      String::from("Alice"),
      String::from("Bob"),
      String::from("Carol"),
      String::from("David"),
    ]
  );
}
