use rust_algorithm::string::reverse::reverse;

#[test]
fn test_simple() {
    assert_eq!(reverse("racecar"), "racecar");
}

#[test]
fn test_sentence() {
    assert_eq!(reverse("step on no pets"), "step on no pets");
}
