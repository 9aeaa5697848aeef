use rust_algorithm::string::burrows_wheeler_transform::{
  burrows_wheeler_transform, inv_burrows_wheeler_transform,
};

#[test]
fn burrows_wheeler_transform_basic() {
  assert_eq!(
    inv_burrows_wheeler_transform(burrows_wheeler_transform("CARROT".to_string())),
    "CARROT"
  );
  assert_eq!(
    inv_burrows_wheeler_transform(burrows_wheeler_transform("TOMATO".to_string())),
    "TOMATO"
  );
  assert_eq!(
    inv_burrows_wheeler_transform(burrows_wheeler_transform("THISISATEST".to_string())),
    "THISISATEST"
  );
  assert_eq!(
    inv_burrows_wheeler_transform(burrows_wheeler_transform("THEALGORITHMS".to_string())),
    "THEALGORITHMS"
  );
  assert_eq!(
    inv_burrows_wheeler_transform(burrows_wheeler_transform("RUST".to_string())),
    "RUST"
  );
}

#[test]
fn special_characters() {
  assert_eq!(
    inv_burrows_wheeler_transform(burrows_wheeler_transform("!.!.!??.=::".to_string())),
    "!.!.!??.=::"
  );
  assert_eq!(
    inv_burrows_wheeler_transform(burrows_wheeler_transform("!{}{}(((&&%%!??.=::".to_string())),
    "!{}{}(((&&%%!??.=::"
  );
  assert_eq!(
    inv_burrows_wheeler_transform(burrows_wheeler_transform("//&$[]".to_string())),
    "//&$[]"
  );
}

#[test]
fn burrows_wheeler_transform_empty() {
  assert_eq!(
    inv_burrows_wheeler_transform(burrows_wheeler_transform("".to_string())),
    ""
  );
}
