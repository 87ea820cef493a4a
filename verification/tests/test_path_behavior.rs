use configtree::test_path::{TestPath, TestPathCounter, u32_to_string};

#[test]
fn new_test_path() {
    let mut counter = TestPathCounter::new();
    TestPath::new(&mut counter);
}

#[test]
fn test_paths_unique() {
    let mut counter = TestPathCounter::new();
    let p1 = TestPath::new(&mut counter).path;
    let p2 = TestPath::new(&mut counter).path;
    assert_ne!(p1, p2);
}

#[test]
fn test_path_new_test_path() {
    let mut counter = TestPathCounter::new();
    TestPath::new(&mut counter);
}

#[test]
fn test_path_test_paths_unique() {
    let mut counter = TestPathCounter::new();
    let p1 = TestPath::new(&mut counter).path;
    let p2 = TestPath::new(&mut counter).path;
    assert_ne!(p1, p2);
}

#[test]
fn decimal_rendering() {
    assert_eq!(u32_to_string(0), "0");
    assert_eq!(u32_to_string(7), "7");
    assert_eq!(u32_to_string(1234567890), "1234567890");
}
