use dining_philosophers::arith::{add_two, square};

#[test]
fn test_add_two() {
    assert!(true);
    assert_eq!(4, add_two(2));
}

#[test]
fn add_two_negative_and_near_limit() {
    assert_eq!(add_two(-2), 0);
    assert_eq!(add_two(i32::MAX - 2), i32::MAX);
}

#[test]
fn square_values() {
    assert_eq!(square(10), 100);
    assert_eq!(square(0), 0);
    assert_eq!(square(1), 1);
}
