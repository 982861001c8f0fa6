use cbcast::vector_clock::VectorClock;
use std::cmp::Ordering;

#[test]
fn vector_clock_new_is_empty() {
    let vc = VectorClock::new(1);
    assert!(vc.to_string() == "");
}

#[test]
fn vector_clocks_of_equal_size_are_equal() {
    let a = VectorClock::new(1);
    let b = VectorClock::new(2);
    assert!(a == b);
    assert!(a.partial_cmp(&b) == Some(Ordering::Equal));
}
