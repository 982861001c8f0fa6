use cbcast::clock::CbcastClock;
use std::cmp::Ordering;
use std::collections::HashMap;

fn clock_of(id: i32, entries: &[(i32, u32)]) -> CbcastClock {
    let mut m = HashMap::new();
    for (k, v) in entries {
        m.insert(*k, *v);
    }
    CbcastClock::from_map(id, m)
}

fn sorted(mut v: Vec<(i32, u32)>) -> Vec<(i32, u32)> {
    v.sort();
    v
}

#[test]
fn clock_equals_itself() {
    let a = clock_of(1, &[(1, 4), (2, 7), (3, 0)]);
    let b = clock_of(1, &[(1, 4), (2, 7), (3, 0)]);
    assert!(a.eq(&b));
    assert!(a.cmp(&b) == Ordering::Equal);
}

#[test]
fn order_equal_exactly_when_equal() {
    let a = clock_of(1, &[(1, 4), (2, 7)]);
    let b = clock_of(2, &[(1, 4)]);
    assert!(a.eq(&b));
    assert!(a.cmp(&b) == Ordering::Equal);
    // b does not cover a: a knows process 2, b does not.
    assert!(!b.eq(&a));
    assert!(b.cmp(&a) == Ordering::Less);
    let c = clock_of(2, &[(1, 5)]);
    assert!(!a.eq(&c));
    assert!(a.cmp(&c) != Ordering::Equal);
}

#[test]
fn order_dominance() {
    let a = clock_of(1, &[(1, 3), (2, 2), (3, 9)]);
    let b = clock_of(2, &[(1, 3), (2, 1), (3, 9)]);
    assert!(a.cmp(&b) == Ordering::Greater);
    assert!(b.cmp(&a) == Ordering::Less);
    assert!(a.partial_cmp(&b) == Some(Ordering::Greater));
    assert!(a > b);
    assert!(b < a);
}

#[test]
fn order_concurrent_clocks_partial_cmp_greater() {
    let a = clock_of(1, &[(1, 1), (2, 0)]);
    let b = clock_of(2, &[(1, 0), (2, 1)]);
    assert!(a.partial_cmp(&b) == Some(Ordering::Greater));
    assert!(b.partial_cmp(&a) == Some(Ordering::Greater));
}

#[test]
fn increment_counts_own_messages() {
    let mut cc = CbcastClock::new(7);
    assert!(cc.increment() == None);
    assert!(cc.increment() == Some(1));
    assert!(cc.increment() == Some(2));
    assert!(cc.into_vec() == vec![(7, 3)]);
}

#[test]
fn insert_returns_replaced_count() {
    let mut cc = CbcastClock::new(1);
    assert!(cc.insert(2, 5) == None);
    assert!(cc.insert(2, 6) == Some(5));
    assert!(cc.into_vec() == vec![(2, 6)]);
}

#[test]
fn into_vec_lists_each_entry_once() {
    let cc = clock_of(1, &[(3, 30), (1, 10), (2, 20)]);
    assert!(sorted(cc.into_vec()) == vec![(1, 10), (2, 20), (3, 30)]);
}

#[test]
fn next_message_is_deliverable() {
    // The receiver (3) has seen what the sender (1) had seen; the sender
    // then counts one more message of its own.
    let mut receiver = clock_of(3, &[(1, 2), (2, 5), (3, 1)]);
    let sender = clock_of(1, &[(1, 3), (2, 5), (3, 1)]);
    assert!(receiver.is_deliverable(&sender));
    // A known sender is not added again: the clock does not change.
    assert!(sorted(receiver.into_vec()) == vec![(1, 2), (2, 5), (3, 1)]);
}

#[test]
fn unknown_sender_is_learned() {
    let mut receiver = clock_of(3, &[(2, 5), (3, 1)]);
    let sender = clock_of(1, &[(1, 1), (2, 5), (3, 1)]);
    assert!(receiver.is_deliverable(&sender));
    assert!(sorted(receiver.into_vec()) == vec![(1, 1), (2, 5), (3, 1)]);
}

#[test]
fn nothing_new_is_not_deliverable() {
    let mut receiver = clock_of(3, &[(1, 2), (2, 5), (3, 1)]);
    let same = clock_of(1, &[(1, 2), (2, 5), (3, 1)]);
    assert!(!receiver.is_deliverable(&same));
}

#[test]
fn missing_message_is_not_deliverable() {
    let mut receiver = clock_of(3, &[(1, 2), (2, 5)]);
    let ahead = clock_of(1, &[(1, 4), (2, 5)]);
    assert!(!receiver.is_deliverable(&ahead));
    assert!(sorted(receiver.into_vec()) == vec![(1, 2), (2, 5)]);
}

#[test]
fn two_new_messages_are_not_deliverable() {
    let mut receiver = clock_of(3, &[(1, 2), (2, 5)]);
    let two = clock_of(1, &[(1, 3), (2, 6)]);
    assert!(!receiver.is_deliverable(&two));
    let mut other = clock_of(3, &[(1, 2)]);
    let known_and_unknown = clock_of(1, &[(1, 3), (4, 1)]);
    assert!(!other.is_deliverable(&known_and_unknown));
}

#[test]
fn own_entry_is_not_compared() {
    let mut receiver = clock_of(3, &[(3, 0), (1, 0)]);
    let other = clock_of(1, &[(3, 9), (1, 1)]);
    assert!(receiver.is_deliverable(&other));
}

#[test]
fn clock_text_with_negative_ids() {
    let mut cc = CbcastClock::new(-5);
    cc.insert(-5, 42);
    assert!(cc.to_string() == "[(-5, 42)]");
    let mut low = CbcastClock::new(i32::MIN);
    low.insert(i32::MIN, u32::MAX);
    assert!(low.to_string() == "[(-2147483648, 4294967295)]");
}

#[test]
fn clock_text_lists_entries_in_walk_order() {
    let cc = clock_of(1, &[(1, 0), (2, 10)]);
    let text = cc.to_string();
    let order = cc.into_vec();
    let expected = if order[0].0 == 1 { "[(1, 0), (2, 10)]" } else { "[(2, 10), (1, 0)]" };
    assert!(text == expected);
}
