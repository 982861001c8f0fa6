use cbcast::clock::CbcastClock;
use cbcast::message::CbcastMessage;
use cbcast::process::CbcastProcess;

#[test]
fn test_clock_init_and_increment_one() {
    let mut cc = CbcastClock::new(1);
    assert!(cc.into_vec() == vec![]);
    cc.increment();
    assert!(cc.into_vec() == vec![(1, 1)]);
}

#[test]
fn clock_deliverable() {
    let mut cc = CbcastClock::new(1);
    let mut other_cc = CbcastClock::new(2);
    other_cc.increment();
    assert!(cc.is_deliverable(&other_cc));
}

#[test]
fn test_clock_not_deliverable() {
    let mut cc = CbcastClock::new(1);
    let other_cc = CbcastClock::new(2);
    assert!(!cc.is_deliverable(&other_cc));
}

#[test]
fn test_process_init() {
    let p_1 = CbcastProcess::new(1, "127.0.0.1:8080");
    assert!(p_1.id == 1);
}

#[test]
fn cbprocess_test_process_init() {
    let p_1 = CbcastProcess::new(1, "127.0.0.1:8080");
    assert!(p_1.id == 1);
}

#[test]
fn cbprocess_test_process_fmt() {
    let p_1 = CbcastProcess::new(1, "127.0.0.1:8080");
    assert!(p_1.to_string() == "id: 1, vector clock: [(1, 0)]");
}

#[test]
fn process_send() {
    let mut p_1 = CbcastProcess::new(1, "127.0.0.1:8080");
    p_1.send("hello", 1);
    assert!(p_1.to_string() == "id: 1, vector clock: [(1, 1)]");
}

#[test]
fn cbprocess_test_process_receive() {
    let mut p_1 = CbcastProcess::new(1, "127.0.0.1:8080");
    let p_2 = CbcastProcess::new(2, "127.0.0.1:8080");
    let message = CbcastMessage::new(p_2.id, p_2.cc.into_vec(), 3);

    p_1.receive(message);
    let result_str = p_1.to_string();
    assert!(
        result_str == "id: 1, vector clock: [(1, 0), (2, 0)]"
            || result_str == "id: 1, vector clock: [(2, 0), (1, 0)]"
    );
}

#[test]
fn causal_ordering() {}
