use cbcast::message::CbcastMessage;
use cbcast::process::CbcastProcess;

fn sorted(mut v: Vec<(i32, u32)>) -> Vec<(i32, u32)> {
    v.sort();
    v
}

fn create_processes(num: u32) -> Vec<CbcastProcess<u16>> {
    let mut result = Vec::new();
    for i in 0..num {
        result.push(CbcastProcess::new(i as i32 + 1, 8080 + i as u16));
    }
    result
}

#[test]
fn process_new_counts_itself_at_zero() {
    let p = CbcastProcess::new(1, "127.0.0.1:8080");
    assert!(p.id == 1);
    assert!(p.id() == 1);
    assert!(p.cc().into_vec() == vec![(1, 0)]);
    assert!(*p.addr() == "127.0.0.1:8080");
    assert!(p.cc.into_vec() == vec![(1, 0)]);
    assert!(p.to_string() == "id: 1, vector clock: [(1, 0)]");
}

#[test]
fn process_send_counts_message() {
    let mut p = CbcastProcess::new(1, 0u16);
    let m = p.send("hello", 1);
    assert!(p.to_string() == "id: 1, vector clock: [(1, 1)]");
    assert!(m.sender_id == 1);
    assert!(m.cc == vec![(1, 1)]);
    assert!(m.data == 1);
}

#[test]
fn process_broadcast_stamps_clock() {
    let mut p = CbcastProcess::new(1, 0u16);
    p.record_connection(2);
    let m = p.broadcast("hello");
    assert!(sorted(m.cc.clone()) == vec![(1, 1), (2, 0)]);
    assert!(m.data == "hello");
    let text = p.to_string();
    assert!(
        text == "id: 1, vector clock: [(2, 0), (1, 1)]"
            || text == "id: 1, vector clock: [(1, 1), (2, 0)]"
    );
}

#[test]
fn process_receive_new_sender() {
    let mut ps = create_processes(2);
    let p_2 = ps.pop().unwrap();
    let mut p_1 = ps.pop().unwrap();
    let message = CbcastMessage::new(p_2.id, p_2.cc.into_vec(), 3);
    assert!(p_1.receive(message) == vec![3]);
    assert!(sorted(p_1.cc.into_vec()) == vec![(1, 0), (2, 0)]);
}

#[test]
fn broadcast_is_delivered_to_peer_that_saw_the_same() {
    let mut ps = create_processes(2);
    let mut q = ps.pop().unwrap();
    let mut p = ps.pop().unwrap();
    p.record_connection(2);
    q.record_connection(1);
    let m = p.broadcast(5u32);
    assert!(q.receive(m) == vec![5]);
}

#[test]
fn process_receive_causally_unordered_no_delivery() {
    let mut ps = create_processes(3);
    let mut p_3 = ps.pop().unwrap();
    let p_2 = ps.pop().unwrap();
    let mut p_1 = ps.pop().unwrap();
    let message = CbcastMessage::new(p_2.id, p_2.cc.into_vec(), 3);
    p_1.receive(message);
    let reply = CbcastMessage::new(p_1.id, p_1.cc.into_vec(), 4);
    assert!(p_3.receive(reply).is_empty());
    assert!(p_3.to_string() == "id: 3, vector clock: [(3, 0)]");
}

#[test]
fn process_receive_causally_unordered_delivery() {
    let mut ps = create_processes(3);
    let mut p_3 = ps.pop().unwrap();
    let p_2 = ps.pop().unwrap();
    let mut p_1 = ps.pop().unwrap();
    let message = CbcastMessage::new(p_2.id, p_2.cc.into_vec(), 3);
    let again = CbcastMessage::new(p_2.id, p_2.cc.into_vec(), 3);
    p_1.receive(message);
    let reply = CbcastMessage::new(p_1.id, p_1.cc.into_vec(), 4);
    assert!(p_3.receive(reply).is_empty());
    // The earlier message arrives: it is delivered, and then the waiting
    // reply is delivered from the queue.
    assert!(p_3.receive(again) == vec![3, 4]);
    assert!(sorted(p_3.cc.into_vec()) == vec![(1, 0), (2, 0), (3, 0)]);
    assert!(p_3.read(false).len() == 0);
}

#[test]
fn process_read_takes_waiting_message() {
    let mut p = CbcastProcess::new(3, 0u16);
    let waiting = CbcastMessage::new(1, vec![(1, 0), (2, 0)], 0x0102_0304u32);
    assert!(p.receive(waiting).is_empty());
    // A connection gave something: the queue is left alone.
    assert!(p.read(true).len() == 0);
    assert!(p.read(false) == vec![1, 2, 3, 4]);
    assert!(p.read(false).len() == 0);
}

#[test]
fn process_read_empty_queue() {
    let mut p = CbcastProcess::new(1, 7000u16);
    assert!(p.read(false).len() == 0);
}

#[test]
fn queue_keeps_one_entry_per_equal_clock() {
    let mut p = CbcastProcess::new(3, 0u16);
    let first = CbcastMessage::new(1, vec![(1, 0), (2, 0)], 10u32);
    let second = CbcastMessage::new(1, vec![(1, 0), (2, 0)], 11u32);
    assert!(p.receive(first).is_empty());
    assert!(p.receive(second).is_empty());
    assert!(p.read(false) == vec![0, 0, 0, 11]);
    assert!(p.read(false).len() == 0);
}

#[test]
fn viewgroup_add() {
    let mut p_1 = CbcastProcess::new(1, 5001u16);
    p_1.viewgroup_add((2, 5001u16));
    assert!(p_1.viewgroup_list() == vec![2]);
    p_1.viewgroup_add((2, 6000u16));
    assert!(p_1.viewgroup_address(2) == Some(&5001u16));
}

#[test]
fn viewgroup_list() {
    let p_1 = CbcastProcess::new(1, 5001u16);
    assert!(p_1.viewgroup_list().len() == 0);
}

#[test]
fn viewgroup_remove() {
    let mut p_1 = CbcastProcess::new(1, 5001u16);
    p_1.viewgroup_add((2, 5001u16));
    assert!(p_1.viewgroup_list() == vec![2]);
    p_1.viewgroup_remove(2);
    assert!(p_1.viewgroup_list().len() == 0);
    assert!(p_1.viewgroup_address(2) == None);
}

#[test]
fn record_connection_starts_count() {
    let mut p = CbcastProcess::new(1, 8000u16);
    p.record_connection(2);
    assert!(sorted(p.cc.into_vec()) == vec![(1, 0), (2, 0)]);
}

#[test]
fn process_describe_with_status() {
    let p = CbcastProcess::new(1, "127.0.0.1:8080");
    assert!(p.describe(true, true) == "socket address exists, listener active, id: 1, vector clock: [(1, 0)]");
    assert!(p.describe(true, false) == "socket address exists, id: 1, vector clock: [(1, 0)]");
    assert!(p.describe(false, false) == "id: 1, vector clock: [(1, 0)]");
}

#[test]
fn members_to_connect_skips_connected() {
    let mut p = CbcastProcess::new(1, 0u16);
    p.viewgroup_add((2, 1u16));
    p.viewgroup_add((3, 2u16));
    p.viewgroup_add((4, 3u16));
    let mut todo = p.members_to_connect(&vec![3]);
    todo.sort();
    assert!(todo == vec![2, 4]);
    assert!(p.members_to_connect(&vec![2, 3, 4]).is_empty());
}

#[test]
fn queued_messages_are_delivered_in_order() {
    // Two messages from process 1 arrive after a message that both depend on.
    let mut p = CbcastProcess::new(3, 0u16);
    let first = CbcastMessage::new(1, vec![(1, 1)], 10u32);
    let second = CbcastMessage::new(2, vec![(1, 1), (2, 1)], 20u32);
    assert!(p.receive(second).is_empty());
    assert!(p.receive(first) == vec![10, 20]);
    assert!(sorted(p.cc.into_vec()) == vec![(1, 1), (2, 1), (3, 0)]);
}
