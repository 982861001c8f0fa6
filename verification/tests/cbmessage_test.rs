use cbcast::message::CbcastMessage;

#[test]
pub fn message_init() {
    let id = 3;
    let cc: Vec<(i32, u32)> = Vec::new();
    let m1 = CbcastMessage::new(id, cc, "message");
    assert!(m1.sender_id == id);
    assert!(m1.cc == Vec::new());
    assert!(m1.data == "message");
}
