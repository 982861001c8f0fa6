//! The message that a process broadcasts: its sender, the sender's clock
//! entries and the data.
use vstd::prelude::*;

verus! {

/// A broadcast message, stamped with the entries of the sender's clock.
pub struct CbcastMessage<I, D> {
    pub sender_id: I,
    pub cc: Vec<(I, u32)>,
    pub data: D,
}

impl<I, D> CbcastMessage<I, D> {
    pub fn new(sender_id: I, cc: Vec<(I, u32)>, data: D) -> (m: Self)
        ensures
            m.sender_id == sender_id,
            m.cc == cc,
            m.data == data,
    {
        CbcastMessage { sender_id, cc, data }
    }
}

} // verus!
