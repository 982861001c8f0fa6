//! A process of the causal broadcast: its clock, its view group and the
//! queue of messages that wait until they can be delivered.
use crate::clock::{
    clock_order, count_of, deliverable, learned_clock, lists_entries, CbcastClock, ClockOrder,
};
use crate::message::CbcastMessage;
use crate::render::{clock_text, int_text, push_char, push_int};
use std::collections::HashMap;
use vstd::prelude::*;
use vstd::std_specs::iter::IteratorSpec;

verus! {

broadcast use vstd::std_specs::hash::group_hash_axioms;

/// The counts that a list of entries gives; a later entry for a process
/// replaces an earlier one.
pub open spec fn map_of(s: Seq<(i32, u32)>) -> Map<i32, u32>
    decreases s.len(),
{
    if s.len() == 0 {
        Map::empty()
    } else {
        map_of(s.drop_last()).insert(s.last().0, s.last().1)
    }
}

/// Every count of `own` but the owner's leaves room for one more message.
pub open spec fn clock_ok(own: Map<i32, u32>, id: i32) -> bool {
    forall|k: i32| own.contains_key(k) && k != id ==> #[trigger] own[k] < u32::MAX
}

/// The queue after a waiting message stamped `c` with data `d` joins it: it
/// goes before the first entry that it orders Less than, after those it
/// orders Greater than; an entry that it orders Equal to keeps its clock and
/// takes the new data.
pub open spec fn queue_insert(q: Seq<(Map<i32, u32>, u32)>, c: Map<i32, u32>, d: u32) -> Seq<
    (Map<i32, u32>, u32),
>
    decreases q.len(),
{
    if q.len() == 0 {
        seq![(c, d)]
    } else {
        match clock_order(c, q[0].0) {
            ClockOrder::Less => seq![(c, d)] + q,
            ClockOrder::Equal => seq![(q[0].0, d)] + q.drop_first(),
            ClockOrder::Greater => seq![q[0]] + queue_insert(q.drop_first(), c, d),
        }
    }
}

/// The clock, the queue and the delivered data after the queue is drained:
/// while the first waiting message is deliverable, it is taken off the
/// queue, the clock learns from it, and its data is delivered, in that order.
pub open spec fn drain(own: Map<i32, u32>, id: i32, q: Seq<(Map<i32, u32>, u32)>) -> (
    Map<i32, u32>,
    Seq<(Map<i32, u32>, u32)>,
    Seq<u32>,
)
    decreases q.len(),
{
    if q.len() > 0 && deliverable(own, q[0].0, id) {
        let rest = drain(learned_clock(own, q[0].0, id), id, q.drop_first());
        (rest.0, rest.1, seq![q[0].1] + rest.2)
    } else {
        (own, q, Seq::empty())
    }
}

/// The big-endian bytes of `d`, most significant first.
pub open spec fn be_bytes(d: u32) -> Seq<u8> {
    seq![
        (d / 0x100_0000) as u8,
        ((d / 0x1_0000) % 0x100) as u8,
        ((d / 0x100) % 0x100) as u8,
        (d % 0x100) as u8,
    ]
}

/// The keys of `s` are those of `d`, each once.
pub open spec fn lists_keys(d: Set<i32>, s: Seq<i32>) -> bool {
    s.no_duplicates() && s.to_set() == d
}

/// The text of a process: `id: 1, vector clock: [(1, 0)]`.
pub open spec fn process_text(id: i32, walk: Seq<(i32, u32)>) -> Seq<char> {
    seq!['i', 'd', ':', ' '] + int_text(id as int) + ", vector clock: "@ + clock_text(walk)
}

/// The status in front of a networked process's text.
pub open spec fn status_text(address_resolves: bool, listener_missing: bool) -> Seq<char> {
    (if address_resolves {
        "socket address exists, "@
    } else {
        Seq::<char>::empty()
    }) + (if listener_missing {
        "listener active, "@
    } else {
        Seq::<char>::empty()
    })
}

/// The learned clock keeps room for one more message from each process.
pub proof fn lemma_learned_clock_ok(own: Map<i32, u32>, other: Map<i32, u32>, id: i32)
    requires
        clock_ok(own, id),
    ensures
        clock_ok(learned_clock(own, other, id), id),
{
    if deliverable(own, other, id) && exists|k: i32| #[trigger] crate::clock::is_unknown(own, other, k) {
        let k = choose|k: i32| #[trigger] crate::clock::is_unknown(own, other, k);
        assert(other[k] <= 1);
    }
}

/// Draining the queue keeps room for one more message from each process.
pub proof fn lemma_drain_ok(own: Map<i32, u32>, id: i32, q: Seq<(Map<i32, u32>, u32)>)
    requires
        clock_ok(own, id),
    ensures
        clock_ok(drain(own, id, q).0, id),
    decreases q.len(),
{
    if q.len() > 0 && deliverable(own, q[0].0, id) {
        lemma_learned_clock_ok(own, q[0].0, id);
        lemma_drain_ok(learned_clock(own, q[0].0, id), id, q.drop_first());
    }
}

/// A process: its id, its address, its clock, the members of its view
/// group with their addresses, and the messages that wait for delivery.
pub struct CbcastProcess<A> {
    pub id: i32,
    addr: A,
    pub cc: CbcastClock,
    viewgroup: HashMap<i32, A>,
    /// The waiting messages, each with its clock, kept in the order of a
    /// search tree keyed by the clock: a new message goes before the first
    /// entry whose clock it orders Less than, and an entry whose clock it
    /// orders Equal to keeps its clock and takes the new data
    /// (`queue_insert`); the first entry is tried first. The clock order is
    /// not a total order, so a tree map keyed by clocks would have no
    /// specified behaviour; this scan from the front is what such a map's
    /// search does within one node. The invariant is the one of `queue()`:
    /// every change to the queue is an insertion by `queue_insert` or a
    /// removal from the front.
    causal_queue: Vec<(CbcastClock, u32)>,
}

impl<A> CbcastProcess<A> {
    /// The clock belongs to the process, and every count but its own leaves
    /// room for one more message.
    pub closed spec fn wf(&self) -> bool {
        &&& self.cc.owner() == self.id
        &&& clock_ok(self.cc@, self.id)
    }

    /// The process's id.
    pub closed spec fn pid(&self) -> i32 {
        self.id
    }

    /// The counts of the process's clock.
    pub closed spec fn clock(&self) -> Map<i32, u32> {
        self.cc@
    }

    /// The owner of the process's clock.
    pub closed spec fn clock_owner(&self) -> i32 {
        self.cc.owner()
    }

    /// The order of a walk over the process's clock.
    pub closed spec fn clock_walk(&self) -> Seq<(i32, u32)> {
        self.cc.walk()
    }

    /// The process's own address.
    pub closed spec fn address(&self) -> A {
        self.addr
    }

    /// The members of the view group, with their addresses.
    pub closed spec fn view_group(&self) -> Map<i32, A> {
        self.viewgroup@
    }

    /// The waiting messages: each one's clock and data, first to be tried first.
    pub closed spec fn queue(&self) -> Seq<(Map<i32, u32>, u32)> {
        self.causal_queue@.map_values(|e: (CbcastClock, u32)| (e.0@, e.1))
    }

    /// A process with the clock `{id: 0}`, no view group and no waiting message.
    pub fn new(id: i32, addr: A) -> (s: Self)
        ensures
            s.wf(),
            s.pid() == id,
            s.clock_owner() == id,
            s.address() == addr,
            s.clock() == map![id => 0u32],
            s.view_group() == Map::<i32, A>::empty(),
            s.queue() == Seq::<(Map<i32, u32>, u32)>::empty(),
    {
        let mut s = CbcastProcess {
            id,
            cc: CbcastClock::new(id),
            addr,
            viewgroup: HashMap::new(),
            causal_queue: Vec::new(),
        };
        s.cc.insert(s.id, 0);
        assert(s.queue() =~= Seq::<(Map<i32, u32>, u32)>::empty());
        s
    }

    /// A process in good standing owns its clock, and every count but its
    /// own leaves room for one more message.
    pub proof fn lemma_wf(&self)
        requires
            self.wf(),
        ensures
            self.clock_owner() == self.pid(),
            clock_ok(self.clock(), self.pid()),
    {
    }

    /// The process's id.
    pub fn id(&self) -> (r: i32)
        ensures
            r == self.pid(),
    {
        self.id
    }

    /// The process's clock.
    pub fn cc(&self) -> (r: &CbcastClock)
        ensures
            r@ == self.clock(),
            r.owner() == self.clock_owner(),
            r.walk() == self.clock_walk(),
    {
        &self.cc
    }

    /// Puts a message that cannot be delivered yet into the queue.
    fn enqueue(&mut self, clock: CbcastClock, data: u32)
        requires
            old(self).wf(),
        ensures
            final(self).wf(),
            final(self).queue() == queue_insert(old(self).queue(), clock@, data),
            final(self).pid() == old(self).pid(),
            final(self).clock_owner() == old(self).clock_owner(),
            final(self).clock() == old(self).clock(),
            final(self).address() == old(self).address(),
            final(self).view_group() == old(self).view_group(),
    {
        let ghost q0 = self.queue();
        let ghost c = clock@;
        let mut i: usize = 0;
        assert(q0.skip(0) =~= q0);
        assert(q0.take(0) =~= Seq::<(Map<i32, u32>, u32)>::empty());
        while i < self.causal_queue.len()
            invariant
                0 <= i <= q0.len(),
                q0 == old(self).queue(),
                self.wf(),
                self.clock_owner() == old(self).clock_owner(),
                self.queue() == q0,
                self.causal_queue@.len() == q0.len(),
                clock@ == c,
                self.pid() == old(self).pid(),
                self.clock() == old(self).clock(),
                self.address() == old(self).address(),
                self.view_group() == old(self).view_group(),
                queue_insert(q0, c, data) == q0.take(i as int) + queue_insert(q0.skip(i as int), c, data),
            decreases q0.len() - i,
        {
            assert(q0.skip(i as int)[0] == q0[i as int]);
            assert(q0.skip(i as int).drop_first() =~= q0.skip(i + 1));
            assert(q0[i as int].0 == self.causal_queue@[i as int].0@);
            match clock.compare(&self.causal_queue[i].0) {
                ClockOrder::Less => {
                    self.causal_queue.insert(i, (clock, data));
                    assert(self.queue() =~= q0.take(i as int) + queue_insert(q0.skip(i as int), c, data));
                    assert(self.queue() == queue_insert(q0, c, data));
                    return;
                },
                ClockOrder::Equal => {
                    let (kept, _) = self.causal_queue.remove(i);
                    self.causal_queue.insert(i, (kept, data));
                    assert(self.queue() =~= q0.take(i as int) + queue_insert(q0.skip(i as int), c, data));
                    assert(self.queue() == queue_insert(q0, c, data));
                    return;
                },
                ClockOrder::Greater => {
                    assert(q0.take(i + 1) =~= q0.take(i as int).push(q0[i as int]));
                    assert(queue_insert(q0, c, data) =~= q0.take(i + 1) + queue_insert(q0.skip(i + 1), c, data));
                },
            }
            i += 1;
        }
        assert(q0.skip(i as int) =~= Seq::<(Map<i32, u32>, u32)>::empty());
        assert(q0.take(i as int) =~= q0);
        self.causal_queue.push((clock, data));
        assert(self.queue() =~= queue_insert(q0, c, data));
    }

    /// Delivers waiting messages from the front of the queue while the first
    /// one is deliverable; returns their data, in delivery order.
    fn drain_queue(&mut self) -> (out: Vec<u32>)
        requires
            old(self).wf(),
        ensures
            final(self).wf(),
            (final(self).clock(), final(self).queue(), out@) == drain(
                old(self).clock(),
                old(self).pid(),
                old(self).queue(),
            ),
            final(self).pid() == old(self).pid(),
            final(self).clock_owner() == old(self).clock_owner(),
            final(self).address() == old(self).address(),
            final(self).view_group() == old(self).view_group(),
    {
        let ghost target = drain(old(self).clock(), old(self).pid(), old(self).queue());
        let mut out: Vec<u32> = Vec::new();
        loop
            invariant
                self.wf(),
                target == drain(old(self).clock(), old(self).pid(), old(self).queue()),
                drain(self.cc@, self.id, self.queue()).0 == target.0,
                drain(self.cc@, self.id, self.queue()).1 == target.1,
                out@ + drain(self.cc@, self.id, self.queue()).2 == target.2,
                self.pid() == old(self).pid(),
                self.clock_owner() == old(self).clock_owner(),
                self.address() == old(self).address(),
                self.view_group() == old(self).view_group(),
            ensures
                self.wf(),
                (self.cc@, self.queue(), out@) == target,
                self.pid() == old(self).pid(),
                self.clock_owner() == old(self).clock_owner(),
                self.address() == old(self).address(),
                self.view_group() == old(self).view_group(),
            decreases self.causal_queue@.len(),
        {
            let ghost own = self.cc@;
            let ghost q = self.queue();
            if self.causal_queue.len() == 0 {
                assert(q.len() == 0);
                assert(out@ + Seq::<u32>::empty() =~= out@);
                return out;
            }
            assert(q[0].0 == self.causal_queue@[0].0@);
            if self.cc.is_deliverable(&self.causal_queue[0].0) {
                proof {
                    lemma_learned_clock_ok(own, q[0].0, self.id);
                }
                let (_, data) = self.causal_queue.remove(0);
                assert(self.queue() =~= q.drop_first());
                let ghost before = out@;
                out.push(data);
                assert(before + drain(own, self.id, q).2 =~= out@ + drain(
                    self.cc@,
                    self.id,
                    self.queue(),
                ).2);
            } else {
                assert(!deliverable(own, q[0].0, self.id));
                assert(out@ + Seq::<u32>::empty() =~= out@);
                return out;
            }
        }
    }

    /// Handles a received message: delivers it when the clock allows
    /// (`deliverable`); otherwise queues it (`queue_insert`). Then delivers
    /// waiting messages from the front of the queue (`drain`). Returns the
    /// data of every message delivered, in delivery order, for the handler:
    /// the received message's first, where it was delivered.
    pub fn receive(&mut self, message: CbcastMessage<i32, u32>) -> (r: Vec<u32>)
        requires
            old(self).wf(),
        ensures
            final(self).wf(),
            final(self).pid() == old(self).pid(),
            final(self).clock_owner() == old(self).clock_owner(),
            final(self).address() == old(self).address(),
            final(self).view_group() == old(self).view_group(),
            ({
                let incoming = map_of(message.cc@);
                let own = old(self).clock();
                let id = old(self).pid();
                let delivered = deliverable(own, incoming, id);
                let waiting = if delivered {
                    old(self).queue()
                } else {
                    queue_insert(old(self).queue(), incoming, message.data)
                };
                let after = drain(learned_clock(own, incoming, id), id, waiting);
                &&& r@ == (if delivered {
                    seq![message.data]
                } else {
                    Seq::<u32>::empty()
                }) + after.2
                &&& final(self).clock() == after.0
                &&& final(self).queue() == after.1
            }),
    {
        let mut hmap: HashMap<i32, u32> = HashMap::new();
        let mut i: usize = 0;
        while i < message.cc.len()
            invariant
                0 <= i <= message.cc@.len(),
                hmap@ == map_of(message.cc@.take(i as int)),
            decreases message.cc@.len() - i,
        {
            let (k, v) = message.cc[i];
            hmap.insert(k, v);
            assert(message.cc@.take(i + 1).drop_last() =~= message.cc@.take(i as int));
            i += 1;
        }
        assert(message.cc@.take(message.cc@.len() as int) =~= message.cc@);
        let cc = CbcastClock::from_map(message.sender_id, hmap);
        let ghost own = self.cc@;
        let delivered = self.cc.is_deliverable(&cc);
        proof {
            lemma_learned_clock_ok(own, cc@, self.id);
        }
        let mut result: Vec<u32> = Vec::new();
        if delivered {
            result.push(message.data);
        } else {
            self.enqueue(cc, message.data);
        }
        let mut drained = self.drain_queue();
        let ghost first = result@;
        let ghost later = drained@;
        result.append(&mut drained);
        assert(result@ == first + later);
        result
    }

    /// Counts a new message of this process and stamps it with the clock.
    fn stamp<J>(&mut self, data: J) -> (m: CbcastMessage<i32, J>)
        requires
            old(self).wf(),
            count_of(old(self).clock(), old(self).pid()) < u32::MAX,
        ensures
            final(self).wf(),
            final(self).clock() == old(self).clock().insert(
                old(self).pid(),
                (count_of(old(self).clock(), old(self).pid()) + 1) as u32,
            ),
            final(self).pid() == old(self).pid(),
            final(self).clock_owner() == old(self).clock_owner(),
            final(self).address() == old(self).address(),
            final(self).view_group() == old(self).view_group(),
            final(self).queue() == old(self).queue(),
            m.sender_id == old(self).pid(),
            m.cc@ == final(self).clock_walk(),
            lists_entries(final(self).clock(), m.cc@),
            m.data == data,
    {
        self.cc.increment();
        let vector_clock = self.cc.into_vec();
        CbcastMessage::new(self.id, vector_clock, data)
    }

    /// Broadcasts `message`: counts it in the clock and returns it stamped
    /// with the clock's entries, for sending to the view group.
    pub fn broadcast<J>(&mut self, message: J) -> (m: CbcastMessage<i32, J>)
        requires
            old(self).wf(),
            count_of(old(self).clock(), old(self).pid()) < u32::MAX,
        ensures
            final(self).wf(),
            final(self).clock() == old(self).clock().insert(
                old(self).pid(),
                (count_of(old(self).clock(), old(self).pid()) + 1) as u32,
            ),
            final(self).pid() == old(self).pid(),
            final(self).clock_owner() == old(self).clock_owner(),
            final(self).address() == old(self).address(),
            final(self).view_group() == old(self).view_group(),
            final(self).queue() == old(self).queue(),
            m.sender_id == old(self).pid(),
            m.cc@ == final(self).clock_walk(),
            lists_entries(final(self).clock(), m.cc@),
            m.data == message,
    {
        self.stamp(message)
    }

    /// Sends `message`: counts it in the clock and returns it stamped with
    /// the clock's entries; the address is not used.
    pub fn send(&mut self, _sender_address: &str, message: u32) -> (m: CbcastMessage<i32, u32>)
        requires
            old(self).wf(),
            count_of(old(self).clock(), old(self).pid()) < u32::MAX,
        ensures
            final(self).wf(),
            final(self).clock() == old(self).clock().insert(
                old(self).pid(),
                (count_of(old(self).clock(), old(self).pid()) + 1) as u32,
            ),
            final(self).pid() == old(self).pid(),
            final(self).clock_owner() == old(self).clock_owner(),
            final(self).address() == old(self).address(),
            final(self).view_group() == old(self).view_group(),
            final(self).queue() == old(self).queue(),
            m.sender_id == old(self).pid(),
            m.cc@ == final(self).clock_walk(),
            lists_entries(final(self).clock(), m.cc@),
            m.data == message,
    {
        self.stamp(message)
    }

    /// The process's own address.
    pub fn addr(&self) -> (r: &A)
        ensures
            *r == self.address(),
    {
        &self.addr
    }

    /// Adds a member to the view group, unless its id is already there.
    pub fn viewgroup_add(&mut self, node: (i32, A))
        ensures
            final(self).view_group() == (if old(self).view_group().contains_key(node.0) {
                old(self).view_group()
            } else {
                old(self).view_group().insert(node.0, node.1)
            }),
            final(self).wf() == old(self).wf(),
            final(self).pid() == old(self).pid(),
            final(self).clock_owner() == old(self).clock_owner(),
            final(self).clock() == old(self).clock(),
            final(self).address() == old(self).address(),
            final(self).queue() == old(self).queue(),
    {
        if self.viewgroup.get(&node.0).is_none() {
            self.viewgroup.insert(node.0, node.1);
        }
    }

    /// Removes the member `id` from the view group.
    pub fn viewgroup_remove(&mut self, id: i32)
        ensures
            final(self).view_group() == old(self).view_group().remove(id),
            final(self).wf() == old(self).wf(),
            final(self).pid() == old(self).pid(),
            final(self).clock_owner() == old(self).clock_owner(),
            final(self).clock() == old(self).clock(),
            final(self).address() == old(self).address(),
            final(self).queue() == old(self).queue(),
    {
        self.viewgroup.remove(&id);
    }

    /// The ids of the view group's members, each once.
    pub fn viewgroup_list(&self) -> (r: Vec<i32>)
        ensures
            lists_keys(self.view_group().dom(), r@),
    {
        let mut v: Vec<i32> = Vec::new();
        let keys = self.viewgroup.keys();
        let ghost ks = keys.remaining();
        for k in it: keys
            invariant
                v@ == it.seq().take(it.index() as int).map_values(|k: &i32| *k),
        {
            v.push(*k);
        }
        assert(v@ == ks.unref());
        v
    }

    /// The address of the view group's member `id`, if it is one.
    pub fn viewgroup_address(&self, id: i32) -> (r: Option<&A>)
        ensures
            match r {
                Some(a) => self.view_group().contains_key(id) && *a == self.view_group()[id],
                None => !self.view_group().contains_key(id),
            },
    {
        self.viewgroup.get(&id)
    }

    /// Starts counting the messages of `id`, with whom a connection is now up.
    pub fn record_connection(&mut self, id: i32)
        requires
            old(self).wf(),
        ensures
            final(self).wf(),
            final(self).clock() == old(self).clock().insert(id, 0),
            final(self).pid() == old(self).pid(),
            final(self).clock_owner() == old(self).clock_owner(),
            final(self).address() == old(self).address(),
            final(self).view_group() == old(self).view_group(),
            final(self).queue() == old(self).queue(),
    {
        self.cc.insert(id, 0);
    }

    /// What a read returns once the connections have been read: when no
    /// connection gave anything (`stream_read` false) and a message waits,
    /// the first waiting message leaves the queue and its data is returned as
    /// big-endian bytes; otherwise nothing.
    pub fn read(&mut self, stream_read: bool) -> (r: Vec<u8>)
        ensures
            final(self).wf() == old(self).wf(),
            final(self).pid() == old(self).pid(),
            final(self).clock_owner() == old(self).clock_owner(),
            final(self).clock() == old(self).clock(),
            final(self).address() == old(self).address(),
            final(self).view_group() == old(self).view_group(),
            if !stream_read && old(self).queue().len() > 0 {
                &&& r@ == be_bytes(old(self).queue()[0].1)
                &&& final(self).queue() == old(self).queue().drop_first()
            } else {
                &&& r@ == Seq::<u8>::empty()
                &&& final(self).queue() == old(self).queue()
            },
    {
        if !stream_read && self.causal_queue.len() > 0 {
            let ghost q = self.queue();
            let (_, d) = self.causal_queue.remove(0);
            assert(self.queue() =~= q.drop_first());
            let mut bytes: Vec<u8> = Vec::new();
            bytes.push((d / 0x100_0000) as u8);
            bytes.push(((d / 0x1_0000) % 0x100) as u8);
            bytes.push(((d / 0x100) % 0x100) as u8);
            bytes.push((d % 0x100) as u8);
            assert(bytes@ =~= be_bytes(d));
            bytes
        } else {
            Vec::new()
        }
    }

    /// The process's text: `id: 1, vector clock: [(1, 0)]`.
    pub fn to_string(&self) -> (r: String)
        ensures
            r@ == process_text(self.pid(), self.clock_walk()),
            lists_entries(self.clock(), self.clock_walk()),
    {
        let mut s = String::new();
        push_char(&mut s, 'i');
        push_char(&mut s, 'd');
        push_char(&mut s, ':');
        push_char(&mut s, ' ');
        push_int(&mut s, self.id);
        s.append(", vector clock: ");
        let clock = self.cc.to_string();
        s.append(clock.as_str());
        assert(s@ =~= process_text(self.pid(), self.clock_walk()));
        s
    }

    /// The process's text with its status in front: "socket address exists, "
    /// where its address resolves, "listener active, " where no listener is
    /// up, then `to_string`'s text.
    pub fn describe(&self, address_resolves: bool, listener_missing: bool) -> (r: String)
        ensures
            r@ == status_text(address_resolves, listener_missing) + process_text(
                self.pid(),
                self.clock_walk(),
            ),
            lists_entries(self.clock(), self.clock_walk()),
    {
        let mut s = String::new();
        if address_resolves {
            s.append("socket address exists, ");
        }
        if listener_missing {
            s.append("listener active, ");
        }
        let text = self.to_string();
        s.append(text.as_str());
        assert(s@ =~= status_text(address_resolves, listener_missing) + process_text(
            self.pid(),
            self.clock_walk(),
        ));
        s
    }

    /// The members of the view group to connect to: those whose ids are not
    /// among `connected`, each once.
    pub fn members_to_connect(&self, connected: &Vec<i32>) -> (r: Vec<i32>)
        ensures
            r@.no_duplicates(),
            forall|i: int|
                0 <= i < r@.len() ==> self.view_group().contains_key(#[trigger] r@[i])
                    && !connected@.contains(r@[i]),
            forall|k: i32|
                #[trigger] self.view_group().contains_key(k) && !connected@.contains(k)
                    ==> r@.contains(k),
    {
        let all = self.viewgroup_list();
        let mut r: Vec<i32> = Vec::new();
        let mut i: usize = 0;
        while i < all.len()
            invariant
                0 <= i <= all@.len(),
                lists_keys(self.view_group().dom(), all@),
                r@.no_duplicates(),
                forall|j: int|
                    0 <= j < r@.len() ==> self.view_group().contains_key(#[trigger] r@[j])
                        && !connected@.contains(r@[j]),
                forall|j: int| 0 <= j < r@.len() ==> exists|m: int| 0 <= m < i && all@[m] == #[trigger] r@[j],
                forall|m: int|
                    0 <= m < i && !connected@.contains(#[trigger] all@[m]) ==> r@.contains(all@[m]),
            decreases all@.len() - i,
        {
            let k = all[i];
            assert(all@.to_set().contains(all@[i as int]));
            let mut found = false;
            let mut j: usize = 0;
            while j < connected.len()
                invariant
                    0 <= j <= connected@.len(),
                    found == exists|m: int| 0 <= m < j && connected@[m] == k,
                decreases connected@.len() - j,
            {
                if connected[j] == k {
                    found = true;
                }
                j += 1;
            }
            if found {
                proof {
                    let m = choose|m: int| 0 <= m < j && connected@[m] == k;
                    assert(connected@.contains(k));
                }
            } else {
                assert(!connected@.contains(k)) by {
                    if connected@.contains(k) {
                        let m = choose|m: int| 0 <= m < connected@.len() && connected@[m] == k;
                        assert(exists|m: int| 0 <= m < j && connected@[m] == k);
                    }
                }
                let ghost before = r@;
                proof {
                    assert forall|a: int| 0 <= a < r@.len() implies r@[a] != k by {
                        let m = choose|m: int| 0 <= m < i && all@[m] == r@[a];
                        assert(all@[m] != all@[i as int]);
                    }
                }
                r.push(k);
                proof {
                    assert forall|a: int, b: int| 0 <= a < r@.len() && 0 <= b < r@.len() && a != b
                        implies r@[a] != r@[b] by {
                        if a < r@.len() - 1 && b < r@.len() - 1 {
                            assert(r@.drop_last()[a] != r@.drop_last()[b]);
                        }
                    }
                    assert(r@[r@.len() - 1] == all@[i as int]);
                    assert forall|m: int|
                        0 <= m <= i && !connected@.contains(#[trigger] all@[m]) implies r@.contains(
                        all@[m]) by {
                        if m < i {
                            let a = choose|a: int| 0 <= a < before.len() && before[a] == all@[m];
                            assert(r@[a] == all@[m]);
                        } else {
                            assert(r@[r@.len() - 1] == all@[m]);
                        }
                    }
                    assert forall|b: int| 0 <= b < r@.len() implies exists|m: int|
                        0 <= m < i + 1 && all@[m] == #[trigger] r@[b] by {
                        if b < r@.len() - 1 {
                            let m = choose|m: int| 0 <= m < i && all@[m] == before[b];
                            assert(all@[m] == r@[b]);
                        } else {
                            assert(all@[i as int] == r@[b]);
                        }
                    }
                }
            }
            i += 1;
        }
        proof {
            assert forall|k: i32|
                #[trigger] self.view_group().contains_key(k) && !connected@.contains(k)
                    implies r@.contains(k) by {
                assert(all@.to_set().contains(k));
                let m = choose|m: int| 0 <= m < all@.len() && all@[m] == k;
            }
        }
        r
    }
}

} // verus!
