//! What holds of the clocks, the delivery rule and the queue across calls.
use crate::clock::{
    clock_order, count_of, covers, deliverable, is_beyond, is_next_from, is_unknown,
    learned_clock, lists_entries, ClockOrder,
};
use crate::process::{be_bytes, drain, map_of, queue_insert};
use vstd::prelude::*;

verus! {

/// Every clock equals itself, and compares Equal with itself.
pub proof fn lemma_clock_reflexive(m: Map<i32, u32>)
    ensures
        covers(m, m),
        clock_order(m, m) == ClockOrder::Equal,
{
}

/// Two clocks compare Equal exactly when they are equal (`==`).
pub proof fn lemma_order_equal_iff_equal(a: Map<i32, u32>, b: Map<i32, u32>)
    ensures
        (clock_order(a, b) == ClockOrder::Equal) == covers(a, b),
{
    if covers(a, b) {
        assert(forall|k: i32| #[trigger] b.contains_key(k) ==> a.contains_key(k));
        assert(!exists|k: i32| #[trigger] b.contains_key(k) && a[k] > b[k]);
        assert(!exists|k: i32| #[trigger] b.contains_key(k) && a[k] < b[k]);
    }
    if clock_order(a, b) == ClockOrder::Equal {
        assert forall|k: i32| #[trigger] b.contains_key(k) implies a.contains_key(k) && a[k]
            == b[k] by {
            if a[k] > b[k] {
                assert(b.contains_key(k) && a[k] > b[k]);
            }
            if a[k] < b[k] {
                assert(b.contains_key(k) && a[k] < b[k]);
            }
        }
    }
}

/// Of two clocks over the same processes, the one that is nowhere behind
/// and somewhere ahead compares Greater, and the other compares Less.
pub proof fn lemma_order_dominance(a: Map<i32, u32>, b: Map<i32, u32>, k: i32)
    requires
        a.dom() == b.dom(),
        forall|j: i32| #[trigger] a.contains_key(j) ==> a[j] >= b[j],
        a.contains_key(k),
        a[k] > b[k],
    ensures
        clock_order(a, b) == ClockOrder::Greater,
        clock_order(b, a) == ClockOrder::Less,
{
    assert(b.contains_key(k) && a[k] > b[k]);
    assert forall|j: i32| #[trigger] a.contains_key(j) implies b.contains_key(j) by {
        assert(a.dom().contains(j));
    }
    assert forall|j: i32| #[trigger] b.contains_key(j) implies a.contains_key(j) by {
        assert(b.dom().contains(j));
    }
    assert(!exists|j: i32| #[trigger] a.contains_key(j) && b[j] > a[j]);
    assert(a.contains_key(k) && b[k] < a[k]);
}

/// The clock of a process whose next message, from process `s`, has been
/// counted (`own` with one more for `s`) is deliverable at a process `id`
/// other than `s` whose clock is `own`: at the receiver, nothing but that
/// one message is new.
pub proof fn lemma_next_message_deliverable(own: Map<i32, u32>, id: i32, s: i32)
    requires
        s != id,
        count_of(own, s) < u32::MAX,
    ensures
        deliverable(own, own.insert(s, (count_of(own, s) + 1) as u32), id),
{
    let other = own.insert(s, (count_of(own, s) + 1) as u32);
    assert forall|k: i32| !#[trigger] is_beyond(own, other, id, k) by {
        if k != s && own.contains_key(k) {
            assert(count_of(other, k) == own[k]);
        }
    }
    assert forall|k1: i32, k2: i32|
        #[trigger] is_next_from(own, other, id, k1) && #[trigger] is_next_from(own, other, id, k2)
            implies k1 == k2 by {
        if k1 != s && own.contains_key(k1) {
            assert(count_of(other, k1) == own[k1]);
        }
        if k2 != s && own.contains_key(k2) {
            assert(count_of(other, k2) == own[k2]);
        }
    }
    if own.contains_key(s) {
        assert(is_next_from(own, other, id, s));
        assert(!exists|k: i32| #[trigger] is_unknown(own, other, k));
    } else {
        assert(is_unknown(own, other, s));
        assert(!exists|k: i32| #[trigger] is_next_from(own, other, id, k));
    }
}

/// A message whose clock shows nothing new, such as a message seen twice,
/// is not deliverable.
pub proof fn lemma_nothing_new_not_deliverable(own: Map<i32, u32>, id: i32)
    ensures
        !deliverable(own, own, id),
{
    assert(!exists|k: i32| #[trigger] is_next_from(own, own, id, k));
    assert(!exists|k: i32| #[trigger] is_unknown(own, own, k));
}

/// A message that shows more than one unseen message from a known process
/// other than the receiver is not deliverable: one of them is missing.
pub proof fn lemma_missing_message_not_deliverable(
    own: Map<i32, u32>,
    other: Map<i32, u32>,
    id: i32,
    k: i32,
)
    requires
        own.contains_key(k),
        k != id,
        count_of(other, k) > own[k] + 1,
    ensures
        !deliverable(own, other, id),
{
    assert(is_beyond(own, other, id, k));
}

/// The delivery check forgets nothing: each count that the clock held, it
/// holds after, and it holds a count for every process that the delivered
/// message showed.
pub proof fn lemma_learned_clock_extends(own: Map<i32, u32>, other: Map<i32, u32>, id: i32)
    ensures
        forall|k: i32| #[trigger] own.contains_key(k) ==> learned_clock(own, other, id).contains_key(k)
            && learned_clock(own, other, id)[k] == own[k],
        deliverable(own, other, id) ==> forall|k: i32| #[trigger] other.contains_key(k)
            ==> learned_clock(own, other, id).contains_key(k),
{
    if deliverable(own, other, id) && exists|k: i32| #[trigger] is_unknown(own, other, k) {
        let u = choose|k: i32| #[trigger] is_unknown(own, other, k);
        assert forall|k: i32| #[trigger] other.contains_key(k) implies learned_clock(
            own,
            other,
            id,
        ).contains_key(k) by {
            if !own.contains_key(k) {
                assert(is_unknown(own, other, k));
            }
        }
    }
    if deliverable(own, other, id) && !exists|k: i32| #[trigger] is_unknown(own, other, k) {
        assert forall|k: i32| #[trigger] other.contains_key(k) implies own.contains_key(k) by {
            if !own.contains_key(k) {
                assert(is_unknown(own, other, k));
            }
        }
    }
}

/// Draining the queue forgets nothing either: each count that the clock
/// held, it holds after.
pub proof fn lemma_drain_extends(own: Map<i32, u32>, id: i32, q: Seq<(Map<i32, u32>, u32)>)
    ensures
        forall|k: i32| #[trigger] own.contains_key(k) ==> drain(own, id, q).0.contains_key(k)
            && drain(own, id, q).0[k] == own[k],
    decreases q.len(),
{
    if q.len() > 0 && deliverable(own, q[0].0, id) {
        let next = learned_clock(own, q[0].0, id);
        lemma_learned_clock_extends(own, q[0].0, id);
        lemma_drain_extends(next, id, q.drop_first());
        assert forall|k: i32| #[trigger] own.contains_key(k) implies drain(own, id, q).0.contains_key(k)
            && drain(own, id, q).0[k] == own[k] by {
            assert(next.contains_key(k));
        }
    }
}

/// Adding a member that was not in the view group and removing it again
/// gives the view group back.
pub proof fn lemma_viewgroup_add_remove<A>(group: Map<i32, A>, id: i32, addr: A)
    requires
        !group.contains_key(id),
    ensures
        group.insert(id, addr).remove(id) == group,
{
    assert(group.insert(id, addr).remove(id) =~= group);
}

/// The entries that a clock lists give back that clock.
pub proof fn lemma_map_of_lists_entries(m: Map<i32, u32>, s: Seq<(i32, u32)>)
    requires
        lists_entries(m, s),
    ensures
        map_of(s) == m,
    decreases s.len(),
{
    if s.len() == 0 {
        assert(m.dom() =~= Set::<i32>::empty()) by {
            assert forall|k: i32| !m.contains_key(k) by {
                if m.contains_key(k) {
                    let i = choose|i: int| 0 <= i < s.len() && s[i].0 == k;
                }
            }
        }
        assert(m =~= Map::<i32, u32>::empty());
    } else {
        let last = s.last();
        let rest = s.drop_last();
        let m0 = m.remove(last.0);
        assert(m.contains_key(s[s.len() - 1].0));
        assert(lists_entries(m0, rest)) by {
            assert forall|i: int| 0 <= i < rest.len() implies #[trigger] m0.contains_key(rest[i].0)
                && m0[rest[i].0] == rest[i].1 by {
                assert(m.contains_key(s[i].0));
                assert(s[i].0 != s[s.len() - 1].0);
            }
            assert forall|k: i32| #[trigger] m0.contains_key(k) implies exists|i: int|
                0 <= i < rest.len() && rest[i].0 == k by {
                let i = choose|i: int| 0 <= i < s.len() && s[i].0 == k;
                assert(i != s.len() - 1);
                assert(rest[i].0 == k);
            }
            assert forall|i: int, j: int| 0 <= i < j < rest.len() implies rest[i].0 != rest[j].0 by {
                assert(s[i].0 != s[j].0);
            }
        }
        lemma_map_of_lists_entries(m0, rest);
        assert(m0.insert(last.0, last.1) =~= m);
    }
}

/// Causal delivery: when the sender `sid` broadcasts a message (its clock
/// counting one more for itself, its entries listed in `entries`) and the
/// receiver `rid`, another process, has seen all that the sender had seen
/// (its clock `own` was the sender's clock before the broadcast), the
/// message is deliverable at the receiver.
pub proof fn lemma_broadcast_deliverable(
    own: Map<i32, u32>,
    entries: Seq<(i32, u32)>,
    sid: i32,
    rid: i32,
)
    requires
        sid != rid,
        count_of(own, sid) < u32::MAX,
        lists_entries(own.insert(sid, (count_of(own, sid) + 1) as u32), entries),
    ensures
        deliverable(own, map_of(entries), rid),
{
    lemma_map_of_lists_entries(own.insert(sid, (count_of(own, sid) + 1) as u32), entries);
    lemma_next_message_deliverable(own, rid, sid);
}

/// A queue whose first message is not deliverable stays as it is, and so
/// does the clock; nothing is delivered.
pub proof fn lemma_blocked_queue_waits(own: Map<i32, u32>, id: i32, q: Seq<(Map<i32, u32>, u32)>)
    requires
        q.len() > 0,
        !deliverable(own, q[0].0, id),
    ensures
        drain(own, id, q) == (own, q, Seq::<u32>::empty()),
{
}

/// Draining goes as far as it can: when messages remain, the first of them
/// is not deliverable at the clock that draining leaves.
pub proof fn lemma_drain_stops_at_blocked(own: Map<i32, u32>, id: i32, q: Seq<(Map<i32, u32>, u32)>)
    ensures
        drain(own, id, q).1.len() > 0 ==> !deliverable(drain(own, id, q).0, drain(own, id, q).1[0].0, id),
    decreases q.len(),
{
    if q.len() > 0 && deliverable(own, q[0].0, id) {
        lemma_drain_stops_at_blocked(learned_clock(own, q[0].0, id), id, q.drop_first());
    }
}

/// Every message that draining takes off the queue is delivered: the
/// delivered data are those of the taken messages, in queue order.
pub proof fn lemma_drain_delivers(own: Map<i32, u32>, id: i32, q: Seq<(Map<i32, u32>, u32)>)
    ensures
        drain(own, id, q).2.len() + drain(own, id, q).1.len() == q.len(),
        forall|i: int| 0 <= i < drain(own, id, q).2.len() ==> #[trigger] drain(own, id, q).2[i] == q[i].1,
    decreases q.len(),
{
    if q.len() > 0 && deliverable(own, q[0].0, id) {
        let next = learned_clock(own, q[0].0, id);
        lemma_drain_delivers(next, id, q.drop_first());
        let d = drain(own, id, q).2;
        let t = drain(next, id, q.drop_first()).2;
        assert forall|i: int| 0 <= i < d.len() implies #[trigger] d[i] == q[i].1 by {
            if i > 0 {
                assert(d[i] == t[i - 1]);
            }
        }
    }
}

/// Draining takes messages off the front of the queue only: what remains is
/// the end of the queue, in the same order.
pub proof fn lemma_drain_keeps_suffix(own: Map<i32, u32>, id: i32, q: Seq<(Map<i32, u32>, u32)>)
    ensures
        drain(own, id, q).1.len() <= q.len(),
        drain(own, id, q).1 == q.skip(q.len() - drain(own, id, q).1.len()),
    decreases q.len(),
{
    if q.len() > 0 && deliverable(own, q[0].0, id) {
        lemma_drain_keeps_suffix(learned_clock(own, q[0].0, id), id, q.drop_first());
        let r = drain(learned_clock(own, q[0].0, id), id, q.drop_first()).1;
        assert(q.drop_first().skip(q.drop_first().len() - r.len()) =~= q.skip(q.len() - r.len()));
    } else {
        assert(q.skip(0) =~= q);
    }
}

/// A message that joins the queue is in it afterwards, with its data: as a
/// new entry, or in place of the data of an entry with an Equal clock.
pub proof fn lemma_queue_insert_holds(q: Seq<(Map<i32, u32>, u32)>, c: Map<i32, u32>, d: u32)
    ensures
        exists|i: int|
            0 <= i < queue_insert(q, c, d).len() && #[trigger] queue_insert(q, c, d)[i].1 == d
                && (queue_insert(q, c, d)[i].0 == c || clock_order(c, queue_insert(q, c, d)[i].0)
                == ClockOrder::Equal),
        queue_insert(q, c, d).len() == q.len() || queue_insert(q, c, d).len() == q.len() + 1,
    decreases q.len(),
{
    let r = queue_insert(q, c, d);
    if q.len() == 0 {
        assert(r[0].1 == d && r[0].0 == c);
    } else {
        match clock_order(c, q[0].0) {
            ClockOrder::Less => {
                assert(r[0].1 == d && r[0].0 == c);
            },
            ClockOrder::Equal => {
                assert(r[0].1 == d && clock_order(c, r[0].0) == ClockOrder::Equal);
            },
            ClockOrder::Greater => {
                lemma_queue_insert_holds(q.drop_first(), c, d);
                let t = queue_insert(q.drop_first(), c, d);
                let i = choose|i: int|
                    0 <= i < t.len() && #[trigger] t[i].1 == d && (t[i].0 == c || clock_order(
                        c,
                        t[i].0,
                    ) == ClockOrder::Equal);
                assert(r[i + 1] == t[i]);
            },
        }
    }
}

/// A message whose counts for the other known processes are at or below
/// the receiver's is still the sender's next message: lowering the count of
/// a known process `k` (neither the receiver nor the sender) in the sender's
/// next message to at most the receiver's count keeps it deliverable. Only a
/// count more than one above the receiver's holds a message back.
pub proof fn lemma_lower_count_still_deliverable(own: Map<i32, u32>, id: i32, s: i32, k: i32, c: u32)
    requires
        s != id,
        k != s,
        k != id,
        own.contains_key(k),
        c <= own[k],
        count_of(own, s) < u32::MAX,
    ensures
        deliverable(own, own.insert(s, (count_of(own, s) + 1) as u32).insert(k, c), id),
{
    let other = own.insert(s, (count_of(own, s) + 1) as u32).insert(k, c);
    assert forall|j: i32| !#[trigger] is_beyond(own, other, id, j) by {
        if j != s && j != k && own.contains_key(j) {
            assert(count_of(other, j) == own[j]);
        }
    }
    assert forall|k1: i32, k2: i32|
        #[trigger] is_next_from(own, other, id, k1) && #[trigger] is_next_from(own, other, id, k2)
            implies k1 == k2 by {
        if k1 != s && k1 != k && own.contains_key(k1) {
            assert(count_of(other, k1) == own[k1]);
        }
        if k2 != s && k2 != k && own.contains_key(k2) {
            assert(count_of(other, k2) == own[k2]);
        }
    }
    assert forall|j: i32| #[trigger] is_unknown(own, other, j) implies j == s by {
    }
    if own.contains_key(s) {
        assert(is_next_from(own, other, id, s));
        assert(!exists|j: i32| #[trigger] is_unknown(own, other, j));
    } else {
        assert(is_unknown(own, other, s));
        assert(!exists|j: i32| #[trigger] is_next_from(own, other, id, j));
    }
}

/// A deliverable message is nowhere more than one message ahead of the
/// receiver on a process that the receiver knows, other than itself.
pub proof fn lemma_deliverable_no_gap(own: Map<i32, u32>, other: Map<i32, u32>, id: i32, k: i32)
    requires
        deliverable(own, other, id),
        own.contains_key(k),
        k != id,
    ensures
        count_of(other, k) <= own[k] + 1,
{
    assert(!is_beyond(own, other, id, k));
}

/// A clock that lacks a process known to the other clock compares Less.
pub proof fn lemma_order_missing_process_less(a: Map<i32, u32>, b: Map<i32, u32>, k: i32)
    requires
        b.contains_key(k),
        !a.contains_key(k),
    ensures
        clock_order(a, b) == ClockOrder::Less,
{
}

/// A clock that knows every process of the other clock compares by the
/// counts of those processes: Greater when it is ahead on one of them, Less
/// when it is behind on one and ahead on none, Equal when all agree.
pub proof fn lemma_order_on_known_processes(a: Map<i32, u32>, b: Map<i32, u32>)
    requires
        forall|k: i32| #[trigger] b.contains_key(k) ==> a.contains_key(k),
    ensures
        (exists|k: i32| #[trigger] b.contains_key(k) && a[k] > b[k]) ==> clock_order(a, b)
            == ClockOrder::Greater,
        (!exists|k: i32| #[trigger] b.contains_key(k) && a[k] > b[k]) && (exists|k: i32|
            #[trigger] b.contains_key(k) && a[k] < b[k]) ==> clock_order(a, b) == ClockOrder::Less,
        (forall|k: i32| #[trigger] b.contains_key(k) ==> a[k] == b[k]) ==> clock_order(a, b)
            == ClockOrder::Equal,
{
    if forall|k: i32| #[trigger] b.contains_key(k) ==> a[k] == b[k] {
        assert(!exists|k: i32| #[trigger] b.contains_key(k) && a[k] > b[k]);
        assert(!exists|k: i32| #[trigger] b.contains_key(k) && a[k] < b[k]);
    }
}

/// Two clocks are equal exactly when every process of the second is known
/// to the first with the same count.
pub proof fn lemma_equal_means_same_counts(a: Map<i32, u32>, b: Map<i32, u32>)
    ensures
        covers(a, b) == (forall|k: i32| #[trigger] b.contains_key(k) ==> a.contains_key(k) && a[k] == b[k]),
        covers(a, b) ==> b.dom().subset_of(a.dom()),
{
}

/// A waiting message goes before every queued message whose clock it
/// orders Less than, unless an earlier queued message has a clock it orders
/// Equal to (that one takes the data instead).
pub proof fn lemma_queue_insert_before_greater(
    q: Seq<(Map<i32, u32>, u32)>,
    c: Map<i32, u32>,
    d: u32,
    i: int,
)
    requires
        0 <= i < q.len(),
        clock_order(c, q[i].0) == ClockOrder::Less,
        forall|j: int| 0 <= j < i ==> clock_order(c, #[trigger] q[j].0) != ClockOrder::Equal,
    ensures
        exists|p: int, p2: int|
            0 <= p < p2 < queue_insert(q, c, d).len() && #[trigger] queue_insert(q, c, d)[p] == (c, d)
                && #[trigger] queue_insert(q, c, d)[p2] == q[i],
    decreases q.len(),
{
    let r = queue_insert(q, c, d);
    match clock_order(c, q[0].0) {
        ClockOrder::Less => {
            assert(r[0] == (c, d));
            assert(r[i + 1] == q[i]);
        },
        ClockOrder::Equal => {
            assert(i == 0);
        },
        ClockOrder::Greater => {
            assert(i > 0);
            let t = q.drop_first();
            assert(t[i - 1] == q[i]);
            assert forall|j: int| 0 <= j < i - 1 implies clock_order(c, #[trigger] t[j].0)
                != ClockOrder::Equal by {
                assert(t[j] == q[j + 1]);
            }
            lemma_queue_insert_before_greater(t, c, d, i - 1);
            let (p, p2) = choose|p: int, p2: int|
                0 <= p < p2 < queue_insert(t, c, d).len() && #[trigger] queue_insert(t, c, d)[p]
                    == (c, d) && #[trigger] queue_insert(t, c, d)[p2] == t[i - 1];
            assert(r[p + 1] == (c, d));
            assert(r[p2 + 1] == q[i]);
        },
    }
}

/// The queued messages whose clocks the waiting message orders Greater
/// than, up to the first one that it does not, stay ahead of it.
pub proof fn lemma_queue_insert_after_lesser(q: Seq<(Map<i32, u32>, u32)>, c: Map<i32, u32>, d: u32, i: int)
    requires
        0 <= i < q.len(),
        forall|j: int| 0 <= j <= i ==> clock_order(c, #[trigger] q[j].0) == ClockOrder::Greater,
    ensures
        queue_insert(q, c, d).take(i + 1) == q.take(i + 1),
    decreases q.len(),
{
    let r = queue_insert(q, c, d);
    assert(clock_order(c, q[0].0) == ClockOrder::Greater);
    if i > 0 {
        let t = q.drop_first();
        assert forall|j: int| 0 <= j <= i - 1 implies clock_order(c, #[trigger] t[j].0)
            == ClockOrder::Greater by {
            assert(t[j] == q[j + 1]);
        }
        lemma_queue_insert_after_lesser(t, c, d, i - 1);
        lemma_queue_insert_holds(t, c, d);
        assert(r == seq![q[0]] + queue_insert(t, c, d));
        assert(queue_insert(t, c, d).take(i) == t.take(i));
        assert forall|j: int| 0 <= j < i + 1 implies #[trigger] r.take(i + 1)[j] == q.take(i + 1)[j] by {
            if j > 0 {
                assert(r[j] == queue_insert(t, c, d)[j - 1]);
                assert(queue_insert(t, c, d).take(i)[j - 1] == t.take(i)[j - 1]);
            }
        }
        assert(r.take(i + 1) =~= q.take(i + 1));
    } else {
        lemma_queue_insert_holds(q.drop_first(), c, d);
        assert(r == seq![q[0]] + queue_insert(q.drop_first(), c, d));
        assert(r.take(1) =~= q.take(1));
    }
}

/// The four bytes that a read returns give back the data, most significant
/// byte first.
pub proof fn lemma_be_bytes_give_back(d: u32)
    ensures
        be_bytes(d).len() == 4,
        be_bytes(d)[0] * 0x100_0000 + be_bytes(d)[1] * 0x1_0000 + be_bytes(d)[2] * 0x100
            + be_bytes(d)[3] == d,
{
    let b0 = d / 0x100_0000;
    let b1 = (d / 0x1_0000) % 0x100;
    let b2 = (d / 0x100) % 0x100;
    let b3 = d % 0x100;
    assert(b0 < 0x100) by (nonlinear_arith)
        requires
            b0 == d / 0x100_0000,
            d < 0x1_0000_0000,
    ;
    assert(b0 * 0x100_0000 + b1 * 0x1_0000 + b2 * 0x100 + b3 == d) by (nonlinear_arith)
        requires
            b0 == d / 0x100_0000,
            b1 == (d / 0x1_0000) % 0x100,
            b2 == (d / 0x100) % 0x100,
            b3 == d % 0x100,
    ;
    assert(be_bytes(d)[0] == b0);
    assert(be_bytes(d)[1] == b1);
    assert(be_bytes(d)[2] == b2);
    assert(be_bytes(d)[3] == b3);
}

/// A message that is one ahead on two known processes (neither the
/// receiver) is not deliverable: it depends on a message not yet seen.
pub proof fn lemma_two_next_not_deliverable(
    own: Map<i32, u32>,
    other: Map<i32, u32>,
    id: i32,
    k1: i32,
    k2: i32,
)
    requires
        k1 != k2,
        k1 != id,
        k2 != id,
        own.contains_key(k1),
        own.contains_key(k2),
        count_of(other, k1) == own[k1] + 1,
        count_of(other, k2) == own[k2] + 1,
    ensures
        !deliverable(own, other, id),
{
    assert(is_next_from(own, other, id, k1));
    assert(is_next_from(own, other, id, k2));
}

/// A message that brings an unknown process with a count above 1, or two
/// unknown processes, or an unknown process together with one more message
/// from a known one, is not deliverable.
pub proof fn lemma_unknown_process_limits(
    own: Map<i32, u32>,
    other: Map<i32, u32>,
    id: i32,
    u: i32,
    k: i32,
)
    requires
        other.contains_key(u),
        !own.contains_key(u),
    ensures
        other[u] > 1 ==> !deliverable(own, other, id),
        (k != u && other.contains_key(k) && !own.contains_key(k)) ==> !deliverable(own, other, id),
        (own.contains_key(k) && k != id && count_of(other, k) == own[k] + 1) ==> !deliverable(
            own,
            other,
            id,
        ),
{
    assert(is_unknown(own, other, u));
    if k != u && other.contains_key(k) && !own.contains_key(k) {
        assert(is_unknown(own, other, k));
    }
    if own.contains_key(k) && k != id && count_of(other, k) == own[k] + 1 {
        assert(is_next_from(own, other, id, k));
    }
}

/// The delivery check changes the clock only by learning the process that
/// a delivered message brings: a deliverable message with an unknown
/// process `u` adds `u` with the message's count; otherwise the clock stays.
pub proof fn lemma_learned_clock_exact(own: Map<i32, u32>, other: Map<i32, u32>, id: i32, u: i32)
    ensures
        deliverable(own, other, id) && other.contains_key(u) && !own.contains_key(u) ==> learned_clock(
            own,
            other,
            id,
        ) == own.insert(u, other[u]),
        !deliverable(own, other, id) ==> learned_clock(own, other, id) == own,
        (forall|k: i32| #[trigger] other.contains_key(k) ==> own.contains_key(k)) ==> learned_clock(
            own,
            other,
            id,
        ) == own,
{
    if deliverable(own, other, id) && other.contains_key(u) && !own.contains_key(u) {
        assert(is_unknown(own, other, u));
        let k = choose|k: i32| #[trigger] is_unknown(own, other, k);
        assert(k == u);
    }
    if forall|k: i32| #[trigger] other.contains_key(k) ==> own.contains_key(k) {
        assert(!exists|k: i32| #[trigger] is_unknown(own, other, k));
    }
}

/// The counts that a list of entries gives: a process is there exactly when
/// some entry names it, and its count is that of the last entry naming it.
pub proof fn lemma_map_of_last_entry_wins(s: Seq<(i32, u32)>, i: int)
    requires
        0 <= i < s.len(),
        forall|j: int| i < j < s.len() ==> #[trigger] s[j].0 != s[i].0,
    ensures
        map_of(s).contains_key(s[i].0),
        map_of(s)[s[i].0] == s[i].1,
    decreases s.len(),
{
    if i < s.len() - 1 {
        let t = s.drop_last();
        assert forall|j: int| i < j < t.len() implies #[trigger] t[j].0 != t[i].0 by {
            assert(t[j] == s[j]);
        }
        lemma_map_of_last_entry_wins(t, i);
        assert(s.last().0 != s[i].0);
    }
}

/// A process that no entry names has no count.
pub proof fn lemma_map_of_unnamed(s: Seq<(i32, u32)>, k: i32)
    requires
        forall|j: int| 0 <= j < s.len() ==> #[trigger] s[j].0 != k,
    ensures
        !map_of(s).contains_key(k),
    decreases s.len(),
{
    if s.len() > 0 {
        let t = s.drop_last();
        assert forall|j: int| 0 <= j < t.len() implies #[trigger] t[j].0 != k by {
            assert(t[j] == s[j]);
        }
        lemma_map_of_unnamed(t, k);
        assert(s[s.len() - 1].0 != k);
    }
}

/// Each message that draining delivers leaves its processes known to the
/// clock: the clock after draining knows every process of a delivered
/// message's clock.
pub proof fn lemma_drain_learns(own: Map<i32, u32>, id: i32, q: Seq<(Map<i32, u32>, u32)>, i: int)
    requires
        0 <= i < drain(own, id, q).2.len(),
    ensures
        forall|k: i32| #[trigger] q[i].0.contains_key(k) ==> drain(own, id, q).0.contains_key(k),
    decreases q.len(),
{
    lemma_drain_delivers(own, id, q);
    assert(q.len() > 0 && deliverable(own, q[0].0, id));
    let next = learned_clock(own, q[0].0, id);
    lemma_learned_clock_extends(own, q[0].0, id);
    lemma_drain_extends(next, id, q.drop_first());
    assert(drain(own, id, q).2 == seq![q[0].1] + drain(next, id, q.drop_first()).2);
    if i > 0 {
        lemma_drain_learns(next, id, q.drop_first(), i - 1);
        assert(q.drop_first()[i - 1] == q[i]);
    } else {
        assert forall|k: i32| #[trigger] q[0].0.contains_key(k) implies drain(own, id, q).0.contains_key(
            k,
        ) by {
            assert(next.contains_key(k));
        }
    }
}

} // verus!
