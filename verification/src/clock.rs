use std::collections::HashMap;
use crate::render::{clock_text, entries_to_string};
use vstd::prelude::*;
use vstd::std_specs::iter::IteratorSpec;

verus! {

broadcast use vstd::std_specs::hash::group_hash_axioms;

/// A vector clock of the process `id`: for each process id, the number of
/// its messages that this process has seen.
pub struct CbcastClock {
    vc: HashMap<i32, u32>,
    id: i32,
}

impl View for CbcastClock {
    type V = Map<i32, u32>;

    closed spec fn view(&self) -> Map<i32, u32> {
        self.vc@
    }
}

/// The count that `m` holds for `k`, or 0 where it holds none.
pub open spec fn count_of(m: Map<i32, u32>, k: i32) -> u32 {
    if m.contains_key(k) {
        m[k]
    } else {
        0
    }
}

/// What a map answers to an insertion of `k`: the value that it held for `k`, if any.
pub open spec fn previous_value(m: Map<i32, u32>, k: i32) -> Option<u32> {
    if m.contains_key(k) {
        Some(m[k])
    } else {
        None
    }
}

/// `other` shows exactly one more message from process `k` than `own` has
/// seen, where `k` is a process that `own` knows and not its owner `id`.
pub open spec fn is_next_from(own: Map<i32, u32>, other: Map<i32, u32>, id: i32, k: i32) -> bool {
    own.contains_key(k) && k != id && count_of(other, k) == own[k] + 1
}

/// `other` shows more than one message from process `k` that `own` has not
/// seen, where `k` is a process that `own` knows and not its owner `id`.
pub open spec fn is_beyond(own: Map<i32, u32>, other: Map<i32, u32>, id: i32, k: i32) -> bool {
    own.contains_key(k) && k != id && count_of(other, k) > own[k] + 1
}

/// `other` has a count for process `k`, which `own` does not know.
pub open spec fn is_unknown(own: Map<i32, u32>, other: Map<i32, u32>, k: i32) -> bool {
    other.contains_key(k) && !own.contains_key(k)
}

/// The delivery rule: a message stamped `other` may be delivered at the
/// process `id` whose clock is `own` when `other` is nowhere more than one
/// message ahead of `own`, and it brings exactly one new thing: either one
/// more message from one known process, or a single unknown process with a
/// count of at most 1. The owner's own entry is not compared.
pub open spec fn deliverable(own: Map<i32, u32>, other: Map<i32, u32>, id: i32) -> bool {
    &&& forall|k: i32| !#[trigger] is_beyond(own, other, id, k)
    &&& forall|k1: i32, k2: i32|
        #[trigger] is_next_from(own, other, id, k1) && #[trigger] is_next_from(own, other, id, k2)
            ==> k1 == k2
    &&& forall|k1: i32, k2: i32|
        #[trigger] is_unknown(own, other, k1) && #[trigger] is_unknown(own, other, k2) ==> k1 == k2
    &&& forall|k: i32| #[trigger] is_unknown(own, other, k) ==> other[k] <= 1
    &&& (exists|k: i32| #[trigger] is_next_from(own, other, id, k)) != (exists|k: i32|
        #[trigger] is_unknown(own, other, k))
}

/// The clock after the delivery check: a delivered message from an unknown
/// process adds that process with the message's count; otherwise nothing changes.
pub open spec fn learned_clock(own: Map<i32, u32>, other: Map<i32, u32>, id: i32) -> Map<i32, u32> {
    if deliverable(own, other, id) && exists|k: i32| #[trigger] is_unknown(own, other, k) {
        let k = choose|k: i32| #[trigger] is_unknown(own, other, k);
        own.insert(k, other[k])
    } else {
        own
    }
}

/// `own` agrees with every count of `other`: each process that `other` knows,
/// `own` knows with the same count.
pub open spec fn covers(own: Map<i32, u32>, other: Map<i32, u32>) -> bool {
    forall|k: i32| #[trigger] other.contains_key(k) ==> own.contains_key(k) && own[k] == other[k]
}

/// The outcome of comparing two clocks.
#[derive(Clone, Copy, Debug, PartialEq, Eq, Structural)]
pub enum ClockOrder {
    Less,
    Equal,
    Greater,
}

/// How the clock `own` compares with `other`, over the processes that both
/// know. `own` is Less where `other` knows a process that `own` does not;
/// otherwise it is Greater where it is ahead on some process, Less where it is
/// behind on some process and on none ahead, and Equal where the counts agree.
pub open spec fn clock_order(own: Map<i32, u32>, other: Map<i32, u32>) -> ClockOrder {
    if !(forall|k: i32| #[trigger] other.contains_key(k) ==> own.contains_key(k)) {
        ClockOrder::Less
    } else if exists|k: i32| #[trigger] other.contains_key(k) && own[k] > other[k] {
        ClockOrder::Greater
    } else if exists|k: i32| #[trigger] other.contains_key(k) && own[k] < other[k] {
        ClockOrder::Less
    } else {
        ClockOrder::Equal
    }
}

/// The clocks are concurrent: on the processes that both know, each is
/// ahead of the other somewhere, so neither comes before the other.
pub open spec fn concurrent(own: Map<i32, u32>, other: Map<i32, u32>) -> bool {
    &&& exists|k: i32| #[trigger] other.contains_key(k) && own.contains_key(k) && own[k] > other[k]
    &&& exists|k: i32| #[trigger] other.contains_key(k) && own.contains_key(k) && own[k] < other[k]
}

/// `s` lists the entries of `m`, each once.
pub open spec fn lists_entries(m: Map<i32, u32>, s: Seq<(i32, u32)>) -> bool {
    &&& m.dom().finite()
    &&& s.len() == m.len()
    &&& forall|i: int| 0 <= i < s.len() ==> #[trigger] m.contains_key(s[i].0) && m[s[i].0] == s[i].1
    &&& forall|k: i32| #[trigger] m.contains_key(k) ==> exists|i: int| 0 <= i < s.len() && s[i].0 == k
    &&& forall|i: int, j: int| 0 <= i < j < s.len() ==> s[i].0 != s[j].0
}

/// The order in which a walk over `m` visits its entries.
pub open spec fn walk_of(m: &HashMap<i32, u32>) -> Seq<(i32, u32)> {
    vstd::std_specs::hash::into_iter(vstd::std_specs::hash::spec_hash_map_iter(m))
}

/// The entries of `m`, in the order of a walk over them.
pub(crate) fn map_entries(m: &HashMap<i32, u32>) -> (v: Vec<(i32, u32)>)
    ensures
        v@ == walk_of(m),
        lists_entries(m@, v@),
{
    let mut v: Vec<(i32, u32)> = Vec::new();
    let iter = m.iter();
    let ghost r = iter.remaining();
    assert(r.no_duplicates());
    for p in it: iter
        invariant
            v@ == it.seq().take(it.index() as int).map_values(|p: (&i32, &u32)| (*p.0, *p.1)),
    {
        v.push((*p.0, *p.1));
    }
    assert(v@ == r.unref());
    assert(v@ == walk_of(m));
    proof {
        let m = m@;
        assert(r.len() == m.dom().len());
        assert forall|i: int| 0 <= i < v@.len() implies #[trigger] m.contains_key(v@[i].0)
            && m[v@[i].0] == v@[i].1 by {
            assert(m.contains_key(*r[i].0) && m[*r[i].0] == *r[i].1);
        }
        assert forall|k: i32| #[trigger] m.contains_key(k) implies exists|i: int|
            0 <= i < v@.len() && v@[i].0 == k by {
            assert(r.contains((&k, &m[k])));
            let i = choose|i: int| 0 <= i < r.len() && r[i] == (&k, &m[k]);
            assert(v@[i].0 == k);
        }
        assert forall|i: int, j: int| 0 <= i < j < v@.len() implies v@[i].0 != v@[j].0 by {
            assert(m.contains_key(*r[i].0) && m[*r[i].0] == *r[i].1);
            assert(m.contains_key(*r[j].0) && m[*r[j].0] == *r[j].1);
            if v@[i].0 == v@[j].0 {
                assert(r[i] == r[j]);
            }
        }
    }
    v
}

/// A process met again in a walk that lists each process once has not been
/// seen before.
proof fn lemma_seen_step(s: Seq<(i32, u32)>, i: int, seen: Set<i32>, other: Map<i32, u32>)
    requires
        0 <= i < s.len(),
        forall|a: int, b: int| 0 <= a < b < s.len() ==> s[a].0 != s[b].0,
        forall|k: i32| #[trigger] seen.contains(k) <==> (other.contains_key(k) && exists|j: int|
            0 <= j < i && #[trigger] s[j].0 == k),
    ensures
        !seen.contains(s[i].0),
{
    if seen.contains(s[i].0) {
        let j = choose|j: int| 0 <= j < i && #[trigger] s[j].0 == s[i].0;
        assert(s[j].0 != s[i].0);
    }
}

/// After a walk over `own`, the processes of `other` met in it are as many
/// as `other` has exactly when `other` knows no process that `own` does not.
proof fn lemma_seen_complete(own: Map<i32, u32>, other: Map<i32, u32>, s: Seq<(i32, u32)>, seen: Set<i32>)
    requires
        lists_entries(own, s),
        other.dom().finite(),
        seen.finite(),
        forall|k: i32| #[trigger] seen.contains(k) <==> (other.contains_key(k) && exists|j: int|
            0 <= j < s.len() && #[trigger] s[j].0 == k),
    ensures
        (seen.len() == other.len()) == (forall|k: i32| #[trigger] other.contains_key(k) ==> own.contains_key(k)),
{
    assert(seen.subset_of(other.dom()));
    if forall|k: i32| #[trigger] other.contains_key(k) ==> own.contains_key(k) {
        assert forall|k: i32| other.contains_key(k) implies #[trigger] seen.contains(k) by {
            assert(own.contains_key(k));
            let j = choose|j: int| 0 <= j < s.len() && s[j].0 == k;
        }
        assert(seen =~= other.dom());
    }
    if seen.len() == other.len() {
        vstd::set_lib::lemma_subset_equality(seen, other.dom());
        assert forall|k: i32| #[trigger] other.contains_key(k) implies own.contains_key(k) by {
            assert(seen.contains(k));
            let j = choose|j: int| 0 <= j < s.len() && s[j].0 == k;
            assert(own.contains_key(s[j].0));
        }
    }
}

impl CbcastClock {
    /// The process that owns this clock.
    pub closed spec fn owner(&self) -> i32 {
        self.id
    }

    /// The order in which a walk over the entries of this clock visits them.
    pub closed spec fn walk(&self) -> Seq<(i32, u32)> {
        walk_of(&self.vc)
    }

    /// An empty clock owned by process `id`.
    pub fn new(id: i32) -> (c: Self)
        ensures
            c@ == Map::<i32, u32>::empty(),
            c.owner() == id,
    {
        CbcastClock { vc: HashMap::new(), id }
    }

    /// A clock owned by process `id` whose counts are those of `hmap`.
    pub fn from_map(id: i32, hmap: HashMap<i32, u32>) -> (c: Self)
        ensures
            c@ == hmap@,
            c.owner() == id,
    {
        CbcastClock { vc: hmap, id }
    }

    /// Sets the count of process `k` to `v`; returns the count it replaced.
    pub fn insert(&mut self, k: i32, v: u32) -> (r: Option<u32>)
        ensures
            final(self)@ == old(self)@.insert(k, v),
            final(self).owner() == old(self).owner(),
            r == previous_value(old(self)@, k),
    {
        self.vc.insert(k, v)
    }

    /// Counts one more message of the owner; returns the count it replaced.
    pub fn increment(&mut self) -> (r: Option<u32>)
        requires
            count_of(old(self)@, old(self).owner()) < u32::MAX,
        ensures
            final(self)@ == old(self)@.insert(
                old(self).owner(),
                (count_of(old(self)@, old(self).owner()) + 1) as u32,
            ),
            final(self).owner() == old(self).owner(),
            r == previous_value(old(self)@, old(self).owner()),
    {
        let k = self.id;
        let val: u32 = match self.vc.get(&k) {
            Some(x) => *x,
            None => 0,
        };
        self.vc.insert(k, val + 1)
    }

    /// Decides whether a message stamped `other` can be delivered now, by the
    /// rule `deliverable`; a delivered message from an unknown process makes
    /// the process known (`learned_clock`).
    pub fn is_deliverable(&mut self, other: &CbcastClock) -> (r: bool)
        requires
            forall|k: i32|
                old(self)@.contains_key(k) && k != old(self).owner() ==> #[trigger] old(self)@[k]
                    < u32::MAX,
        ensures
            r == deliverable(old(self)@, other@, old(self).owner()),
            final(self)@ == learned_clock(old(self)@, other@, old(self).owner()),
            final(self).owner() == old(self).owner(),
    {
        // The entries are visited in the order of a walk; the outcome does not
        // depend on that order, which is why the contract is stated over maps.
        let ghost own = self@;
        let ghost theirs = other@;
        let ghost id = self.id;
        let mut incr_condition: Option<i32> = None;
        let s_vec = self.into_vec();
        let mut i: usize = 0;
        while i < s_vec.len()
            invariant
                0 <= i <= s_vec@.len(),
                lists_entries(own, s_vec@),
                self@ == own,
                self.id == id,
                other@ == theirs,
                forall|k: i32| own.contains_key(k) && k != id ==> #[trigger] own[k] < u32::MAX,
                forall|j: int| 0 <= j < i ==> !is_beyond(own, theirs, id, #[trigger] s_vec@[j].0),
                incr_condition is None ==> forall|j: int|
                    0 <= j < i ==> !is_next_from(own, theirs, id, #[trigger] s_vec@[j].0),
                incr_condition is Some ==> {
                    &&& is_next_from(own, theirs, id, incr_condition->0)
                    &&& exists|j: int| 0 <= j < i && #[trigger] s_vec@[j].0 == incr_condition->0
                    &&& forall|j: int|
                        0 <= j < i && is_next_from(own, theirs, id, #[trigger] s_vec@[j].0)
                            ==> s_vec@[j].0 == incr_condition->0
                },
            decreases s_vec@.len() - i,
        {
            let (k, v) = s_vec[i];
            assert(own.contains_key(k) && own[k] == v);
            if k == self.id {
                i += 1;
                continue;
            }
            let other_val: u32 = match other.vc.get(&k) {
                Some(x) => *x,
                None => 0,
            };
            assert(other_val == count_of(theirs, k));
            if other_val == v + 1 && incr_condition.is_none() {
                incr_condition = Some(k);
            } else if other_val > v {
                proof {
                    if other_val > v + 1 {
                        assert(is_beyond(own, theirs, id, k));
                    } else {
                        let k0 = incr_condition->0;
                        let j0 = choose|j: int| 0 <= j < i && #[trigger] s_vec@[j].0 == k0;
                        assert(s_vec@[j0].0 != s_vec@[i as int].0);
                        assert(is_next_from(own, theirs, id, k0));
                        assert(is_next_from(own, theirs, id, k));
                    }
                }
                return false;
            }
            i += 1;
        }
        let ghost bumped = incr_condition is Some;
        proof {
            assert forall|k: i32| !#[trigger] is_beyond(own, theirs, id, k) by {
                if own.contains_key(k) {
                    let j = choose|j: int| 0 <= j < s_vec@.len() && s_vec@[j].0 == k;
                    assert(!is_beyond(own, theirs, id, s_vec@[j].0));
                }
            }
            assert forall|k: i32| #[trigger] is_next_from(own, theirs, id, k) implies incr_condition
                == Some(k) by {
                let j = choose|j: int| 0 <= j < s_vec@.len() && s_vec@[j].0 == k;
                assert(is_next_from(own, theirs, id, s_vec@[j].0));
            }
        }
        let o_vec = other.into_vec();
        let mut learned: Option<(i32, u32)> = None;
        let mut i: usize = 0;
        while i < o_vec.len()
            invariant
                0 <= i <= o_vec@.len(),
                lists_entries(theirs, o_vec@),
                self@ == own,
                self.id == id,
                other@ == theirs,
                forall|k: i32| !#[trigger] is_beyond(own, theirs, id, k),
                forall|k: i32| #[trigger] is_next_from(own, theirs, id, k) ==> bumped && incr_condition == Some(k),
                bumped ==> is_next_from(own, theirs, id, incr_condition->0),
                incr_condition is None <==> (!bumped && learned is None),
                learned is None ==> forall|j: int|
                    0 <= j < i ==> !is_unknown(own, theirs, #[trigger] o_vec@[j].0),
                learned is Some ==> {
                    let (lk, lv) = learned->0;
                    &&& !bumped
                    &&& incr_condition == Some(lk)
                    &&& is_unknown(own, theirs, lk)
                    &&& theirs[lk] == lv
                    &&& lv <= 1
                    &&& exists|j: int| 0 <= j < i && #[trigger] o_vec@[j].0 == lk
                    &&& forall|j: int|
                        0 <= j < i && is_unknown(own, theirs, #[trigger] o_vec@[j].0) ==> o_vec@[j].0
                            == lk
                },
            decreases o_vec@.len() - i,
        {
            let (k, v) = o_vec[i];
            assert(theirs.contains_key(k) && theirs[k] == v);
            if !self.vc.contains_key(&k) {
                assert(is_unknown(own, theirs, k));
                if v <= 1 && incr_condition.is_none() {
                    incr_condition = Some(k);
                    learned = Some((k, v));
                } else {
                    proof {
                        if v > 1 {
                        } else if bumped {
                            assert(is_next_from(own, theirs, id, incr_condition->0));
                        } else {
                            let lk = (learned->0).0;
                            let j0 = choose|j: int| 0 <= j < i && #[trigger] o_vec@[j].0 == lk;
                            assert(o_vec@[j0].0 != o_vec@[i as int].0);
                            assert(is_unknown(own, theirs, lk));
                        }
                    }
                    return false;
                }
            }
            i += 1;
        }
        proof {
            assert forall|k: i32| #[trigger] is_unknown(own, theirs, k) implies learned is Some
                && (learned->0).0 == k by {
                let j = choose|j: int| 0 <= j < o_vec@.len() && o_vec@[j].0 == k;
                assert(is_unknown(own, theirs, o_vec@[j].0));
            }
        }
        match learned {
            Some((k, v)) => {
                self.vc.insert(k, v);
            },
            None => {},
        }
        incr_condition.is_some()
    }

    /// Counts the processes known to both clocks, comparing their counts;
    /// the clocks are equal when they agree on all of them and `other` knows
    /// no process that `self` does not.
    pub(crate) fn clocks_equal(&self, other: &CbcastClock) -> (r: bool)
        ensures
            r == covers(self@, other@),
    {
        let other_len = other.vc.len();
        let mut cur_len: usize = 0;
        let s_vec = self.into_vec();
        let ghost mut seen: Set<i32> = Set::empty();
        let mut i: usize = 0;
        while i < s_vec.len()
            invariant
                0 <= i <= s_vec@.len(),
                lists_entries(self@, s_vec@),
                other_len == other@.len(),
                seen.finite(),
                cur_len == seen.len(),
                cur_len <= i,
                forall|k: i32| #[trigger] seen.contains(k) <==> (other@.contains_key(k) && exists|j: int|
                    0 <= j < i && #[trigger] s_vec@[j].0 == k),
                forall|j: int|
                    0 <= j < i && other@.contains_key(#[trigger] s_vec@[j].0) ==> other@[s_vec@[j].0]
                        == s_vec@[j].1,
            decreases s_vec@.len() - i,
        {
            let (k, v) = s_vec[i];
            match other.vc.get(&k) {
                Some(val) => {
                    proof {
                        lemma_seen_step(s_vec@, i as int, seen, other@);
                        seen = seen.insert(k);
                    }
                    cur_len += 1;
                    if v != *val {
                        assert(self@.contains_key(s_vec@[i as int].0));
                        assert(other@.contains_key(k) && self@[k] != other@[k]);
                        return false;
                    }
                },
                None => {},
            }
            i += 1;
        }
        proof {
            lemma_seen_complete(self@, other@, s_vec@, seen);
            assert forall|k: i32| #[trigger] other@.contains_key(k) && self@.contains_key(k) implies
                self@[k] == other@[k] by {
                let j = choose|j: int| 0 <= j < s_vec@.len() && s_vec@[j].0 == k;
                assert(other@.contains_key(s_vec@[j].0));
            }
        }
        cur_len == other_len
    }

    /// Compares the two clocks by `clock_order`.
    pub fn compare(&self, other: &CbcastClock) -> (r: ClockOrder)
        ensures
            r == clock_order(self@, other@),
    {
        let mut ordering = ClockOrder::Equal;
        let other_len = other.vc.len();
        let mut cur_len: usize = 0;
        let s_vec = self.into_vec();
        let ghost mut seen: Set<i32> = Set::empty();
        let mut i: usize = 0;
        while i < s_vec.len()
            invariant
                0 <= i <= s_vec@.len(),
                lists_entries(self@, s_vec@),
                other_len == other@.len(),
                seen.finite(),
                cur_len == seen.len(),
                cur_len <= i,
                forall|k: i32| #[trigger] seen.contains(k) <==> (other@.contains_key(k) && exists|j: int|
                    0 <= j < i && #[trigger] s_vec@[j].0 == k),
                ordering == ClockOrder::Greater <==> exists|j: int|
                    0 <= j < i && other@.contains_key(#[trigger] s_vec@[j].0) && s_vec@[j].1
                        > other@[s_vec@[j].0],
                ordering == ClockOrder::Less <==> (!(ordering == ClockOrder::Greater) && exists|j: int|
                    0 <= j < i && other@.contains_key(#[trigger] s_vec@[j].0) && s_vec@[j].1
                        < other@[s_vec@[j].0]),
            decreases s_vec@.len() - i,
        {
            let (k, v) = s_vec[i];
            proof {
                assert(self@.contains_key(s_vec@[i as int].0));
            }
            match other.vc.get(&k) {
                Some(val) => {
                    proof {
                        lemma_seen_step(s_vec@, i as int, seen, other@);
                        seen = seen.insert(k);
                    }
                    cur_len += 1;
                    if v > *val {
                        ordering = ClockOrder::Greater;
                    }
                    if v < *val && ordering != ClockOrder::Greater {
                        ordering = ClockOrder::Less;
                    }
                },
                None => {},
            }
            i += 1;
        }
        proof {
            lemma_seen_complete(self@, other@, s_vec@, seen);
            if cur_len == other_len {
                if exists|k: i32| #[trigger] other@.contains_key(k) && self@[k] > other@[k] {
                    let k = choose|k: i32| #[trigger] other@.contains_key(k) && self@[k] > other@[k];
                    let j = choose|j: int| 0 <= j < s_vec@.len() && s_vec@[j].0 == k;
                    assert(self@.contains_key(s_vec@[j].0));
                }
                if exists|k: i32| #[trigger] other@.contains_key(k) && self@[k] < other@[k] {
                    let k = choose|k: i32| #[trigger] other@.contains_key(k) && self@[k] < other@[k];
                    let j = choose|j: int| 0 <= j < s_vec@.len() && s_vec@[j].0 == k;
                    assert(self@.contains_key(s_vec@[j].0));
                }
                if ordering == ClockOrder::Greater {
                    let j = choose|j: int|
                        0 <= j < s_vec@.len() && other@.contains_key(#[trigger] s_vec@[j].0)
                            && s_vec@[j].1 > other@[s_vec@[j].0];
                    assert(self@.contains_key(s_vec@[j].0));
                }
                if ordering == ClockOrder::Less {
                    let j = choose|j: int|
                        0 <= j < s_vec@.len() && other@.contains_key(#[trigger] s_vec@[j].0)
                            && s_vec@[j].1 < other@[s_vec@[j].0];
                    assert(self@.contains_key(s_vec@[j].0));
                }
            }
        }
        if cur_len == other_len {
            ordering
        } else {
            ClockOrder::Less
        }
    }

    /// The clock's text, its entries in the order of a walk:
    /// `[(p, c), (q, d)]`, or `[]` when it is empty.
    pub fn to_string(&self) -> (r: String)
        ensures
            r@ == clock_text(self.walk()),
            lists_entries(self@, self.walk()),
    {
        let entries = self.into_vec();
        entries_to_string(&entries)
    }

    /// The entries of the clock, in the order of a walk over them.
    pub fn into_vec(&self) -> (v: Vec<(i32, u32)>)
        ensures
            v@ == self.walk(),
            lists_entries(self@, v@),
    {
        map_entries(&self.vc)
    }
}

} // verus!
