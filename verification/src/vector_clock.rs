//! A plain vector clock: an id and a count per process.
use crate::clock::{map_entries, walk_of};
use crate::render::{counts_text, counts_to_string};
use std::collections::HashMap;
use vstd::prelude::*;
use vstd::std_specs::cmp::PartialEqSpecImpl;

verus! {

broadcast use vstd::std_specs::hash::group_hash_axioms;

/// A vector clock of the process `id`.
pub struct VectorClock {
    id: i32,
    h: HashMap<i32, u32>,
}

impl View for VectorClock {
    type V = Map<i32, u32>;

    closed spec fn view(&self) -> Map<i32, u32> {
        self.h@
    }
}

/// Somewhere at a position that both walks reach, the second walk's count
/// is more than one above the first's.
pub open spec fn has_gap(s: Seq<(i32, u32)>, o: Seq<(i32, u32)>) -> bool {
    exists|i: int| 0 <= i < s.len() && i < o.len() && #[trigger] o[i].1 > s[i].1 + 1
}

/// At every position that both walks reach, up to and including the first
/// gap (a second count more than one above the first), the second count is
/// at least the first: counts can be subtracted there.
pub open spec fn comparable_walks(s: Seq<(i32, u32)>, o: Seq<(i32, u32)>) -> bool {
    forall|i: int|
        0 <= i < s.len() && i < o.len() && (forall|j: int|
            0 <= j < i ==> !(#[trigger] o[j].1 > s[j].1 + 1)) ==> #[trigger] o[i].1 >= s[i].1
}

impl VectorClock {
    /// The process that owns this clock.
    pub closed spec fn owner(&self) -> i32 {
        self.id
    }

    /// The order in which a walk over this clock visits its entries.
    pub closed spec fn walk(&self) -> Seq<(i32, u32)> {
        walk_of(&self.h)
    }

    /// A new, empty clock for process `id`.
    pub fn new(id: i32) -> (vc: VectorClock)
        ensures
            vc@ == Map::<i32, u32>::empty(),
            vc.owner() == id,
    {
        VectorClock { id, h: HashMap::new() }
    }

    /// The number of entries of the clock.
    pub(crate) fn entry_count(&self) -> (n: usize)
        ensures
            n == self@.len(),
    {
        self.h.len()
    }

    /// Walks both clocks side by side and tells whether `other`'s count is
    /// somewhere more than one above `self`'s.
    pub(crate) fn walks_have_gap(&self, other: &VectorClock) -> (r: bool)
        requires
            comparable_walks(self.walk(), other.walk()),
        ensures
            r == has_gap(self.walk(), other.walk()),
    {
        let s_vec = map_entries(&self.h);
        let o_vec = map_entries(&other.h);
        let mut i: usize = 0;
        while i < s_vec.len() && i < o_vec.len()
            invariant
                0 <= i <= s_vec@.len(),
                i <= o_vec@.len(),
                s_vec@ == self.walk(),
                o_vec@ == other.walk(),
                comparable_walks(s_vec@, o_vec@),
                forall|j: int| 0 <= j < i ==> !(#[trigger] o_vec@[j].1 > s_vec@[j].1 + 1),
            decreases s_vec@.len() - i,
        {
            let s = s_vec[i];
            let o = o_vec[i];
            assert(o_vec@[i as int].1 >= s_vec@[i as int].1);
            if o.1 - s.1 > 1 {
                return true;
            }
            i += 1;
        }
        false
    }

    /// The clock's text: its counts in the order of a walk, `[3, 0]`, and
    /// nothing at all when it is empty.
    pub fn to_string(&self) -> (r: String)
        ensures
            r@ == counts_text(self.walk()),
            crate::clock::lists_entries(self@, self.walk()),
    {
        let entries = map_entries(&self.h);
        counts_to_string(&entries)
    }
}

/// Equality of vector clocks. `!=` is the negation of `==`, so two distinct
/// clocks with as many entries are not unequal; whether two references name
/// the same clock (an address comparison) is not a question this type answers.
impl PartialEq for VectorClock {
    /// Two clocks are equal when they have as many entries: the test on
    /// each pair of entries that a walk over both visits always holds.
    fn eq(&self, other: &Self) -> (r: bool) {
        self.h.len() == other.h.len()
    }
}

impl PartialEqSpecImpl for VectorClock {
    open spec fn obeys_eq_spec() -> bool {
        true
    }

    open spec fn eq_spec(&self, other: &VectorClock) -> bool {
        self@.len() == other@.len()
    }
}

} // verus!
