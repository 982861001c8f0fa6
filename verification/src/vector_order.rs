//! How two plain vector clocks compare.
use crate::vector_clock::{comparable_walks, has_gap, VectorClock};
use std::cmp::Ordering;
use vstd::prelude::*;

verus! {

impl VectorClock {
    /// Compares the two clocks: Equal when they have as many entries;
    /// otherwise the two walks are compared position by position, Greater
    /// where `other`'s count is somewhere more than one above `self`'s,
    /// and Less where it is nowhere. Up to the first such gap, `other`'s
    /// count may not be below `self`'s, since the counts are subtracted.
    pub fn partial_cmp(&self, other: &VectorClock) -> (r: Option<Ordering>)
        requires
            self@.len() == other@.len() || comparable_walks(self.walk(), other.walk()),
        ensures
            r == Some(
                if self@.len() == other@.len() {
                    Ordering::Equal
                } else if has_gap(self.walk(), other.walk()) {
                    Ordering::Greater
                } else {
                    Ordering::Less
                },
            ),
    {
        if self.entry_count() == other.entry_count() {
            return Some(Ordering::Equal);
        }
        if self.walks_have_gap(other) {
            Some(Ordering::Greater)
        } else {
            Some(Ordering::Less)
        }
    }
}

} // verus!
