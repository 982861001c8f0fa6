//! How two clocks compare, and when they are equal.
use crate::clock::{clock_order, concurrent, covers, CbcastClock, ClockOrder};
use std::cmp::Ordering;
use vstd::prelude::*;
use vstd::std_specs::cmp::{PartialEqSpecImpl, PartialOrdSpecImpl};

verus! {

/// A clock comparison as a `std::cmp::Ordering`.
pub open spec fn to_ordering(o: ClockOrder) -> Ordering {
    match o {
        ClockOrder::Less => Ordering::Less,
        ClockOrder::Equal => Ordering::Equal,
        ClockOrder::Greater => Ordering::Greater,
    }
}

impl CbcastClock {
    /// The comparison as a `std::cmp::Ordering`, by `clock_order`, of two
    /// clocks that are not concurrent: concurrent clocks have no order.
    pub fn cmp(&self, other: &CbcastClock) -> (r: Ordering)
        requires
            !concurrent(self@, other@),
        ensures
            r == to_ordering(clock_order(self@, other@)),
    {
        match self.compare(other) {
            ClockOrder::Less => Ordering::Less,
            ClockOrder::Equal => Ordering::Equal,
            ClockOrder::Greater => Ordering::Greater,
        }
    }
}

impl PartialEq for CbcastClock {
    fn eq(&self, other: &Self) -> (r: bool) {
        self.clocks_equal(other)
    }
}

impl PartialEqSpecImpl for CbcastClock {
    open spec fn obeys_eq_spec() -> bool {
        true
    }

    open spec fn eq_spec(&self, other: &CbcastClock) -> bool {
        covers(self@, other@)
    }
}

impl PartialOrd for CbcastClock {
    /// The comparison by `clock_order`, which always has an answer.
    fn partial_cmp(&self, other: &Self) -> (r: Option<Ordering>) {
        Some(
            match self.compare(other) {
                ClockOrder::Less => Ordering::Less,
                ClockOrder::Equal => Ordering::Equal,
                ClockOrder::Greater => Ordering::Greater,
            },
        )
    }
}

impl PartialOrdSpecImpl for CbcastClock {
    open spec fn obeys_partial_cmp_spec() -> bool {
        true
    }

    open spec fn partial_cmp_spec(&self, other: &CbcastClock) -> Option<Ordering> {
        Some(to_ordering(clock_order(self@, other@)))
    }
}

} // verus!
