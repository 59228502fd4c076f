//! The tag that ties a task, and later its result, to its place in line.
use vstd::prelude::*;
use vstd::std_specs::cmp::{PartialEqSpecImpl, PartialOrdSpecImpl};
use core::cmp::Ordering;

verus! {

/// A value together with the sequence number it was submitted under.
///
/// A submitted task is wrapped on its way in; when it completes, its output
/// travels on under the same `index`.
///
/// Wrappers compare by `index` alone, and backwards: the wrapper with the
/// smaller sequence number is the greater one, so that in a collection that
/// offers its greatest item first the earliest submission comes first.
#[must_use]
#[derive(Debug)]
pub struct OrderWrapper<T> {
    /// The task, or its result.
    pub item: T,
    /// The sequence number: how many tasks were submitted before this one.
    pub index: usize,
}

impl<T> OrderWrapper<T> {
    /// Pairs `output` with the sequence number of `self`.
    pub fn carry<U>(&self, output: U) -> (tagged: OrderWrapper<U>)
        ensures
            tagged.item == output,
            tagged.index == self.index,
    {
        OrderWrapper { item: output, index: self.index }
    }
}

impl<T> PartialEq for OrderWrapper<T> {
    fn eq(&self, other: &Self) -> (r: bool) {
        self.index == other.index
    }
}

impl<T> PartialEqSpecImpl for OrderWrapper<T> {
    open spec fn obeys_eq_spec() -> bool {
        true
    }

    open spec fn eq_spec(&self, other: &Self) -> bool {
        self.index == other.index
    }
}

impl<T> Eq for OrderWrapper<T> {

}

impl<T> PartialOrd for OrderWrapper<T> {
    fn partial_cmp(&self, other: &Self) -> (r: Option<Ordering>) {
        if other.index < self.index {
            Some(Ordering::Less)
        } else if other.index == self.index {
            Some(Ordering::Equal)
        } else {
            Some(Ordering::Greater)
        }
    }
}

impl<T> PartialOrdSpecImpl for OrderWrapper<T> {
    open spec fn obeys_partial_cmp_spec() -> bool {
        true
    }

    open spec fn partial_cmp_spec(&self, other: &Self) -> Option<Ordering> {
        if other.index < self.index {
            Some(Ordering::Less)
        } else if other.index == self.index {
            Some(Ordering::Equal)
        } else {
            Some(Ordering::Greater)
        }
    }
}

} // verus!
