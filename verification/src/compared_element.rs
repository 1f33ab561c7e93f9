use vstd::prelude::*;
use vstd::std_specs::cmp::PartialEqSpecImpl;
use vstd::std_specs::cmp::PartialOrdSpecImpl;
use core::cmp::Ordering;

verus! {

/// A payload with an integer key. Two elements are equal, and are ordered,
/// by their keys alone: the payload takes no part.
#[derive(Debug, Clone, Copy)]
pub struct ComparedElement<T> {
    pub value: T,
    pub sorting_value: i32,
}

impl<T> ComparedElement<T> {
    /// A payload under a key.
    pub fn new(value: T, sorting_value: i32) -> (element: ComparedElement<T>)
        ensures
            element.value == value,
            element.sorting_value == sorting_value,
    {
        ComparedElement { value, sorting_value }
    }
}

/// Equal keys make equal elements.
impl<T> PartialEq for ComparedElement<T> {
    fn eq(&self, other: &Self) -> (equal: bool) {
        self.sorting_value == other.sorting_value
    }
}

impl<T> PartialEqSpecImpl for ComparedElement<T> {
    open spec fn obeys_eq_spec() -> bool {
        true
    }

    open spec fn eq_spec(&self, other: &Self) -> bool {
        self.sorting_value == other.sorting_value
    }
}

/// `<i32 as Hash>::hash` of std feeds the integer to the hasher; nothing is
/// claimed of the hasher's state afterwards.
pub assume_specification<H: core::hash::Hasher>[ <i32 as core::hash::Hash>::hash ](
    value: &i32,
    state: &mut H,
);

/// Only the key is hashed, so that equal elements hash alike.
impl<T> core::hash::Hash for ComparedElement<T> {
    fn hash<H: core::hash::Hasher>(&self, state: &mut H) {
        self.sorting_value.hash(state);
    }
}

impl<T> Eq for ComparedElement<T> {

}

/// Elements are ordered as their keys are.
impl<T> PartialOrd for ComparedElement<T> {
    fn partial_cmp(&self, other: &Self) -> (order: Option<Ordering>) {
        if self.sorting_value < other.sorting_value {
            Some(Ordering::Less)
        } else if self.sorting_value == other.sorting_value {
            Some(Ordering::Equal)
        } else {
            Some(Ordering::Greater)
        }
    }
}

impl<T> PartialOrdSpecImpl for ComparedElement<T> {
    open spec fn obeys_partial_cmp_spec() -> bool {
        true
    }

    open spec fn partial_cmp_spec(&self, other: &Self) -> Option<Ordering> {
        if self.sorting_value < other.sorting_value {
            Some(Ordering::Less)
        } else if self.sorting_value == other.sorting_value {
            Some(Ordering::Equal)
        } else {
            Some(Ordering::Greater)
        }
    }
}

} // verus!
