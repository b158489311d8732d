use vstd::prelude::*;
use vstd::std_specs::cmp::PartialOrdSpecImpl;
use core::cmp::Ordering;
use crate::data::u256::Us;

verus! {

/// Bit sets are ordered as the numbers they spell: the highest word where two sets differ
/// decides.
impl<const N: usize> PartialOrd for Us<N> {
    fn partial_cmp(&self, other: &Self) -> (r: Option<Ordering>) {
        let s = self.compare_words(other);
        if s < 0 {
            Some(Ordering::Less)
        } else if s == 0 {
            Some(Ordering::Equal)
        } else {
            Some(Ordering::Greater)
        }
    }
}

impl<const N: usize> PartialOrdSpecImpl for Us<N> {
    open spec fn obeys_partial_cmp_spec() -> bool {
        true
    }

    open spec fn partial_cmp_spec(&self, other: &Self) -> Option<Ordering> {
        let s = self.sign_against(*other);
        if s < 0 {
            Some(Ordering::Less)
        } else if s == 0 {
            Some(Ordering::Equal)
        } else {
            Some(Ordering::Greater)
        }
    }
}

} // verus!
