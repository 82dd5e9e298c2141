//! Pairs that are compared by their first component.

use vstd::prelude::*;
use vstd::std_specs::cmp::{OrdSpec, PartialEqSpec};

verus! {

/// A value with something that travels with it: two pairs are compared by
/// their first components, whatever their second components are.
#[derive(Debug)]
pub struct ByFst<T, V>(pub T, pub V);

impl<T: PartialEq, V> PartialEq for ByFst<T, V> {
    /// Whether the first components are equal.
    fn eq(&self, other: &ByFst<T, V>) -> (r: bool) {
        self.0.eq(&other.0)
    }
}

impl<T: PartialEq, V> vstd::std_specs::cmp::PartialEqSpecImpl for ByFst<T, V> {
    open spec fn obeys_eq_spec() -> bool {
        T::obeys_eq_spec()
    }

    open spec fn eq_spec(&self, other: &ByFst<T, V>) -> bool {
        self.0.eq_spec(&other.0)
    }
}

impl<T: Eq, V> Eq for ByFst<T, V> {

}

impl<T: Ord, V> PartialOrd for ByFst<T, V> {
    /// How the first components compare.
    fn partial_cmp(&self, other: &ByFst<T, V>) -> (r: Option<core::cmp::Ordering>) {
        Some(self.0.cmp(&other.0))
    }
}

impl<T: Ord, V> vstd::std_specs::cmp::PartialOrdSpecImpl for ByFst<T, V> {
    open spec fn obeys_partial_cmp_spec() -> bool {
        T::obeys_cmp_spec()
    }

    open spec fn partial_cmp_spec(&self, other: &ByFst<T, V>) -> Option<core::cmp::Ordering> {
        Some(self.0.cmp_spec(&other.0))
    }
}

impl<T: Ord, V> ByFst<T, V> {
    /// How the first components compare.
    pub fn cmp(&self, other: &ByFst<T, V>) -> (r: core::cmp::Ordering)
        ensures
            T::obeys_cmp_spec() ==> r == self.0.cmp_spec(&other.0),
    {
        self.0.cmp(&other.0)
    }
}

} // verus!
