//! Bitonic sorting networks over slices.
//!
//! A bitonic network sorts a slice whose length is a power of two by a
//! fixed pattern of compare-and-exchange steps: which positions are compared
//! never depends on the values found there. `second` holds the plain
//! network over `Ord` elements, `third` the validating one that also takes
//! a comparator, and `utils` the sortedness predicates and a reproducible
//! source of test vectors. The other modules hold what the contracts are
//! stated in and proved from: `order` and `natural` the orders, `comparator`
//! the comparators, `pass` one pass over the pairs, `bitonic` and `runs` why
//! a pass splits a bitonic sequence, `length` the lengths and `slices` the
//! exchange of two elements.
use vstd::prelude::*;

pub mod bitonic;
pub mod comparator;
pub mod length;
pub mod natural;
pub mod order;
pub mod pass;
pub mod runs;
pub mod second;
pub mod slices;
pub mod third;
pub mod utils;

verus! {

/// The order a caller asks for.
#[derive(Clone, Copy, Debug, PartialEq, Eq)]
pub enum SortOrder {
    /// Smallest element first.
    Ascending,
    /// Largest element first.
    Descending,
}

} // verus!
