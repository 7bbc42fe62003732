//! A sorted array of a small, fixed capacity.

use vstd::prelude::*;

verus! {

/// A capacity, as a type.
pub struct SmallSize<const N: usize>;

/// Marks the capacities that a `SortedArray` may have.
pub trait SupportedSmallSize {}

/// At most `N` values kept in increasing order.
pub struct SortedArray<T: Ord, const N: usize> where SmallSize<N>: SupportedSmallSize {
    array: Vec<T>,
}

impl<T: Ord, const N: usize> SortedArray<T, N> where SmallSize<N>: SupportedSmallSize {
    /// The values held, in increasing order.
    pub closed spec fn view_seq(&self) -> Seq<T> {
        self.array@
    }

    /// An empty array.
    pub fn new() -> (r: Self)
        ensures
            r.view_seq().len() == 0,
    {
        SortedArray { array: Vec::new() }
    }
}

} // verus!
