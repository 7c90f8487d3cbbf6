//! Views over the index section of a tree, which is stored with 16 or with 32 bits per entry.

use vstd::prelude::*;

verus! {

/// A read-only view over the indices of a tree.
#[derive(Clone, Copy)]
pub enum Indices<'a> {
    /// Indices of 16 bits each.
    U16(&'a [u16]),
    /// Indices of 32 bits each.
    U32(&'a [u32]),
}

impl<'a> View for Indices<'a> {
    type V = Seq<int>;

    open spec fn view(&self) -> Seq<int> {
        match *self {
            Indices::U16(arr) => Seq::new(arr@.len(), |i: int| arr@[i] as int),
            Indices::U32(arr) => Seq::new(arr@.len(), |i: int| arr@[i] as int),
        }
    }
}

impl<'a> Indices<'a> {
    /// Whether the indices have 32 bits each.
    pub open spec fn is_wide(self) -> bool {
        self is U32
    }

    /// No index takes more than 32 bits.
    pub proof fn lemma_in_range(self)
        ensures
            forall|i: int| 0 <= i < self@.len() ==> 0 <= #[trigger] self@[i] <= u32::MAX,
    {
    }

    /// The number of indices.
    pub fn len(&self) -> (len: usize)
        ensures
            len == self@.len(),
    {
        match self {
            Indices::U16(arr) => arr.len(),
            Indices::U32(arr) => arr.len(),
        }
    }

    /// The index at position `i`.
    pub fn get(&self, i: usize) -> (index: usize)
        requires
            i < self@.len(),
        ensures
            index == self@[i as int],
    {
        match self {
            Indices::U16(arr) => arr[i] as usize,
            Indices::U32(arr) => arr[i] as usize,
        }
    }
}

/// A mutable view over the indices of a tree.
pub enum MutableIndices<'a> {
    /// Indices of 16 bits each.
    U16(&'a mut [u16]),
    /// Indices of 32 bits each.
    U32(&'a mut [u32]),
}

impl<'a> View for MutableIndices<'a> {
    type V = Seq<int>;

    open spec fn view(&self) -> Seq<int> {
        match *self {
            MutableIndices::U16(arr) => Seq::new(arr@.len(), |i: int| arr@[i] as int),
            MutableIndices::U32(arr) => Seq::new(arr@.len(), |i: int| arr@[i] as int),
        }
    }
}

} // verus!
