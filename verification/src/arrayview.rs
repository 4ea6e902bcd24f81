//! The read side of the offset index: a view of its entries over the bytes
//! of the sealed index resource.

use crate::format::{index_entries, lemma_entry_in_bounds};
use crate::index::IndexWidth;
use vstd::prelude::*;

verus! {

/// The entries of a sealed offset index, decoded in place.
#[derive(Clone, Copy, Debug)]
pub struct ArrayView<'a> {
    data: &'a [u8],
    width: IndexWidth,
}

impl<'a> View for ArrayView<'a> {
    type V = Seq<nat>;

    /// The entries, in order.
    closed spec fn view(&self) -> Seq<nat> {
        index_entries(self.data@, self.width.bits())
    }
}

impl<'a> ArrayView<'a> {
    /// The bytes that the view reads.
    pub closed spec fn bytes(&self) -> Seq<u8> {
        self.data@
    }

    /// The width of the entries.
    pub closed spec fn width(&self) -> IndexWidth {
        self.width
    }

    /// The view of the index stored in `data` with entries of width `width`.
    pub fn new(data: &'a [u8], width: IndexWidth) -> (view: Self)
        ensures
            view.bytes() == data@,
            view.width() == width,
            view@ == index_entries(data@, width.bits()),
    {
        ArrayView { data, width }
    }

    /// The number of entries.
    pub fn len(&self) -> (n: usize)
        ensures
            n == self@.len(),
    {
        self.data.len() / self.width.size_in_bytes()
    }

    /// Entry `i`.
    pub fn at(&self, i: usize) -> (value: u64)
        requires
            i < self@.len(),
        ensures
            value == self@[i as int],
    {
        let n = self.width.size_in_bytes();
        proof {
            lemma_entry_in_bounds(i as int, n as int, self.data.len() as int);
        }
        self.width.decode(self.data, i * n)
    }
}

} // verus!
