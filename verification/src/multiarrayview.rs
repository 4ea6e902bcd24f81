//! The read path: the items of any bucket, decoded in place from the sealed
//! data between two offsets of the sealed index.

use crate::arrayview::ArrayView;
use crate::error::FormatError;
use crate::format::{bucket_items, decode, Record};
use crate::variant::VariantTable;
use vstd::prelude::*;
use vstd::slice::slice_subrange;

verus! {

/// One item of a bucket: its tag, and its payload where it lies in the data.
#[derive(Clone, Copy, Debug)]
pub struct Item<'a> {
    pub tag: u8,
    pub payload: &'a [u8],
}

impl<'a> View for Item<'a> {
    type V = Record;

    open spec fn view(&self) -> Record {
        Record { tag: self.tag, payload: self.payload@ }
    }
}

/// What an item iterator yields, as mathematics.
pub open spec fn yielded(r: Result<Item<'_>, FormatError>) -> Result<Record, FormatError> {
    match r {
        Ok(item) => Ok(item@),
        Err(e) => Err(e),
    }
}

/// The items of one bucket, front to back.
#[derive(Debug)]
pub struct ItemIter<'a> {
    data: &'a [u8],
    cursor: usize,
    end: usize,
    variants: &'a VariantTable,
    bad_offsets: bool,
}

impl<'a> ItemIter<'a> {
    #[verifier::type_invariant]
    spec fn inv(&self) -> bool {
        self.cursor <= self.end <= self.data@.len()
    }

    /// What the iterator has yet to yield.
    pub closed spec fn remaining(&self) -> Seq<Result<Record, FormatError>> {
        if self.bad_offsets {
            seq![Err(FormatError::BadOffsets)]
        } else {
            decode(self.variants@, self.data@, self.cursor as int, self.end as int)
        }
    }

    /// The next item of the bucket; `None` at the bucket's end. An error is
    /// the last thing the iterator yields.
    pub fn next(&mut self) -> (r: Option<Result<Item<'a>, FormatError>>)
        ensures
            match r {
                Some(x) => {
                    &&& old(self).remaining().len() > 0
                    &&& yielded(x) == old(self).remaining()[0]
                    &&& final(self).remaining() == old(self).remaining().drop_first()
                },
                None => {
                    &&& old(self).remaining().len() == 0
                    &&& final(self).remaining() == old(self).remaining()
                },
            },
    {
        proof {
            use_type_invariant(&*self);
        }
        if self.bad_offsets {
            self.bad_offsets = false;
            self.cursor = self.end;
            return Some(Err(FormatError::BadOffsets));
        }
        if self.cursor == self.end {
            return None;
        }
        let tag = self.data[self.cursor];
        match self.variants.size_of(tag) {
            None => {
                self.cursor = self.end;
                Some(Err(FormatError::UnknownTag(tag)))
            },
            Some(n) => {
                if n > self.end - self.cursor - 1 {
                    self.cursor = self.end;
                    Some(Err(FormatError::TruncatedRecord(tag)))
                } else {
                    let start = self.cursor + 1;
                    let payload = slice_subrange(self.data, start, start + n);
                    self.cursor = start + n;
                    Some(Ok(Item { tag, payload }))
                }
            },
        }
    }
}

/// The read view of a closed container: the sealed index, the sealed data
/// and the variant set. Copies share the bytes.
#[derive(Clone, Copy, Debug)]
pub struct MultiArrayView<'a> {
    index: ArrayView<'a>,
    data: &'a [u8],
    variants: &'a VariantTable,
}

impl<'a> MultiArrayView<'a> {
    #[verifier::type_invariant]
    spec fn inv(&self) -> bool {
        1 <= self.index@.len() <= usize::MAX
    }

    /// The entries of the index, sentinel included.
    pub closed spec fn entries(&self) -> Seq<nat> {
        self.index@
    }

    /// The data stream.
    pub closed spec fn data(&self) -> Seq<u8> {
        self.data@
    }

    /// The payload sizes of the variant set, by tag.
    pub closed spec fn sizes(&self) -> Seq<usize> {
        self.variants@
    }

    /// The number of buckets.
    pub open spec fn spec_len(&self) -> nat {
        (self.entries().len() - 1) as nat
    }

    /// What reading bucket `i` yields.
    pub open spec fn bucket(&self, i: int) -> Seq<Result<Record, FormatError>> {
        bucket_items(self.sizes(), self.entries(), self.data(), i)
    }

    /// The view of the container whose index is `index` and whose data is
    /// `data`. An index without any entry lacks the sentinel and is refused.
    pub fn new(index: ArrayView<'a>, data: &'a [u8], variants: &'a VariantTable) -> (r: Result<
        Self,
        FormatError,
    >)
        ensures
            match r {
                Ok(view) => {
                    &&& index@.len() >= 1
                    &&& view.entries() == index@
                    &&& view.data() == data@
                    &&& view.sizes() == variants@
                },
                Err(e) => index@.len() == 0 && e == FormatError::MissingSentinel,
            },
    {
        if index.len() == 0 {
            Err(FormatError::MissingSentinel)
        } else {
            Ok(MultiArrayView { index, data, variants })
        }
    }

    /// The number of buckets: the entries of the index without the sentinel.
    pub fn len(&self) -> (n: usize)
        ensures
            n == self.spec_len(),
            self.entries().len() == n + 1,
    {
        proof {
            use_type_invariant(self);
        }
        self.index.len() - 1
    }

    /// The items of bucket `i`.
    pub fn at(&self, i: usize) -> (items: ItemIter<'a>)
        requires
            i < self.spec_len(),
        ensures
            items.remaining() == self.bucket(i as int),
    {
        proof {
            use_type_invariant(self);
        }
        let start = self.index.at(i);
        let end = self.index.at(i + 1);
        if start <= end && end <= self.data.len() as u64 {
            ItemIter {
                data: self.data,
                cursor: start as usize,
                end: end as usize,
                variants: self.variants,
                bad_offsets: false,
            }
        } else {
            ItemIter { data: self.data, cursor: 0, end: 0, variants: self.variants, bad_offsets: true }
        }
    }

    /// The buckets in index order, from bucket 0.
    pub fn iter(&self) -> (buckets: BucketIter<'a>)
        ensures
            buckets.view() == *self,
            buckets.position() == 0,
    {
        proof {
            use_type_invariant(self);
        }
        BucketIter { view: *self, next: 0 }
    }
}

/// The buckets of a view, in index order.
#[derive(Debug)]
pub struct BucketIter<'a> {
    view: MultiArrayView<'a>,
    next: usize,
}

impl<'a> BucketIter<'a> {
    #[verifier::type_invariant]
    spec fn inv(&self) -> bool {
        self.next <= self.view.spec_len()
    }

    /// The view whose buckets the iterator walks.
    pub closed spec fn view(&self) -> MultiArrayView<'a> {
        self.view
    }

    /// The number of the bucket that comes next.
    pub closed spec fn position(&self) -> nat {
        self.next as nat
    }

    /// The items of the next bucket; `None` after the last bucket.
    pub fn next(&mut self) -> (r: Option<ItemIter<'a>>)
        ensures
            final(self).view() == old(self).view(),
            match r {
                Some(items) => {
                    &&& old(self).position() < old(self).view().spec_len()
                    &&& items.remaining() == old(self).view().bucket(old(self).position() as int)
                    &&& final(self).position() == old(self).position() + 1
                },
                None => {
                    &&& old(self).position() == old(self).view().spec_len()
                    &&& final(self).position() == old(self).position()
                },
            },
    {
        proof {
            use_type_invariant(&*self);
        }
        if self.next < self.view.len() {
            let items = self.view.at(self.next);
            self.next = self.next + 1;
            Some(items)
        } else {
            None
        }
    }
}

} // verus!
