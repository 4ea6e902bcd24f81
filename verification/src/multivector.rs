//! The write path: buckets of tagged records appended in order, buffered in
//! memory, flushed to the data resource in chunks, and indexed by the offset
//! at which each bucket begins.

use crate::error::{IoError, ResourceStorageError};
use crate::format::{
    all_ok, lemma_bucket_in_stream, lemma_decode_bucket, lemma_push_record, lemma_start_bucket,
    lemma_stream_prefix, offsets, push_record, record_bytes, sealed_data, sealed_index, starts,
    step, stream_bytes, valid_bucket, valid_buckets, Record, WriteOp, WriterState,
};
use crate::index::{entry_size, lemma_entry_bytes_len, max_offset, IndexWidth};
use crate::multiarrayview::MultiArrayView;
use crate::storage::{has_room, room_left, ResourceSink};
use crate::variant::{payload_size, VariantTable};
use crate::vector::{ExternalVector, HIGH_WATER_MARK};
use vstd::prelude::*;

verus! {

/// A container for writing an indexed sequence of buckets of heterogeneous
/// items.
///
/// Each call of `grow` starts a bucket; the builder it returns appends items
/// to that bucket, and only to that one. Buffered data goes to storage
/// whenever a bucket is started with more than `HIGH_WATER_MARK` bytes in the
/// buffer. `close` finishes the index with a sentinel and hands back the read
/// view.
pub struct MultiVector<'a, S: ResourceSink<'a>> {
    index: ExternalVector<'a, S>,
    data: Vec<u8>,
    data_handle: S,
    size_flushed: u64,
    limit: u64,
    variants: &'a VariantTable,
    buckets: Ghost<Seq<Seq<Record>>>,
}

/// Appends items to the bucket that was started last.
pub struct BucketBuilder<'b, 'a, S: ResourceSink<'a>> {
    pub writer: &'b mut MultiVector<'a, S>,
}

impl<'a, S: ResourceSink<'a>> View for MultiVector<'a, S> {
    type V = WriterState;

    /// The buckets written so far, and how much of their stream is flushed.
    open spec fn view(&self) -> WriterState {
        WriterState { buckets: self.buckets(), flushed: self.size_flushed() }
    }
}

impl<'a, S: ResourceSink<'a>> MultiVector<'a, S> {
    /// The buckets written so far, the last of them still open.
    pub closed spec fn buckets(&self) -> Seq<Seq<Record>> {
        self.buckets@
    }

    /// The bytes of the data stream that have reached the data resource.
    pub closed spec fn stored(&self) -> Seq<u8> {
        self.data_handle.written()
    }

    /// The number of bytes of the data stream that the writer has flushed.
    pub closed spec fn size_flushed(&self) -> nat {
        self.size_flushed as nat
    }

    /// The bytes of the data stream that wait in memory.
    pub closed spec fn buffered(&self) -> Seq<u8> {
        self.data@
    }

    /// The number of further bytes for which the data resource vouches.
    pub closed spec fn room(&self) -> Option<nat> {
        self.data_handle.room()
    }

    /// The writer of the offset index.
    pub closed spec fn index(&self) -> ExternalVector<'a, S> {
        self.index
    }

    /// The payload sizes of the variant set, by tag.
    pub closed spec fn sizes(&self) -> Seq<usize> {
        self.variants@
    }

    /// The name of the data resource.
    pub closed spec fn spec_name(&self) -> Seq<char> {
        self.data_handle.spec_name()
    }

    /// The width of the entries of the index.
    pub open spec fn width(&self) -> IndexWidth {
        self.index().width()
    }

    spec fn data_wf(&self) -> bool {
        &&& self.data_handle.written() + self.data@ == stream_bytes(self.buckets@)
        &&& self.size_flushed == self.data_handle.written().len()
        &&& self.limit == max_offset(self.index.width().bits())
        &&& stream_bytes(self.buckets@).len() <= self.limit
        &&& valid_buckets(self.variants@, self.buckets@)
    }

    spec fn index_wf(&self, entries: Seq<nat>) -> bool {
        &&& self.index.wf()
        &&& self.index.entries() == entries
    }

    /// What is stored and what is buffered are together the stream of the
    /// buckets; the index holds the offset of every bucket; every record is of
    /// the variant set; and the stream is no longer than the index can say.
    pub closed spec fn wf(&self) -> bool {
        &&& self.data_wf()
        &&& self.index_wf(starts(self.buckets@))
    }

    /// A valid writer keeps these at every step: its index is valid and holds
    /// the offset of every bucket so far; what is stored and what is buffered
    /// are, one after the other, the data stream of the buckets, so that the
    /// stream ends at the count of flushed bytes plus the length of the
    /// buffer; the stream is no longer than the largest offset of the index;
    /// and every record is of the variant set.
    pub proof fn lemma_wf(&self)
        requires
            self.wf(),
        ensures
            self.index().wf(),
            self.index().entries() == starts(self.buckets()),
            self.stored() + self.buffered() == stream_bytes(self.buckets()),
            self.size_flushed() == self.stored().len(),
            self.size_flushed() + self.buffered().len() == stream_bytes(self.buckets()).len(),
            stream_bytes(self.buckets()).len() <= max_offset(self.width().bits()),
            valid_buckets(self.sizes(), self.buckets()),
    {
    }

    /// Creates an empty multivector over an empty index and a fresh data
    /// resource.
    pub fn new(index: ExternalVector<'a, S>, data_handle: S, variants: &'a VariantTable) -> (mv:
        Self)
        requires
            index.wf(),
            index.entries().len() == 0,
            data_handle.written().len() == 0,
        ensures
            mv.wf(),
            mv.buckets() == Seq::<Seq<Record>>::empty(),
            mv.stored() == Seq::<u8>::empty(),
            mv.buffered() == Seq::<u8>::empty(),
            mv.size_flushed() == 0,
            mv.room() == data_handle.room(),
            mv.index() == index,
            mv.sizes() == variants@,
            mv.spec_name() == data_handle.spec_name(),
    {
        let limit = index.entry_width().max_value();
        let mv = MultiVector {
            index,
            data: Vec::new(),
            data_handle,
            size_flushed: 0,
            limit,
            variants,
            buckets: Ghost(Seq::empty()),
        };
        assert(mv.index.entries() =~= starts(mv.buckets@));
        mv
    }

    /// Appends a new bucket to the end of this multivector and returns a
    /// builder for it.
    ///
    /// Where more than `HIGH_WATER_MARK` bytes are buffered they are flushed
    /// to the data resource first. Then the offset at which the bucket begins
    /// goes into the index, which may flush in its turn. If either flush fails,
    /// or the index can count no further entry, no bucket is started.
    pub fn grow<'b>(&'b mut self) -> (r: Result<BucketBuilder<'b, 'a, S>, ResourceStorageError>)
        requires
            old(self).wf(),
        ensures
            old(self).grow_is_safe() ==> r is Ok,
            old(self).buckets().len() >= usize::MAX ==> r is Err,
            match r {
                Ok(builder) => {
                    &&& *final(builder.writer) == *final(self)
                    &&& builder.wf()
                    &&& builder.writer@ == step(old(self)@, WriteOp::Grow, HIGH_WATER_MARK as nat)
                    &&& builder.writer.buckets() == old(self).buckets().push(Seq::empty())
                    &&& stream_bytes(builder.writer.buckets()) == stream_bytes(old(self).buckets())
                    &&& builder.writer.data_flushed_by_grow(old(self))
                    &&& builder.writer.index().grown(
                        &old(self).index(),
                        stream_bytes(old(self).buckets()).len() as u64,
                    )
                    &&& builder.writer.sizes() == old(self).sizes()
                    &&& builder.writer.spec_name() == old(self).spec_name()
                },
                Err(ResourceStorageError::Io(_, name)) => {
                    &&& final(self).buckets() == old(self).buckets()
                    &&& final(self).data_flush_failed(old(self), name@)
                        || final(self).index_flush_failed(old(self), name@)
                },
                Err(ResourceStorageError::TooBig(name)) => {
                    &&& name@ == old(self).index().spec_name()
                    &&& old(self).buckets().len() >= usize::MAX
                    &&& final(self).buckets() == old(self).buckets()
                    &&& final(self).data_flushed_by_grow(old(self))
                    &&& final(self).index() == old(self).index()
                },
                Err(_) => false,
            },
    {
        if self.data.len() > HIGH_WATER_MARK {
            match self.flush() {
                Ok(()) => {},
                Err(e) => {
                    return Err(ResourceStorageError::from_io_error(e, self.data_handle.name()));
                },
            }
        }
        match self.add_to_index() {
            Ok(()) => {},
            Err(e) => {
                return Err(e);
            },
        }
        proof {
            lemma_start_bucket(self.buckets@);
        }
        self.buckets = Ghost(self.buckets@.push(Seq::empty()));
        Ok(BucketBuilder { writer: self })
    }

    /// Nothing can keep `grow` from starting a bucket: the index can count one
    /// more entry, and each of the two buffers is within the mark or has a
    /// resource that vouches for its bytes.
    pub open spec fn grow_is_safe(&self) -> bool {
        &&& self.buckets().len() < usize::MAX
        &&& self.buffered().len() <= HIGH_WATER_MARK || has_room(
            self.room(),
            self.buffered().len(),
        )
        &&& self.index().buffered().len() <= HIGH_WATER_MARK || has_room(
            self.index().room(),
            self.index().buffered().len(),
        )
    }

    /// Nothing can keep `close` from handing back the view: the index can
    /// count the sentinel, and each resource vouches for what is still to be
    /// written to it.
    pub open spec fn close_is_safe(&self) -> bool {
        &&& self.buckets().len() < usize::MAX
        &&& has_room(self.room(), self.buffered().len())
        &&& has_room(
            self.index().room(),
            self.index().buffered().len() + entry_size(self.width().bits()),
        )
    }

    /// The data of `self` is that of `before` after `grow` decided about
    /// flushing: everything stored and nothing buffered where the buffer was
    /// over the mark, the same as before where it was not.
    pub open spec fn data_flushed_by_grow(&self, before: &Self) -> bool {
        if before.buffered().len() > HIGH_WATER_MARK {
            &&& self.stored() == before.stored() + before.buffered()
            &&& self.size_flushed() == before.size_flushed() + before.buffered().len()
            &&& self.buffered() == Seq::<u8>::empty()
            &&& room_left(before.room(), self.room(), before.buffered().len())
        } else {
            &&& self.stored() == before.stored()
            &&& self.size_flushed() == before.size_flushed()
            &&& self.buffered() == before.buffered()
            &&& self.room() == before.room()
        }
    }

    /// How `self` stands after the flush of the data of `before` has failed at
    /// the resource named `name`: the buffer was over the mark and is still
    /// whole, the count of flushed bytes has not moved, the index is
    /// untouched, and what the data resource held before it still holds.
    pub open spec fn data_flush_failed(&self, before: &Self, name: Seq<char>) -> bool {
        &&& name == before.spec_name()
        &&& before.buffered().len() > HIGH_WATER_MARK
        &&& !has_room(before.room(), before.buffered().len())
        &&& self.buffered() == before.buffered()
        &&& self.size_flushed() == before.size_flushed()
        &&& before.stored().is_prefix_of(self.stored())
        &&& self.index() == before.index()
    }

    /// How `self` stands after the flush of the index of `before` has failed
    /// at the resource named `name`: the data went through `grow` as ever, the
    /// index buffer was over the mark and is still whole with no entry added,
    /// and what the index resource held before it still holds.
    pub open spec fn index_flush_failed(&self, before: &Self, name: Seq<char>) -> bool {
        &&& name == before.index().spec_name()
        &&& self.data_flushed_by_grow(before)
        &&& before.index().buffered().len() > HIGH_WATER_MARK
        &&& self.index().flush_failed(&before.index())
    }

    /// Flushes the not yet flushed content in this multivector to storage.
    ///
    /// Only data is flushed. After a failure the buffer and the count of
    /// flushed bytes are what they were.
    fn flush(&mut self) -> (r: Result<(), IoError>)
        requires
            old(self).data_wf(),
        ensures
            final(self).index == old(self).index,
            final(self).limit == old(self).limit,
            final(self).variants == old(self).variants,
            final(self).buckets == old(self).buckets,
            final(self).data_handle.spec_name() == old(self).data_handle.spec_name(),
            has_room(old(self).data_handle.room(), old(self).data@.len()) ==> r is Ok,
            match r {
                Ok(()) => {
                    &&& final(self).data_wf()
                    &&& final(self).data_handle.written() == old(self).data_handle.written() + old(
                        self,
                    ).data@
                    &&& final(self).data@ == Seq::<u8>::empty()
                    &&& room_left(
                        old(self).data_handle.room(),
                        final(self).data_handle.room(),
                        old(self).data@.len(),
                    )
                },
                Err(_) => {
                    &&& final(self).data@ == old(self).data@
                    &&& final(self).size_flushed == old(self).size_flushed
                    &&& old(self).data_handle.written().is_prefix_of(
                        final(self).data_handle.written(),
                    )
                },
            },
    {
        let n = self.data.len();
        match self.data_handle.write(self.data.as_slice()) {
            Ok(()) => {
                self.size_flushed = self.size_flushed + n as u64;
                self.data.clear();
                Ok(())
            },
            Err(e) => Err(e),
        }
    }

    /// Appends the offset at which the data stream now ends to the index.
    fn add_to_index(&mut self) -> (r: Result<(), ResourceStorageError>)
        requires
            old(self).data_wf(),
            old(self).index.wf(),
        ensures
            final(self).data == old(self).data,
            final(self).data_handle == old(self).data_handle,
            final(self).size_flushed == old(self).size_flushed,
            final(self).limit == old(self).limit,
            final(self).variants == old(self).variants,
            final(self).buckets == old(self).buckets,
            final(self).index.width() == old(self).index.width(),
            final(self).index.spec_name() == old(self).index.spec_name(),
            (old(self).index.buffered().len() <= HIGH_WATER_MARK || has_room(
                old(self).index.room(),
                old(self).index.buffered().len(),
            )) && old(self).index.entries().len() < usize::MAX ==> r is Ok,
            old(self).index.entries().len() >= usize::MAX ==> r is Err,
            match r {
                Ok(()) => {
                    &&& final(self).index.wf()
                    &&& final(self).index.grown(
                        &old(self).index,
                        stream_bytes(old(self).buckets@).len() as u64,
                    )
                    &&& stream_bytes(old(self).buckets@).len() <= u64::MAX
                },
                Err(ResourceStorageError::Io(_, name)) => {
                    &&& name@ == old(self).index.spec_name()
                    &&& old(self).index.buffered().len() > HIGH_WATER_MARK
                    &&& final(self).index.flush_failed(&old(self).index)
                },
                Err(ResourceStorageError::TooBig(name)) => {
                    &&& name@ == old(self).index.spec_name()
                    &&& old(self).index.entries().len() >= usize::MAX
                    &&& final(self).index == old(self).index
                },
                Err(_) => false,
            },
    {
        let end = self.size_flushed + self.data.len() as u64;
        self.index.grow(end)
    }

    /// Appends one record to the bucket that was started last.
    fn push_record(&mut self, tag: u8, payload: &[u8]) -> (r: Result<(), ResourceStorageError>)
        requires
            old(self).wf(),
            old(self).buckets@.len() > 0,
        ensures
            final(self).wf(),
            final(self).index == old(self).index,
            final(self).data_handle == old(self).data_handle,
            final(self).size_flushed == old(self).size_flushed,
            final(self).variants == old(self).variants,
            match r {
                Ok(()) => {
                    &&& payload_size(old(self).variants@, tag) == Some(payload@.len())
                    &&& stream_bytes(old(self).buckets@).len() + 1 + payload@.len() <= max_offset(
                        old(self).index.width().bits(),
                    )
                    &&& final(self).buckets@ == push_record(
                        old(self).buckets@,
                        Record { tag, payload: payload@ },
                    )
                    &&& final(self).data@ == old(self).data@ + record_bytes(
                        Record { tag, payload: payload@ },
                    )
                },
                Err(e) => {
                    &&& final(self).buckets@ == old(self).buckets@
                    &&& final(self).data@ == old(self).data@
                    &&& match e {
                        ResourceStorageError::UnknownTag(t) => t == tag && payload_size(
                            old(self).variants@,
                            tag,
                        ) is None,
                        ResourceStorageError::WrongSize(t) => {
                            &&& t == tag
                            &&& payload_size(old(self).variants@, tag) matches Some(n)
                            &&& n != payload@.len()
                        },
                        ResourceStorageError::TooBig(name) => {
                            &&& name@ == old(self).data_handle.spec_name()
                            &&& payload_size(old(self).variants@, tag) == Some(payload@.len())
                            &&& stream_bytes(old(self).buckets@).len() + 1 + payload@.len()
                                > max_offset(old(self).index.width().bits())
                        },
                        ResourceStorageError::Io(_, _) => false,
                    }
                },
            },
    {
        let size = match self.variants.size_of(tag) {
            Some(size) => size,
            None => {
                return Err(ResourceStorageError::UnknownTag(tag));
            },
        };
        if payload.len() != size {
            return Err(ResourceStorageError::WrongSize(tag));
        }
        let end = self.size_flushed + self.data.len() as u64;
        let room = self.limit - end;
        if room == 0 || payload.len() as u64 > room - 1 {
            return Err(ResourceStorageError::TooBig(self.data_handle.name()));
        }
        let ghost record = Record { tag, payload: payload@ };
        let ghost before = self.data@;
        proof {
            lemma_push_record(self.buckets@, record);
        }
        self.data.push(tag);
        self.data.extend_from_slice(payload);
        self.buckets = Ghost(push_record(self.buckets@, record));
        assert(self.data_handle.written() + self.data@ =~= (self.data_handle.written() + before)
            + record_bytes(record));
        assert(valid_buckets(self.variants@, self.buckets@)) by {
            assert forall|i: int| 0 <= i < self.buckets@.len() implies valid_bucket(
                self.variants@,
                #[trigger] self.buckets@[i],
            ) by {
                assert(valid_bucket(self.variants@, old(self).buckets@[i]));
            }
        }
        Ok(())
    }

    /// Flushes the remaining not yet flushed elements in this multivector and
    /// finalizes the data inside the storage.
    ///
    /// The sentinel goes into the index, the buffered data is flushed, the
    /// index is closed and the data resource is sealed. The view that comes
    /// back reads every bucket as it was written.
    pub fn close(self) -> (r: Result<MultiArrayView<'a>, ResourceStorageError>)
        requires
            self.wf(),
        ensures
            self.close_is_safe() ==> r is Ok,
            self.buckets().len() >= usize::MAX ==> r is Err,
            match r {
                Ok(view) => {
                    &&& view.entries() == sealed_index(self@)
                    &&& view.data() == sealed_data(self@)
                    &&& view.sizes() == self.sizes()
                    &&& view.spec_len() == self.buckets().len()
                    &&& view.entries().last() == view.data().len()
                    &&& forall|i: int|
                        0 <= i < self.buckets().len() ==> #[trigger] view.bucket(i) == all_ok(
                            self.buckets()[i],
                        )
                },
                Err(ResourceStorageError::Io(_, name)) => name@ == self.spec_name() || name@
                    == self.index().spec_name(),
                Err(ResourceStorageError::TooBig(name)) => {
                    &&& name@ == self.index().spec_name()
                    &&& self.buckets().len() >= usize::MAX
                },
                Err(_) => false,
            },
    {
        let mut this = self;
        let name = this.data_handle.name();
        proof {
            lemma_entry_bytes_len(
                stream_bytes(this.buckets@).len(),
                entry_size(this.index.width().bits()),
            );
        }
        match this.add_to_index() {
            Ok(()) => {},
            Err(e) => {
                return Err(e);
            },
        }
        match this.flush() {
            Ok(()) => {},
            Err(e) => {
                return Err(ResourceStorageError::from_io_error(e, name));
            },
        }
        let ghost buckets = this.buckets@;
        let ghost sizes = this.variants@;
        proof {
            lemma_start_bucket(buckets);
        }
        let variants = this.variants;
        let index_view = match this.index.close() {
            Ok(view) => view,
            Err(e) => {
                return Err(e);
            },
        };
        let data = match this.data_handle.close() {
            Ok(data) => data,
            Err(e) => {
                return Err(ResourceStorageError::from_io_error(e, name));
            },
        };
        let view = match MultiArrayView::new(index_view, data, variants) {
            Ok(view) => view,
            Err(_) => vstd::pervasive::unreached(),
        };
        proof {
            assert forall|i: int| 0 <= i < buckets.len() implies #[trigger] view.bucket(i)
                == all_ok(buckets[i]) by {
                lemma_bucket_in_stream(buckets, i);
                lemma_stream_prefix(buckets, 0, i);
                lemma_decode_bucket(
                    sizes,
                    stream_bytes(buckets),
                    offsets(buckets)[i] as int,
                    offsets(buckets)[i + 1] as int,
                    buckets[i],
                );
            }
        }
        Ok(view)
    }
}

impl<'b, 'a, S: ResourceSink<'a>> BucketBuilder<'b, 'a, S> {
    /// The builder stands on a valid writer that has a bucket to fill.
    pub open spec fn wf(&self) -> bool {
        &&& self.writer.wf()
        &&& self.writer.buckets().len() > 0
    }

    /// The variant set has no variant with tag `tag`.
    pub open spec fn unknown_tag(&self, tag: u8) -> bool {
        payload_size(self.writer.sizes(), tag) is None
    }

    /// The variant with tag `tag` has not the size of `payload`.
    pub open spec fn wrong_size(&self, tag: u8, payload: Seq<u8>) -> bool {
        payload_size(self.writer.sizes(), tag) matches Some(n) && n != payload.len()
    }

    /// The record is of the variant set, and with it the data stream would be
    /// longer than the largest offset that the index can hold.
    pub open spec fn too_big(&self, tag: u8, payload: Seq<u8>) -> bool {
        &&& payload_size(self.writer.sizes(), tag) == Some(payload.len())
        &&& stream_bytes(self.writer.buckets()).len() + 1 + payload.len() > max_offset(
            self.writer.width().bits(),
        )
    }

    /// Appends the item with tag `tag` and encoded fields `payload` to the
    /// bucket.
    ///
    /// The item is refused, and nothing changes, where the tag is not of the
    /// variant set (`UnknownTag`), else where the payload has not the
    /// variant's size (`WrongSize`), else where the data stream would grow past
    /// the largest offset that the index can hold (`TooBig`).
    pub fn add(&mut self, tag: u8, payload: &[u8]) -> (r: Result<(), ResourceStorageError>)
        requires
            old(self).wf(),
        ensures
            *final(final(self).writer) == *final(old(self).writer),
            final(self).wf(),
            final(self).writer.stored() == old(self).writer.stored(),
            final(self).writer.size_flushed() == old(self).writer.size_flushed(),
            final(self).writer.room() == old(self).writer.room(),
            final(self).writer.index() == old(self).writer.index(),
            final(self).writer.sizes() == old(self).writer.sizes(),
            final(self).writer.spec_name() == old(self).writer.spec_name(),
            match r {
                Ok(()) => {
                    &&& final(self).writer@ == step(
                        old(self).writer@,
                        WriteOp::Add(Record { tag, payload: payload@ }),
                        HIGH_WATER_MARK as nat,
                    )
                    &&& final(self).writer.buckets() == push_record(
                        old(self).writer.buckets(),
                        Record { tag, payload: payload@ },
                    )
                    &&& final(self).writer.buffered() == old(self).writer.buffered()
                        + record_bytes(Record { tag, payload: payload@ })
                },
                Err(_) => {
                    &&& final(self).writer.buckets() == old(self).writer.buckets()
                    &&& final(self).writer.buffered() == old(self).writer.buffered()
                },
            },
            (r matches Err(ResourceStorageError::UnknownTag(_))) <==> old(self).unknown_tag(tag),
            (r matches Err(ResourceStorageError::WrongSize(_))) <==> old(self).wrong_size(
                tag,
                payload@,
            ),
            (r matches Err(ResourceStorageError::TooBig(_))) <==> old(self).too_big(tag, payload@),
            r matches Err(ResourceStorageError::UnknownTag(t)) ==> t == tag,
            r matches Err(ResourceStorageError::WrongSize(t)) ==> t == tag,
            r matches Err(ResourceStorageError::TooBig(name)) ==> name@ == old(
                self,
            ).writer.spec_name(),
            !(r matches Err(ResourceStorageError::Io(_, _))),
    {
        self.writer.push_record(tag, payload)
    }
}

} // verus!
