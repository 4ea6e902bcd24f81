//! The write side of the offset index: an append-only vector of fixed-width
//! entries that buffers in memory and flushes to its backing resource.

use crate::arrayview::ArrayView;
use crate::error::{IoError, ResourceStorageError};
use crate::format::{index_bytes, lemma_index_bytes_push, lemma_index_round_trip};
use crate::index::{entry_size, max_offset, IndexWidth};
use crate::storage::{has_room, room_left, ResourceSink};
use core::marker::PhantomData;
use vstd::prelude::*;

verus! {

/// The number of buffered bytes above which a writer flushes its buffer
/// before it takes more.
pub const HIGH_WATER_MARK: usize = 33_554_432;

/// An append-only vector of offsets, written through to a sink.
pub struct ExternalVector<'a, S: ResourceSink<'a>> {
    data: Vec<u8>,
    len: usize,
    handle: S,
    width: IndexWidth,
    entries: Ghost<Seq<nat>>,
    marker: PhantomData<&'a u8>,
}

impl<'a, S: ResourceSink<'a>> ExternalVector<'a, S> {
    /// The offsets appended so far.
    pub closed spec fn entries(&self) -> Seq<nat> {
        self.entries@
    }

    /// The bytes that have reached the backing resource.
    pub closed spec fn stored(&self) -> Seq<u8> {
        self.handle.written()
    }

    /// The bytes that wait in memory.
    pub closed spec fn buffered(&self) -> Seq<u8> {
        self.data@
    }

    /// The number of further bytes for which the backing resource vouches.
    pub closed spec fn room(&self) -> Option<nat> {
        self.handle.room()
    }

    /// The width of the entries.
    pub closed spec fn width(&self) -> IndexWidth {
        self.width
    }

    /// The name of the backing resource.
    pub closed spec fn spec_name(&self) -> Seq<char> {
        self.handle.spec_name()
    }

    /// What is stored and what is buffered are together the encoding of the
    /// entries, each of which fits the width.
    pub closed spec fn wf(&self) -> bool {
        &&& self.len == self.entries@.len()
        &&& self.handle.written() + self.data@ == index_bytes(
            self.entries@,
            entry_size(self.width.bits()),
        )
        &&& forall|i: int|
            0 <= i < self.entries@.len() ==> #[trigger] self.entries@[i] <= max_offset(
                self.width.bits(),
            )
    }

    /// A valid vector keeps these at every step: what is stored and what is
    /// buffered are, one after the other, the encoding of the entries, and
    /// every entry fits the width.
    pub proof fn lemma_wf(&self)
        requires
            self.wf(),
        ensures
            self.stored() + self.buffered() == index_bytes(
                self.entries(),
                entry_size(self.width().bits()),
            ),
            forall|i: int|
                0 <= i < self.entries().len() ==> #[trigger] self.entries()[i] <= max_offset(
                    self.width().bits(),
                ),
    {
    }

    /// An empty vector of entries of width `width` over a fresh resource.
    pub fn new(handle: S, width: IndexWidth) -> (v: Self)
        requires
            handle.written().len() == 0,
        ensures
            v.wf(),
            v.entries() == Seq::<nat>::empty(),
            v.stored() == Seq::<u8>::empty(),
            v.buffered() == Seq::<u8>::empty(),
            v.room() == handle.room(),
            v.width() == width,
            v.spec_name() == handle.spec_name(),
    {
        let v = ExternalVector {
            data: Vec::new(),
            len: 0,
            handle,
            width,
            entries: Ghost(Seq::empty()),
            marker: PhantomData,
        };
        v
    }

    /// The number of entries appended so far.
    pub fn len(&self) -> (n: usize)
        requires
            self.wf(),
        ensures
            n == self.entries().len(),
    {
        self.len
    }

    /// The width of the entries.
    pub fn entry_width(&self) -> (w: IndexWidth)
        ensures
            w == self.width(),
    {
        self.width
    }

    /// `self` is `before` with the entry `value` appended: the buffer was
    /// flushed first where it held more than `HIGH_WATER_MARK` bytes, and the
    /// bytes of the entry are buffered.
    pub open spec fn grown(&self, before: &Self, value: u64) -> bool {
        &&& self.entries() == before.entries().push(value as nat)
        &&& self.width() == before.width()
        &&& self.spec_name() == before.spec_name()
        &&& if before.buffered().len() > HIGH_WATER_MARK {
            &&& self.stored() == before.stored() + before.buffered()
            &&& self.buffered() == entry_bytes_of(value, before.width())
            &&& room_left(before.room(), self.room(), before.buffered().len())
        } else {
            &&& self.stored() == before.stored()
            &&& self.buffered() == before.buffered() + entry_bytes_of(value, before.width())
            &&& self.room() == before.room()
        }
    }

    /// `self` is `before` after its flush has failed: no entry was added, the
    /// buffer is whole, and what the resource held before it still holds.
    pub open spec fn flush_failed(&self, before: &Self) -> bool {
        &&& !has_room(before.room(), before.buffered().len())
        &&& self.entries() == before.entries()
        &&& self.buffered() == before.buffered()
        &&& before.stored().is_prefix_of(self.stored())
        &&& self.width() == before.width()
        &&& self.spec_name() == before.spec_name()
    }

    /// Appends the entry `value`.
    ///
    /// A value that the width cannot hold is refused with `TooBig` (as is an
    /// entry beyond the count a `usize` can hold) and nothing changes. Else,
    /// where more than `HIGH_WATER_MARK` bytes are buffered, the buffer is
    /// flushed first; if that fails the entry is not appended. The flush
    /// succeeds where the resource vouches for the buffered bytes.
    pub fn grow(&mut self, value: u64) -> (r: Result<(), ResourceStorageError>)
        requires
            old(self).wf(),
        ensures
            (r matches Err(ResourceStorageError::TooBig(_))) <==> (value > max_offset(
                old(self).width().bits(),
            ) || old(self).entries().len() >= usize::MAX),
            (old(self).buffered().len() <= HIGH_WATER_MARK || has_room(
                old(self).room(),
                old(self).buffered().len(),
            )) && !(r matches Err(ResourceStorageError::TooBig(_))) ==> r is Ok,
            match r {
                Ok(()) => final(self).wf() && final(self).grown(old(self), value),
                Err(ResourceStorageError::TooBig(name)) => {
                    &&& name@ == old(self).spec_name()
                    &&& *final(self) == *old(self)
                },
                Err(ResourceStorageError::Io(_, name)) => {
                    &&& name@ == old(self).spec_name()
                    &&& old(self).buffered().len() > HIGH_WATER_MARK
                    &&& final(self).flush_failed(old(self))
                },
                Err(_) => false,
            },
    {
        if value > self.width.max_value() || self.len == usize::MAX {
            return Err(ResourceStorageError::TooBig(self.handle.name()));
        }
        if self.data.len() > HIGH_WATER_MARK {
            match self.flush() {
                Ok(()) => {},
                Err(e) => {
                    return Err(ResourceStorageError::from_io_error(e, self.handle.name()));
                },
            }
        }
        proof {
            lemma_index_bytes_push(self.entries@, value as nat, entry_size(self.width.bits()));
        }
        let ghost stored = self.handle.written();
        let ghost buffered = self.data@;
        self.width.encode(value, &mut self.data);
        self.len = self.len + 1;
        self.entries = Ghost(self.entries@.push(value as nat));
        assert(stored + self.data@ =~= (stored + buffered) + entry_bytes_of(value, self.width));
        Ok(())
    }

    /// Writes the buffered bytes to the backing resource and empties the
    /// buffer. After a failure the buffer is as it was.
    fn flush(&mut self) -> (r: Result<(), IoError>)
        requires
            old(self).wf(),
        ensures
            final(self).width() == old(self).width(),
            final(self).spec_name() == old(self).spec_name(),
            final(self).entries() == old(self).entries(),
            final(self).len == old(self).len,
            has_room(old(self).room(), old(self).buffered().len()) ==> r is Ok,
            match r {
                Ok(()) => {
                    &&& final(self).wf()
                    &&& final(self).stored() == old(self).stored() + old(self).buffered()
                    &&& final(self).buffered() == Seq::<u8>::empty()
                    &&& room_left(old(self).room(), final(self).room(), old(self).buffered().len())
                },
                Err(_) => final(self).flush_failed(old(self)),
            },
    {
        match self.handle.write(self.data.as_slice()) {
            Ok(()) => {
                self.data.clear();
                Ok(())
            },
            Err(e) => Err(e),
        }
    }

    /// Flushes what is buffered, seals the backing resource and hands back the
    /// view of the entries. A failure carries the resource's name.
    pub fn close(self) -> (r: Result<ArrayView<'a>, ResourceStorageError>)
        requires
            self.wf(),
        ensures
            has_room(self.room(), self.buffered().len()) ==> r is Ok,
            match r {
                Ok(view) => {
                    &&& view@ == self.entries()
                    &&& view.width() == self.width()
                    &&& view.bytes() == index_bytes(
                        self.entries(),
                        entry_size(self.width().bits()),
                    )
                },
                Err(ResourceStorageError::Io(_, name)) => name@ == self.spec_name(),
                Err(_) => false,
            },
    {
        let mut this = self;
        let name = this.handle.name();
        match this.flush() {
            Ok(()) => {},
            Err(e) => {
                return Err(ResourceStorageError::from_io_error(e, name));
            },
        }
        let width = this.width;
        let bits = width.size_in_bits();
        proof {
            lemma_index_round_trip(this.entries@, bits as nat);
        }
        match this.handle.close() {
            Ok(bytes) => Ok(ArrayView::new(bytes, width)),
            Err(e) => Err(ResourceStorageError::from_io_error(e, name)),
        }
    }
}

/// The bytes of the entry for `value` at width `width`.
pub open spec fn entry_bytes_of(value: u64, width: IndexWidth) -> Seq<u8> {
    crate::index::entry_bytes(value as nat, entry_size(width.bits()))
}

} // verus!
