//! The interface of the backing storage, and a sink that lives in memory.

use crate::error::IoError;
use vstd::prelude::*;

verus! {

/// A named, append-only byte resource of the backing storage.
///
/// A sink takes bytes in order and, once sealed, hands back everything it
/// took as one read-only range that lives as long as the storage does.
pub trait ResourceSink<'a>: Sized {
    /// The resource's name.
    spec fn spec_name(&self) -> Seq<char>;

    /// The bytes that have reached the resource so far.
    spec fn written(&self) -> Seq<u8>;

    /// The number of further bytes for which the resource vouches: it is
    /// sure to take that many, in whatever pieces, and then to seal. `None`
    /// where it vouches for nothing.
    spec fn room(&self) -> Option<nat>;

    fn name(&self) -> (n: String)
        ensures
            n@ == self.spec_name(),
    ;

    /// Appends `bytes` to the resource. It succeeds where the resource has
    /// vouched for as many bytes. After a failure the bytes that were there
    /// before are still there; how many of the new ones arrived is open.
    fn write(&mut self, bytes: &[u8]) -> (r: Result<(), IoError>)
        ensures
            final(self).spec_name() == old(self).spec_name(),
            has_room(old(self).room(), bytes@.len()) ==> r is Ok,
            r is Ok ==> final(self).written() == old(self).written() + bytes@,
            r is Ok ==> room_left(old(self).room(), final(self).room(), bytes@.len()),
            r is Err ==> old(self).written().is_prefix_of(final(self).written()),
    ;

    /// Seals the resource and hands back its content. It succeeds where the
    /// resource vouches for anything.
    fn close(self) -> (r: Result<&'a [u8], IoError>)
        ensures
            self.room() is Some ==> r is Ok,
            r matches Ok(bytes) ==> bytes@ == self.written(),
    ;
}

/// A resource with `room` vouches for `bytes` more bytes.
pub open spec fn has_room(room: Option<nat>, bytes: nat) -> bool {
    room matches Some(n) && bytes <= n
}

/// Where a resource that vouched for `before` has taken `bytes` bytes within
/// that, it vouches for the rest: `after`.
pub open spec fn room_left(before: Option<nat>, after: Option<nat>, bytes: nat) -> bool {
    match before {
        Some(n) => bytes <= n ==> after == Some((n - bytes) as nat),
        None => true,
    }
}

/// A sink that appends to a byte vector of the caller, up to a limit.
pub struct MemorySink<'a> {
    name: String,
    store: &'a mut Vec<u8>,
    free: usize,
}

impl<'a> MemorySink<'a> {
    /// A sink named `name` that empties `store` and then appends to it
    /// without a limit of its own.
    pub fn new(name: &str, store: &'a mut Vec<u8>) -> (sink: Self)
        ensures
            sink.spec_name() == name@,
            sink.written() == Seq::<u8>::empty(),
            sink.room() == Some(usize::MAX as nat),
    {
        Self::with_limit(name, store, usize::MAX)
    }

    /// A sink named `name` that empties `store` and then takes `limit` bytes
    /// at most.
    pub fn with_limit(name: &str, store: &'a mut Vec<u8>, limit: usize) -> (sink: Self)
        ensures
            sink.spec_name() == name@,
            sink.written() == Seq::<u8>::empty(),
            sink.room() == Some(limit as nat),
    {
        store.clear();
        MemorySink { name: name.to_owned(), store, free: limit }
    }
}

impl<'a> ResourceSink<'a> for MemorySink<'a> {
    closed spec fn spec_name(&self) -> Seq<char> {
        self.name@
    }

    closed spec fn written(&self) -> Seq<u8> {
        (*self.store)@
    }

    /// What the limit leaves.
    closed spec fn room(&self) -> Option<nat> {
        Some(self.free as nat)
    }

    fn name(&self) -> (n: String) {
        self.name.clone()
    }

    /// Fails with `StorageFull`, and takes nothing, exactly when the bytes
    /// would pass the limit.
    fn write(&mut self, bytes: &[u8]) -> (r: Result<(), IoError>)
        ensures
            r is Ok <==> has_room(old(self).room(), bytes@.len()),
            r is Err ==> r == Err::<(), IoError>(IoError::StorageFull) && final(self).written()
                == old(self).written() && final(self).room() == old(self).room(),
    {
        if bytes.len() > self.free {
            return Err(IoError::StorageFull);
        }
        self.store.extend_from_slice(bytes);
        self.free = self.free - bytes.len();
        Ok(())
    }

    /// Never fails.
    fn close(self) -> (r: Result<&'a [u8], IoError>)
        ensures
            r is Ok,
    {
        let store: &'a Vec<u8> = self.store;
        Ok(store.as_slice())
    }
}

} // verus!
