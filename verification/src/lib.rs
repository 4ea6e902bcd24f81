//! An indexed container of heterogeneous, variable-length buckets, stored as a
//! flat byte stream of tagged records and an index of byte offsets.
//!
//! A [`multivector::MultiVector`] takes buckets in order, each a run of
//! tagged records, and streams them to two resources of the backing storage:
//! the data, and the offset at which each bucket begins. Closing it adds the
//! sentinel offset and yields a [`multiarrayview::MultiArrayView`], which
//! finds the items of any bucket between two offsets and decodes them where
//! they lie. [`format`] says what the stored bytes are, and proves that what
//! is read is what was written.

pub mod arrayview;
pub mod error;
pub mod format;
pub mod index;
pub mod multiarrayview;
pub mod multivector;
pub mod storage;
pub mod variant;
pub mod vector;
