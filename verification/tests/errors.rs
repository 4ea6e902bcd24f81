use multivector::arrayview::ArrayView;
use multivector::error::{FormatError, IoError, ResourceStorageError};
use multivector::index::IndexWidth;
use multivector::multiarrayview::MultiArrayView;
use multivector::multivector::MultiVector;
use multivector::storage::{MemorySink, ResourceSink};
use multivector::variant::VariantTable;
use multivector::vector::ExternalVector;

#[test]
fn unknown_tag_at_bucket_start_is_reported() {
    let variants = VariantTable::new(vec![4, 2]).unwrap();
    let width = IndexWidth::new(8).unwrap();
    // one bucket of five bytes whose first byte is no tag
    let index_bytes = vec![0u8, 5];
    let data_bytes = vec![2u8, 1, 0, 2, 0];
    let view =
        MultiArrayView::new(ArrayView::new(&index_bytes, width), &data_bytes, &variants).unwrap();
    let mut items = view.at(0);
    assert_eq!(items.next().map(|r| r.map(|i| i.tag)), Some(Err(FormatError::UnknownTag(2))));
    // the read stops there
    assert!(items.next().is_none());
}

#[test]
fn unknown_tag_after_good_records_is_reported_in_its_place() {
    let variants = VariantTable::new(vec![1]).unwrap();
    let width = IndexWidth::new(8).unwrap();
    let index_bytes = vec![0u8, 6];
    let data_bytes = vec![0u8, 10, 0, 11, 200, 0];
    let view =
        MultiArrayView::new(ArrayView::new(&index_bytes, width), &data_bytes, &variants).unwrap();
    let mut items = view.at(0);
    assert_eq!(items.next().unwrap().unwrap().payload, &[10u8][..]);
    assert_eq!(items.next().unwrap().unwrap().payload, &[11u8][..]);
    assert_eq!(items.next().unwrap().err(), Some(FormatError::UnknownTag(200)));
    assert!(items.next().is_none());
}

#[test]
fn record_that_passes_the_bucket_end_is_reported() {
    let variants = VariantTable::new(vec![4]).unwrap();
    let width = IndexWidth::new(8).unwrap();
    // the bucket ends after three bytes, the record needs five
    let index_bytes = vec![0u8, 3, 10];
    let data_bytes = vec![0u8, 1, 0, 2, 0, 0, 9, 9, 9, 9];
    let view =
        MultiArrayView::new(ArrayView::new(&index_bytes, width), &data_bytes, &variants).unwrap();
    let mut items = view.at(0);
    assert_eq!(items.next().unwrap().err(), Some(FormatError::TruncatedRecord(0)));
    assert!(items.next().is_none());
}

#[test]
fn offsets_that_are_no_range_are_reported() {
    let variants = VariantTable::new(vec![0]).unwrap();
    let width = IndexWidth::new(8).unwrap();
    let data_bytes = vec![0u8, 0, 0];

    // decreasing
    let index_bytes = vec![2u8, 1, 3];
    let view =
        MultiArrayView::new(ArrayView::new(&index_bytes, width), &data_bytes, &variants).unwrap();
    let mut items = view.at(0);
    assert_eq!(items.next().unwrap().err(), Some(FormatError::BadOffsets));
    assert!(items.next().is_none());
    // the next bucket is a range and reads well
    let mut items = view.at(1);
    assert!(items.next().unwrap().is_ok());
    assert!(items.next().unwrap().is_ok());
    assert!(items.next().is_none());

    // past the end of the data
    let index_bytes = vec![0u8, 4];
    let view =
        MultiArrayView::new(ArrayView::new(&index_bytes, width), &data_bytes, &variants).unwrap();
    assert_eq!(view.at(0).next().unwrap().err(), Some(FormatError::BadOffsets));
}

#[test]
fn index_without_entries_is_refused() {
    let variants = VariantTable::new(vec![0]).unwrap();
    let width = IndexWidth::new(16).unwrap();
    let data_bytes: Vec<u8> = Vec::new();
    let index_bytes: Vec<u8> = Vec::new();
    let r = MultiArrayView::new(ArrayView::new(&index_bytes, width), &data_bytes, &variants);
    assert_eq!(r.err(), Some(FormatError::MissingSentinel));
    // one byte is not yet an entry of two
    let index_bytes = vec![0u8];
    let r = MultiArrayView::new(ArrayView::new(&index_bytes, width), &data_bytes, &variants);
    assert_eq!(r.err(), Some(FormatError::MissingSentinel));
}

#[test]
fn add_refuses_what_is_no_record_of_the_set() {
    let variants = VariantTable::new(vec![4, 2]).unwrap();
    let width = IndexWidth::new(32).unwrap();
    let mut index_bytes = Vec::new();
    let mut data_bytes = Vec::new();
    {
        let index = ExternalVector::new(MemorySink::new("index", &mut index_bytes), width);
        let mut mv = MultiVector::new(index, MemorySink::new("data", &mut data_bytes), &variants);
        let mut builder = mv.grow().unwrap();
        assert_eq!(builder.add(2, &[1, 2]), Err(ResourceStorageError::UnknownTag(2)));
        assert_eq!(builder.add(255, &[]), Err(ResourceStorageError::UnknownTag(255)));
        assert_eq!(builder.add(0, &[1, 2]), Err(ResourceStorageError::WrongSize(0)));
        assert_eq!(builder.add(1, &[1, 2, 3, 4]), Err(ResourceStorageError::WrongSize(1)));
        assert_eq!(builder.add(1, &[1, 2]), Ok(()));
        mv.close().unwrap();
    }
    // the refused records left nothing behind
    assert_eq!(data_bytes, vec![1, 1, 2]);
    assert_eq!(index_bytes, vec![0, 0, 0, 0, 3, 0, 0, 0]);
}

#[test]
fn add_refuses_to_grow_past_the_index_width() {
    // 8 bits: the largest offset, and so the longest stream, is 255
    let variants = VariantTable::new(vec![50, 3]).unwrap();
    let width = IndexWidth::new(8).unwrap();
    let mut index_bytes = Vec::new();
    let mut data_bytes = Vec::new();
    {
        let index = ExternalVector::new(MemorySink::new("index", &mut index_bytes), width);
        let mut mv = MultiVector::new(index, MemorySink::new("data", &mut data_bytes), &variants);
        {
            let mut builder = mv.grow().unwrap();
            for _ in 0..4 {
                builder.add(0, &[7; 50]).unwrap();
            }
        }
        let mut builder = mv.grow().unwrap();
        // 204 bytes so far; 51 more make 255 and still fit
        builder.add(0, &[8; 50]).unwrap();
        assert_eq!(
            builder.add(1, &[1, 2, 3]),
            Err(ResourceStorageError::TooBig(String::from("data")))
        );
        let view = mv.close().unwrap();
        assert_eq!(view.len(), 2);
    }
    assert_eq!(data_bytes.len(), 255);
    assert_eq!(index_bytes, vec![0, 204, 255]);
}

#[test]
fn failed_write_of_the_data_is_reported_with_its_name() {
    let variants = VariantTable::new(vec![4]).unwrap();
    let width = IndexWidth::new(32).unwrap();
    let mut index_bytes = Vec::new();
    let mut data_bytes = Vec::new();
    let index = ExternalVector::new(MemorySink::new("multivector_index", &mut index_bytes), width);
    let data = MemorySink::with_limit("multivector", &mut data_bytes, 9);
    let mut mv = MultiVector::new(index, data, &variants);
    {
        let mut builder = mv.grow().unwrap();
        builder.add(0, &[1, 0, 2, 0]).unwrap();
        builder.add(0, &[3, 0, 4, 0]).unwrap();
    }
    assert_eq!(
        mv.close().err(),
        Some(ResourceStorageError::Io(IoError::StorageFull, String::from("multivector")))
    );
}

#[test]
fn failed_write_of_the_index_is_reported_with_its_name() {
    let variants = VariantTable::new(vec![4]).unwrap();
    let width = IndexWidth::new(32).unwrap();
    let mut index_bytes = Vec::new();
    let mut data_bytes = Vec::new();
    let index = ExternalVector::new(
        MemorySink::with_limit("multivector_index", &mut index_bytes, 7),
        width,
    );
    let mut mv = MultiVector::new(index, MemorySink::new("multivector", &mut data_bytes), &variants);
    mv.grow().unwrap();
    assert_eq!(
        mv.close().err(),
        Some(ResourceStorageError::Io(IoError::StorageFull, String::from("multivector_index")))
    );
}

/// A sink that takes a number of writes and fails from then on.
struct Flaky<'a> {
    store: &'a mut Vec<u8>,
    good_writes: usize,
    seal_fails: bool,
}

impl<'a> ResourceSink<'a> for Flaky<'a> {
    fn spec_name(&self) -> vstd::seq::Seq<char> {
        unreachable!()
    }

    fn written(&self) -> vstd::seq::Seq<u8> {
        unreachable!()
    }

    fn room(&self) -> Option<vstd::prelude::nat> {
        unreachable!()
    }

    fn name(&self) -> String {
        String::from("flaky")
    }

    fn write(&mut self, bytes: &[u8]) -> Result<(), IoError> {
        if self.good_writes == 0 {
            return Err(IoError::Other(5));
        }
        self.good_writes -= 1;
        self.store.extend_from_slice(bytes);
        Ok(())
    }

    fn close(self) -> Result<&'a [u8], IoError> {
        if self.seal_fails {
            return Err(IoError::Interrupted);
        }
        let store: &'a Vec<u8> = self.store;
        Ok(store.as_slice())
    }
}

#[test]
fn failed_flush_in_grow_starts_no_bucket() {
    let record = 65_535usize;
    let variants = VariantTable::new(vec![record]).unwrap();
    let width = IndexWidth::new(32).unwrap();
    let payload = vec![1u8; record];
    let mut index_bytes = Vec::new();
    let mut data_bytes = Vec::new();
    {
        let index = ExternalVector::new(
            Flaky { store: &mut index_bytes, good_writes: 10, seal_fails: false },
            width,
        );
        let data = Flaky { store: &mut data_bytes, good_writes: 0, seal_fails: false };
        let mut mv = MultiVector::new(index, data, &variants);
        {
            let mut builder = mv.grow().unwrap();
            for _ in 0..513 {
                builder.add(0, &payload).unwrap();
            }
        }
        match mv.grow() {
            Ok(_) => panic!("the flush cannot have succeeded"),
            Err(e) => {
                assert_eq!(e, ResourceStorageError::Io(IoError::Other(5), String::from("flaky")))
            }
        }
    }
    // nothing reached the data, and the index was never flushed
    assert!(data_bytes.is_empty());
    assert!(index_bytes.is_empty());
}

#[test]
fn failed_seal_is_reported_with_the_name() {
    let variants = VariantTable::new(vec![1]).unwrap();
    let width = IndexWidth::new(32).unwrap();
    let mut index_bytes = Vec::new();
    let mut data_bytes = Vec::new();
    let index = ExternalVector::new(
        Flaky { store: &mut index_bytes, good_writes: 10, seal_fails: false },
        width,
    );
    let data = Flaky { store: &mut data_bytes, good_writes: 10, seal_fails: true };
    let mut mv = MultiVector::new(index, data, &variants);
    mv.grow().unwrap().add(0, &[3]).unwrap();
    assert_eq!(
        mv.close().err(),
        Some(ResourceStorageError::Io(IoError::Interrupted, String::from("flaky")))
    );
}

#[test]
fn from_io_error_keeps_the_error_and_the_name() {
    assert_eq!(
        ResourceStorageError::from_io_error(IoError::Other(28), String::from("some_resource")),
        ResourceStorageError::Io(IoError::Other(28), String::from("some_resource"))
    );
}

#[test]
fn memory_sink_takes_bytes_up_to_its_limit() {
    let mut store = vec![9u8, 9, 9];
    {
        let mut sink = MemorySink::with_limit("bounded", &mut store, 4);
        assert_eq!(sink.name(), "bounded");
        assert_eq!(sink.write(&[1, 2, 3]), Ok(()));
        assert_eq!(sink.write(&[4, 5]), Err(IoError::StorageFull));
        assert_eq!(sink.write(&[4]), Ok(()));
        assert_eq!(sink.write(&[]), Ok(()));
        assert_eq!(sink.write(&[5]), Err(IoError::StorageFull));
        assert_eq!(sink.close(), Ok(&[1u8, 2, 3, 4][..]));
    }
    // what was in the vector before is gone; a refused write left nothing
    assert_eq!(store, vec![1, 2, 3, 4]);
}
