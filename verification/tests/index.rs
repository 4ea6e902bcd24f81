use multivector::arrayview::ArrayView;
use multivector::error::{IoError, ResourceStorageError};
use multivector::index::IndexWidth;
use multivector::storage::MemorySink;
use multivector::variant::VariantTable;
use multivector::vector::{ExternalVector, HIGH_WATER_MARK};

#[test]
fn index_width_exists_from_1_to_64_bits() {
    assert!(IndexWidth::new(0).is_none());
    assert!(IndexWidth::new(65).is_none());
    assert!(IndexWidth::new(usize::MAX).is_none());
    for bits in 1..=64 {
        let width = IndexWidth::new(bits).unwrap();
        assert_eq!(width.size_in_bits(), bits);
        assert_eq!(width.size_in_bytes(), (bits + 7) / 8);
    }
}

#[test]
fn index_width_max_value_is_two_to_the_bits_less_one() {
    assert_eq!(IndexWidth::new(1).unwrap().max_value(), 1);
    assert_eq!(IndexWidth::new(8).unwrap().max_value(), 255);
    assert_eq!(IndexWidth::new(12).unwrap().max_value(), 4095);
    assert_eq!(IndexWidth::new(16).unwrap().max_value(), 65_535);
    assert_eq!(IndexWidth::new(32).unwrap().max_value(), 4_294_967_295);
    assert_eq!(IndexWidth::new(40).unwrap().max_value(), 1_099_511_627_775);
    assert_eq!(IndexWidth::new(63).unwrap().max_value(), 9_223_372_036_854_775_807);
    assert_eq!(IndexWidth::new(64).unwrap().max_value(), u64::MAX);
}

#[test]
fn entries_are_stored_low_byte_first() {
    let width = IndexWidth::new(24).unwrap();
    let mut store = Vec::new();
    {
        let mut index = ExternalVector::new(MemorySink::new("index", &mut store), width);
        assert_eq!(index.len(), 0);
        index.grow(0x01_02_03).unwrap();
        index.grow(0).unwrap();
        index.grow(0xff_ff_ff).unwrap();
        assert_eq!(index.len(), 3);
        let view = index.close().unwrap();
        assert_eq!(view.len(), 3);
        assert_eq!(view.at(0), 0x01_02_03);
        assert_eq!(view.at(1), 0);
        assert_eq!(view.at(2), 0xff_ff_ff);
    }
    assert_eq!(store, vec![3, 2, 1, 0, 0, 0, 255, 255, 255]);
}

#[test]
fn entries_of_64_bits_round_trip() {
    let width = IndexWidth::new(64).unwrap();
    let mut store = Vec::new();
    let values = [0u64, 1, 0x0102_0304_0506_0708, u64::MAX];
    {
        let mut index = ExternalVector::new(MemorySink::new("index", &mut store), width);
        for v in values {
            index.grow(v).unwrap();
        }
        let view = index.close().unwrap();
        for (i, v) in values.iter().enumerate() {
            assert_eq!(view.at(i), *v);
        }
    }
    assert_eq!(&store[16..24], &[8, 7, 6, 5, 4, 3, 2, 1]);
}

#[test]
fn entry_too_wide_for_the_index_is_refused() {
    let width = IndexWidth::new(12).unwrap();
    let mut store = Vec::new();
    {
        let mut index = ExternalVector::new(MemorySink::new("offsets", &mut store), width);
        index.grow(4095).unwrap();
        assert_eq!(index.grow(4096), Err(ResourceStorageError::TooBig(String::from("offsets"))));
        assert_eq!(index.grow(u64::MAX), Err(ResourceStorageError::TooBig(String::from("offsets"))));
        assert_eq!(index.len(), 1);
        index.close().unwrap();
    }
    assert_eq!(store, vec![0xff, 0x0f]);
}

#[test]
fn reader_takes_the_low_bits_of_an_entry() {
    // 12 bits in two bytes: the upper four bits of the second byte do not count
    let width = IndexWidth::new(12).unwrap();
    let bytes = vec![0x34u8, 0xf2, 0xff, 0xff, 0x00, 0x10];
    let view = ArrayView::new(&bytes, width);
    assert_eq!(view.len(), 3);
    assert_eq!(view.at(0), 0x234);
    assert_eq!(view.at(1), 0xfff);
    assert_eq!(view.at(2), 0);
}

#[test]
fn array_view_ignores_bytes_after_the_last_whole_entry() {
    let width = IndexWidth::new(32).unwrap();
    let bytes = vec![1u8, 0, 0, 0, 2, 0, 0, 0, 3, 0];
    let view = ArrayView::new(&bytes, width);
    assert_eq!(view.len(), 2);
    assert_eq!(view.at(1), 2);
    let empty: Vec<u8> = Vec::new();
    assert_eq!(ArrayView::new(&empty, width).len(), 0);
}

#[test]
fn external_vector_flushes_above_the_mark() {
    let width = IndexWidth::new(64).unwrap();
    let entries = HIGH_WATER_MARK / 8 + 1;
    let mut store = Vec::new();
    {
        // a limit that the first flush fits and a second does not
        let sink = MemorySink::with_limit("index", &mut store, HIGH_WATER_MARK + 8);
        let mut index = ExternalVector::new(sink, width);
        for i in 0..entries {
            index.grow(i as u64).unwrap();
        }
        // the buffer is over the mark now: this entry flushes it first
        index.grow(7).unwrap();
        index.grow(8).unwrap();
        assert_eq!(index.len(), entries + 2);
        // eight bytes are too many for what is left
        assert_eq!(
            index.close().err(),
            Some(ResourceStorageError::Io(IoError::StorageFull, String::from("index")))
        );
    }
    assert_eq!(store.len(), HIGH_WATER_MARK + 8);
    assert_eq!(&store[8..16], &[1, 0, 0, 0, 0, 0, 0, 0]);
}

#[test]
fn variant_table_maps_tags_to_sizes() {
    let table = VariantTable::new(vec![4, 2, 0, 70_000]).unwrap();
    assert_eq!(table.len(), 4);
    assert_eq!(table.size_of(0), Some(4));
    assert_eq!(table.size_of(1), Some(2));
    assert_eq!(table.size_of(2), Some(0));
    assert_eq!(table.size_of(3), Some(70_000));
    assert_eq!(table.size_of(4), None);
    assert_eq!(table.size_of(255), None);
}

#[test]
fn variant_table_holds_256_variants_at_most() {
    let full = VariantTable::new(vec![1; 256]).unwrap();
    assert_eq!(full.size_of(255), Some(1));
    assert!(VariantTable::new(vec![1; 257]).is_none());
    let none = VariantTable::new(Vec::new()).unwrap();
    assert_eq!(none.len(), 0);
    assert_eq!(none.size_of(0), None);
}
