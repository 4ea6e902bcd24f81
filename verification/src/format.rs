//! The stored format, as mathematics: what a sequence of buckets looks like
//! as bytes and offsets, and what a reader finds in bytes and offsets.

use crate::error::FormatError;
use crate::index::{
    decode_entry, entry_bytes, entry_size, lemma_entry_bytes_len, lemma_entry_round_trip, max_offset,
};
use crate::variant::payload_size;
use vstd::prelude::*;

verus! {

/// One item of a bucket: the tag of its variant and the variant's encoded
/// fields.
pub struct Record {
    pub tag: u8,
    pub payload: Seq<u8>,
}

/// The record is of a variant of the set, and its payload has that variant's
/// size.
pub open spec fn valid_record(sizes: Seq<usize>, r: Record) -> bool {
    payload_size(sizes, r.tag) == Some(r.payload.len())
}

pub open spec fn valid_bucket(sizes: Seq<usize>, bucket: Seq<Record>) -> bool {
    forall|i: int| 0 <= i < bucket.len() ==> valid_record(sizes, #[trigger] bucket[i])
}

pub open spec fn valid_buckets(sizes: Seq<usize>, buckets: Seq<Seq<Record>>) -> bool {
    forall|i: int| 0 <= i < buckets.len() ==> valid_bucket(sizes, #[trigger] buckets[i])
}

/// A record in the data stream: the tag byte, then the payload.
pub open spec fn record_bytes(r: Record) -> Seq<u8> {
    seq![r.tag] + r.payload
}

/// A bucket in the data stream: its records, one after the other.
pub open spec fn bucket_bytes(bucket: Seq<Record>) -> Seq<u8>
    decreases bucket.len(),
{
    if bucket.len() == 0 {
        Seq::empty()
    } else {
        record_bytes(bucket[0]) + bucket_bytes(bucket.drop_first())
    }
}

/// The data stream of a sequence of buckets.
pub open spec fn stream_bytes(buckets: Seq<Seq<Record>>) -> Seq<u8>
    decreases buckets.len(),
{
    if buckets.len() == 0 {
        Seq::empty()
    } else {
        stream_bytes(buckets.drop_last()) + bucket_bytes(buckets.last())
    }
}

/// The offset in the data stream at which bucket `i` begins; for `i` the
/// number of buckets, the length of the stream.
pub open spec fn bucket_start(buckets: Seq<Seq<Record>>, i: int) -> nat {
    stream_bytes(buckets.take(i)).len()
}

/// The offsets at which the buckets begin: the index while it is written.
pub open spec fn starts(buckets: Seq<Seq<Record>>) -> Seq<nat> {
    Seq::new(buckets.len(), |i: int| bucket_start(buckets, i))
}

/// The finished index: the offsets at which the buckets begin, and the
/// sentinel.
pub open spec fn offsets(buckets: Seq<Seq<Record>>) -> Seq<nat> {
    Seq::new(buckets.len() + 1, |i: int| bucket_start(buckets, i))
}

/// The index as bytes: its entries, `n` bytes each.
pub open spec fn index_bytes(entries: Seq<nat>, n: nat) -> Seq<u8>
    decreases entries.len(),
{
    if entries.len() == 0 {
        Seq::empty()
    } else {
        index_bytes(entries.drop_last(), n) + entry_bytes(entries.last(), n)
    }
}

/// The entries that a reader finds in the bytes of an index whose entries
/// have `bits` bits. Bytes after the last whole entry count for nothing.
pub open spec fn index_entries(bytes: Seq<u8>, bits: nat) -> Seq<nat> {
    let n = entry_size(bits) as int;
    Seq::new(
        (bytes.len() as int / n) as nat,
        |i: int| decode_entry(bytes.subrange(i * n, i * n + n), bits),
    )
}

/// Every record as the reader hands it out when nothing is wrong.
pub open spec fn all_ok(records: Seq<Record>) -> Seq<Result<Record, FormatError>> {
    Seq::new(records.len(), |i: int| Ok(records[i]))
}

/// What a reader yields that walks `data` from `cursor` up to `end`: the
/// records in order and, where the bytes stop making sense, one error after
/// which nothing follows.
pub open spec fn decode(sizes: Seq<usize>, data: Seq<u8>, cursor: int, end: int) -> Seq<
    Result<Record, FormatError>,
>
    decreases end - cursor,
{
    if cursor < 0 || cursor >= end || end > data.len() {
        Seq::empty()
    } else {
        let tag = data[cursor];
        match payload_size(sizes, tag) {
            None => seq![Err(FormatError::UnknownTag(tag))],
            Some(n) => if cursor + 1 + n > end {
                seq![Err(FormatError::TruncatedRecord(tag))]
            } else {
                seq![Ok(Record { tag, payload: data.subrange(cursor + 1, cursor + 1 + n) })]
                    + decode(sizes, data, cursor + 1 + n, end)
            },
        }
    }
}

/// What a reader yields for bucket `i` of the view made of `entries` and
/// `data`.
pub open spec fn bucket_items(sizes: Seq<usize>, entries: Seq<nat>, data: Seq<u8>, i: int) -> Seq<
    Result<Record, FormatError>,
> {
    let start = entries[i];
    let end = entries[i + 1];
    if start <= end <= data.len() {
        decode(sizes, data, start as int, end as int)
    } else {
        seq![Err(FormatError::BadOffsets)]
    }
}

/// A record appended to a bucket lies at the end of the bucket's bytes.
pub proof fn lemma_bucket_bytes_push(bucket: Seq<Record>, r: Record)
    ensures
        bucket_bytes(bucket.push(r)) == bucket_bytes(bucket) + record_bytes(r),
    decreases bucket.len(),
{
    let pushed = bucket.push(r);
    if bucket.len() == 0 {
        assert(bucket_bytes(pushed) =~= record_bytes(r) + bucket_bytes(pushed.drop_first()));
    } else {
        lemma_bucket_bytes_push(bucket.drop_first(), r);
        assert(pushed.drop_first() =~= bucket.drop_first().push(r));
    }
}

/// The stream of the first `j` buckets is the stream of the first `i`
/// followed by more.
pub proof fn lemma_stream_prefix(buckets: Seq<Seq<Record>>, i: int, j: int)
    requires
        0 <= i <= j <= buckets.len(),
    ensures
        stream_bytes(buckets.take(i)).is_prefix_of(stream_bytes(buckets.take(j))),
        bucket_start(buckets, i) <= bucket_start(buckets, j),
    decreases j - i,
{
    if i < j {
        lemma_stream_prefix(buckets, i, j - 1);
        assert(buckets.take(j).drop_last() =~= buckets.take(j - 1));
    }
}

/// In the stream of all buckets, bucket `i` lies between its offset and the
/// next.
pub proof fn lemma_bucket_in_stream(buckets: Seq<Seq<Record>>, i: int)
    requires
        0 <= i < buckets.len(),
    ensures
        bucket_start(buckets, i) + bucket_bytes(buckets[i]).len() == bucket_start(buckets, i + 1),
        bucket_start(buckets, i + 1) <= stream_bytes(buckets).len(),
        stream_bytes(buckets).subrange(
            bucket_start(buckets, i) as int,
            bucket_start(buckets, i + 1) as int,
        ) == bucket_bytes(buckets[i]),
{
    let upto = buckets.take(i + 1);
    assert(upto.drop_last() =~= buckets.take(i));
    lemma_stream_prefix(buckets, i + 1, buckets.len() as int);
    assert(buckets.take(buckets.len() as int) =~= buckets);
    let whole = stream_bytes(buckets);
    let head = stream_bytes(upto);
    let lo = bucket_start(buckets, i) as int;
    let hi = bucket_start(buckets, i + 1) as int;
    assert forall|k: int| 0 <= k < hi - lo implies whole[lo + k] == bucket_bytes(buckets[i])[k] by {
        assert(whole[lo + k] == head[lo + k]);
    }
}

/// A range of `data` that holds the bytes of valid records decodes to those
/// records.
pub proof fn lemma_decode_bucket(
    sizes: Seq<usize>,
    data: Seq<u8>,
    cursor: int,
    end: int,
    records: Seq<Record>,
)
    requires
        valid_bucket(sizes, records),
        0 <= cursor <= end <= data.len(),
        data.subrange(cursor, end) == bucket_bytes(records),
    ensures
        decode(sizes, data, cursor, end) == all_ok(records),
    decreases records.len(),
{
    if records.len() == 0 {
        assert(decode(sizes, data, cursor, end) =~= all_ok(records));
    } else {
        let r = records[0];
        let rest = records.drop_first();
        let n = r.payload.len() as int;
        let bytes = data.subrange(cursor, end);
        assert(bytes.len() == 1 + n + bucket_bytes(rest).len());
        assert(data[cursor] == bytes[0]);
        assert(data.subrange(cursor + 1, cursor + 1 + n) =~= r.payload) by {
            assert forall|k: int| 0 <= k < n implies data[cursor + 1 + k] == r.payload[k] by {
                assert(data[cursor + 1 + k] == bytes[1 + k]);
            }
        }
        assert(data.subrange(cursor + 1 + n, end) =~= bucket_bytes(rest)) by {
            assert forall|k: int| 0 <= k < end - (cursor + 1 + n) implies data[cursor + 1 + n + k]
                == bucket_bytes(rest)[k] by {
                assert(data[cursor + 1 + n + k] == bytes[1 + n + k]);
            }
        }
        assert forall|k: int| 0 <= k < rest.len() implies valid_record(sizes, #[trigger] rest[k]) by {
            assert(rest[k] == records[k + 1]);
        }
        lemma_decode_bucket(sizes, data, cursor + 1 + n, end, rest);
        assert(decode(sizes, data, cursor, end) =~= all_ok(records));
    }
}

/// Entry `i` of an index of `total` bytes lies inside the index.
pub proof fn lemma_entry_in_bounds(i: int, n: int, total: int)
    requires
        n > 0,
        0 <= i < total / n,
    ensures
        0 <= i * n,
        i * n + n <= total,
{
    assert(0 <= i * n && i * n + n <= total) by (nonlinear_arith)
        requires
            n > 0,
            0 <= i < total / n,
    ;
}

/// An index of entries of `n` bytes has `n` bytes for each entry.
pub proof fn lemma_index_bytes_len(entries: Seq<nat>, n: nat)
    ensures
        index_bytes(entries, n).len() == entries.len() * n,
    decreases entries.len(),
{
    if entries.len() > 0 {
        lemma_index_bytes_len(entries.drop_last(), n);
        lemma_entry_bytes_len(entries.last(), n);
        assert((entries.len() - 1) * n + n == entries.len() * n) by (nonlinear_arith);
    }
}

/// An entry appended to an index lies at the end of the index's bytes.
pub proof fn lemma_index_bytes_push(entries: Seq<nat>, value: nat, n: nat)
    ensures
        index_bytes(entries.push(value), n) == index_bytes(entries, n) + entry_bytes(value, n),
{
    assert(entries.push(value).drop_last() =~= entries);
}

/// In the bytes of an index, entry `i` is the encoding of the `i`-th offset.
pub proof fn lemma_index_entry_bytes(entries: Seq<nat>, n: nat, i: int)
    requires
        0 <= i < entries.len(),
    ensures
        0 <= i * n,
        i * n + n <= index_bytes(entries, n).len(),
        index_bytes(entries, n).subrange(i * n, i * n + n) == entry_bytes(entries[i], n),
    decreases entries.len(),
{
    let front = entries.drop_last();
    lemma_index_bytes_len(entries, n);
    lemma_index_bytes_len(front, n);
    lemma_entry_bytes_len(entries.last(), n);
    assert(0 <= i * n && i * n + n <= entries.len() * n) by (nonlinear_arith)
        requires
            0 <= i < entries.len(),
    ;
    if i == entries.len() - 1 {
    } else {
        lemma_index_entry_bytes(front, n, i);
    }
}

/// An index is read back from its bytes, entry by entry, where every offset
/// fits the width.
pub proof fn lemma_index_round_trip(entries: Seq<nat>, bits: nat)
    requires
        1 <= bits,
        forall|i: int| 0 <= i < entries.len() ==> #[trigger] entries[i] <= max_offset(bits),
    ensures
        index_entries(index_bytes(entries, entry_size(bits)), bits) == entries,
{
    let n = entry_size(bits);
    let bytes = index_bytes(entries, n);
    lemma_index_bytes_len(entries, n);
    assert(bytes.len() as int / n as int == entries.len()) by (nonlinear_arith)
        requires
            bytes.len() == entries.len() * n,
            n > 0,
    ;
    assert forall|i: int| 0 <= i < entries.len() implies #[trigger] index_entries(bytes, bits)[i]
        == entries[i] by {
        lemma_index_entry_bytes(entries, n, i);
        lemma_entry_round_trip(entries[i], bits);
    }
}

/// The buckets after one more record has gone into the last of them.
pub open spec fn push_record(buckets: Seq<Seq<Record>>, r: Record) -> Seq<Seq<Record>> {
    if buckets.len() == 0 {
        buckets
    } else {
        buckets.update(buckets.len() - 1, buckets.last().push(r))
    }
}

/// Starting a bucket adds the length of the stream to the offsets and leaves
/// the stream as it is; the same entry, added at the end, is the sentinel.
pub proof fn lemma_start_bucket(buckets: Seq<Seq<Record>>)
    ensures
        starts(buckets.push(Seq::empty())) == starts(buckets).push(stream_bytes(buckets).len()),
        offsets(buckets) == starts(buckets).push(stream_bytes(buckets).len()),
        stream_bytes(buckets.push(Seq::empty())) == stream_bytes(buckets),
{
    let grown = buckets.push(Seq::empty());
    assert(grown.drop_last() =~= buckets);
    assert forall|i: int| 0 <= i <= buckets.len() implies grown.take(i) == buckets.take(i) by {}
}

/// A record that goes into the last bucket goes to the end of the stream,
/// and no bucket begins elsewhere for it.
pub proof fn lemma_push_record(buckets: Seq<Seq<Record>>, r: Record)
    requires
        buckets.len() > 0,
    ensures
        starts(push_record(buckets, r)) == starts(buckets),
        stream_bytes(push_record(buckets, r)) == stream_bytes(buckets) + record_bytes(r),
{
    let pushed = push_record(buckets, r);
    assert(pushed.drop_last() =~= buckets.drop_last());
    lemma_bucket_bytes_push(buckets.last(), r);
    assert forall|i: int| 0 <= i < buckets.len() implies pushed.take(i) == buckets.take(i) by {}
}

/// The finished index has one entry for each bucket and the sentinel; it
/// begins with 0, never decreases, and its sentinel is the length of the
/// data.
pub proof fn lemma_offsets(buckets: Seq<Seq<Record>>)
    ensures
        offsets(buckets).len() == buckets.len() + 1,
        offsets(buckets)[0] == 0,
        offsets(buckets).last() == stream_bytes(buckets).len(),
        forall|i: int, j: int|
            0 <= i <= j <= buckets.len() ==> #[trigger] offsets(buckets)[i] <= #[trigger] offsets(
                buckets,
            )[j],
{
    assert(buckets.take(buckets.len() as int) =~= buckets);
    assert forall|i: int, j: int| 0 <= i <= j <= buckets.len() implies #[trigger] offsets(
        buckets,
    )[i] <= #[trigger] offsets(buckets)[j] by {
        lemma_stream_prefix(buckets, i, j);
    }
}

/// Reading a bucket of what was written yields the bucket's records, each
/// with its tag and its payload, in the order in which they were written:
/// from the data stream and the offsets themselves, and as well from the
/// offsets as they are read back from the bytes of the index.
pub proof fn lemma_round_trip(sizes: Seq<usize>, buckets: Seq<Seq<Record>>, bits: nat, i: int)
    requires
        valid_buckets(sizes, buckets),
        1 <= bits,
        stream_bytes(buckets).len() <= max_offset(bits),
        0 <= i < buckets.len(),
    ensures
        bucket_items(sizes, offsets(buckets), stream_bytes(buckets), i) == all_ok(buckets[i]),
        index_entries(index_bytes(offsets(buckets), entry_size(bits)), bits) == offsets(buckets),
{
    lemma_offsets(buckets);
    lemma_bucket_in_stream(buckets, i);
    lemma_stream_prefix(buckets, i, i + 1);
    lemma_decode_bucket(
        sizes,
        stream_bytes(buckets),
        bucket_start(buckets, i) as int,
        bucket_start(buckets, i + 1) as int,
        buckets[i],
    );
    lemma_index_round_trip(offsets(buckets), bits);
}

/// A bucket without records takes no room in the data stream, and reading it
/// yields nothing, wherever among the other buckets it stands.
pub proof fn lemma_empty_bucket(sizes: Seq<usize>, buckets: Seq<Seq<Record>>, i: int)
    requires
        0 <= i < buckets.len(),
        buckets[i].len() == 0,
    ensures
        offsets(buckets)[i] == offsets(buckets)[i + 1],
        bucket_items(sizes, offsets(buckets), stream_bytes(buckets), i) == Seq::<
            Result<Record, FormatError>,
        >::empty(),
{
    lemma_bucket_in_stream(buckets, i);
}

/// A bucket range that begins with a byte that is no tag of the variant set
/// reads as that one error.
pub proof fn lemma_unknown_tag(sizes: Seq<usize>, data: Seq<u8>, start: int, end: int)
    requires
        0 <= start < end <= data.len(),
        payload_size(sizes, data[start]) is None,
    ensures
        decode(sizes, data, start, end) == seq![
            Err::<Record, FormatError>(FormatError::UnknownTag(data[start])),
        ],
{
}

/// What a writer has taken, and how much of the data stream it has handed to
/// storage.
pub struct WriterState {
    pub buckets: Seq<Seq<Record>>,
    pub flushed: nat,
}

/// One step of writing.
pub enum WriteOp {
    /// Start a bucket.
    Grow,
    /// Append a record to the bucket started last.
    Add(Record),
}

/// The state after `op`, where a buffer of more than `mark` bytes is flushed
/// before a bucket is started.
pub open spec fn step(s: WriterState, op: WriteOp, mark: nat) -> WriterState {
    match op {
        WriteOp::Grow => WriterState {
            buckets: s.buckets.push(Seq::empty()),
            flushed: if stream_bytes(s.buckets).len() - s.flushed > mark {
                stream_bytes(s.buckets).len()
            } else {
                s.flushed
            },
        },
        WriteOp::Add(r) => WriterState { buckets: push_record(s.buckets, r), flushed: s.flushed },
    }
}

/// The state of a writer that began empty and took `ops` in order.
pub open spec fn run(ops: Seq<WriteOp>, mark: nat) -> WriterState
    decreases ops.len(),
{
    if ops.len() == 0 {
        WriterState { buckets: Seq::empty(), flushed: 0 }
    } else {
        step(run(ops.drop_last(), mark), ops.last(), mark)
    }
}

/// The index that closing leaves in storage.
pub open spec fn sealed_index(s: WriterState) -> Seq<nat> {
    offsets(s.buckets)
}

/// The data that closing leaves in storage.
pub open spec fn sealed_data(s: WriterState) -> Seq<u8> {
    stream_bytes(s.buckets)
}

/// Where the flushes fall makes no difference to what is stored in the end:
/// the same steps leave the same index and the same data under any two
/// high-water marks, be one of them so large that nothing is ever flushed
/// before the close.
pub proof fn lemma_flush_transparent(ops: Seq<WriteOp>, mark1: nat, mark2: nat)
    ensures
        run(ops, mark1).buckets == run(ops, mark2).buckets,
        sealed_index(run(ops, mark1)) == sealed_index(run(ops, mark2)),
        sealed_data(run(ops, mark1)) == sealed_data(run(ops, mark2)),
    decreases ops.len(),
{
    if ops.len() > 0 {
        lemma_flush_transparent(ops.drop_last(), mark1, mark2);
    }
}

} // verus!
