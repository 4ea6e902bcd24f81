//! The fixed-width codec of the offset index.
//!
//! An entry is an unsigned integer of `bits` bits, stored little-endian in the
//! fewest whole bytes that hold it.

use vstd::arithmetic::power2::*;
use vstd::prelude::*;

verus! {

/// The number of bytes that one entry of `bits` bits occupies.
pub open spec fn entry_size(bits: nat) -> nat {
    (bits + 7) / 8
}

/// The largest offset that an entry of `bits` bits can hold.
pub open spec fn max_offset(bits: nat) -> nat {
    (pow2(bits) - 1) as nat
}

/// The little-endian encoding of `value` in `n` bytes.
pub open spec fn entry_bytes(value: nat, n: nat) -> Seq<u8>
    decreases n,
{
    if n == 0 {
        Seq::empty()
    } else {
        seq![(value % 256) as u8] + entry_bytes(value / 256, (n - 1) as nat)
    }
}

/// The number that `bytes` spell in little-endian order.
pub open spec fn entry_value(bytes: Seq<u8>) -> nat
    decreases bytes.len(),
{
    if bytes.len() == 0 {
        0
    } else {
        bytes[0] as nat + 256 * entry_value(bytes.drop_first())
    }
}

/// The offset read from the bytes of one entry: their low `bits` bits.
pub open spec fn decode_entry(bytes: Seq<u8>, bits: nat) -> nat {
    entry_value(bytes) % pow2(bits)
}

/// The encoding in `n` bytes has `n` bytes.
pub proof fn lemma_entry_bytes_len(value: nat, n: nat)
    ensures
        entry_bytes(value, n).len() == n,
    decreases n,
{
    if n > 0 {
        lemma_entry_bytes_len(value / 256, (n - 1) as nat);
    }
}

/// One byte more holds 256 times as many numbers.
pub proof fn lemma_pow2_bytes(n: nat)
    ensures
        pow2(8 * (n + 1)) == 256 * pow2(8 * n),
        pow2(8 * n) > 0,
{
    lemma2_to64();
    lemma_pow2_adds(8, 8 * n);
    lemma_pow2_pos(8 * n);
}

/// Bytes spell a number below 256 to the power of their count.
pub proof fn lemma_entry_value_bound(bytes: Seq<u8>)
    ensures
        entry_value(bytes) < pow2(8 * bytes.len()),
    decreases bytes.len(),
{
    if bytes.len() == 0 {
        lemma2_to64();
    } else {
        let rest = bytes.drop_first();
        lemma_entry_value_bound(rest);
        lemma_pow2_bytes(rest.len());
    }
}

/// A number that fits in `n` bytes is read back from its encoding.
pub proof fn lemma_entry_value_of_bytes(value: nat, n: nat)
    requires
        value < pow2(8 * n),
    ensures
        entry_value(entry_bytes(value, n)) == value,
    decreases n,
{
    if n == 0 {
        lemma2_to64();
    } else {
        let m = (n - 1) as nat;
        lemma_pow2_bytes(m);
        lemma_entry_value_of_bytes(value / 256, m);
        let bytes = entry_bytes(value, n);
        assert(bytes.drop_first() =~= entry_bytes(value / 256, m));
    }
}

/// An entry of `bits` bits has room for every offset up to `max_offset(bits)`.
pub proof fn lemma_max_offset_fits(bits: nat)
    ensures
        max_offset(bits) < pow2(bits) <= pow2(8 * entry_size(bits)),
{
    lemma_pow2_pos(bits);
    if bits < 8 * entry_size(bits) {
        lemma_pow2_strictly_increases(bits, 8 * entry_size(bits));
    }
}

/// Writing an offset that the width can hold and reading the entry back gives
/// the offset.
pub proof fn lemma_entry_round_trip(value: nat, bits: nat)
    requires
        value <= max_offset(bits),
    ensures
        entry_bytes(value, entry_size(bits)).len() == entry_size(bits),
        decode_entry(entry_bytes(value, entry_size(bits)), bits) == value,
{
    lemma_entry_bytes_len(value, entry_size(bits));
    lemma_max_offset_fits(bits);
    lemma_entry_value_of_bytes(value, entry_size(bits));
    vstd::arithmetic::div_mod::lemma_small_mod(value, pow2(bits));
}

/// The width of the entries of an offset index: from 1 to 64 bits.
#[derive(Clone, Copy, Debug)]
pub struct IndexWidth {
    bits: usize,
    bytes: usize,
    max: u64,
}

impl IndexWidth {
    #[verifier::type_invariant]
    spec fn inv(self) -> bool {
        &&& 1 <= self.bits <= 64
        &&& self.bytes == entry_size(self.bits as nat)
        &&& self.max == max_offset(self.bits as nat)
    }

    /// The number of bits of one entry.
    pub closed spec fn bits(self) -> nat {
        self.bits as nat
    }

    /// The width of `bits` bits, if an entry of that many bits exists.
    pub fn new(bits: usize) -> (w: Option<Self>)
        ensures
            w is Some <==> 1 <= bits <= 64,
            w matches Some(x) ==> x.bits() == bits,
    {
        if bits < 1 || bits > 64 {
            return None;
        }
        let mut max: u64 = 0;
        let mut i: usize = 0;
        proof {
            lemma2_to64();
        }
        while i < bits
            invariant
                i <= bits <= 64,
                max == max_offset(i as nat),
            decreases bits - i,
        {
            proof {
                lemma_pow2_unfold((i + 1) as nat);
                lemma_pow2_pos(i as nat);
                if i + 1 < 64 {
                    lemma_pow2_strictly_increases((i + 1) as nat, 64);
                }
                lemma2_to64();
            }
            max = max * 2 + 1;
            i = i + 1;
        }
        Some(IndexWidth { bits, bytes: (bits + 7) / 8, max })
    }

    /// The number of bits of one entry.
    pub fn size_in_bits(&self) -> (n: usize)
        ensures
            n == self.bits(),
            1 <= n <= 64,
    {
        proof {
            use_type_invariant(self);
        }
        self.bits
    }

    /// The number of bytes that one entry occupies.
    pub fn size_in_bytes(&self) -> (n: usize)
        ensures
            n == entry_size(self.bits()),
            1 <= n <= 8,
    {
        proof {
            use_type_invariant(self);
        }
        self.bytes
    }

    /// The largest offset that an entry of this width holds.
    pub fn max_value(&self) -> (m: u64)
        ensures
            m == max_offset(self.bits()),
    {
        proof {
            use_type_invariant(self);
        }
        self.max
    }

    /// Appends the entry for `value` to `buf`.
    pub(crate) fn encode(&self, value: u64, buf: &mut Vec<u8>)
        requires
            value <= max_offset(self.bits()),
        ensures
            final(buf)@ == old(buf)@ + entry_bytes(value as nat, entry_size(self.bits())),
    {
        let n = self.size_in_bytes();
        let mut rest: u64 = value;
        let mut i: usize = 0;
        while i < n
            invariant
                i <= n,
                old(buf)@ + entry_bytes(value as nat, n as nat) == buf@ + entry_bytes(
                    rest as nat,
                    (n - i) as nat,
                ),
            decreases n - i,
        {
            buf.push((rest % 256) as u8);
            rest = rest / 256;
            i = i + 1;
        }
    }

    /// Reads the entry whose bytes start at `pos`.
    pub(crate) fn decode(&self, data: &[u8], pos: usize) -> (value: u64)
        requires
            pos + entry_size(self.bits()) <= data.len(),
        ensures
            value == decode_entry(
                data@.subrange(pos as int, pos + entry_size(self.bits())),
                self.bits(),
            ),
            value <= max_offset(self.bits()),
    {
        let n = self.size_in_bytes();
        let ghost bytes = data@.subrange(pos as int, pos + n);
        let mut acc: u64 = 0;
        let mut i: usize = n;
        while i > 0
            invariant
                i <= n <= 8,
                pos + n <= data.len(),
                bytes == data@.subrange(pos as int, pos + n),
                acc == entry_value(bytes.skip(i as int)),
            decreases i,
        {
            i = i - 1;
            proof {
                let tail = bytes.skip(i as int);
                assert(tail.drop_first() =~= bytes.skip(i + 1));
                lemma_entry_value_bound(tail);
                lemma2_to64();
                if 8 * tail.len() < 64 {
                    lemma_pow2_strictly_increases(8 * tail.len(), 64);
                }
            }
            acc = acc * 256 + data[pos + i] as u64;
        }
        assert(bytes.skip(0) =~= bytes);
        proof {
            use_type_invariant(self);
            lemma_pow2_pos(self.bits());
            vstd::arithmetic::div_mod::lemma_mod_bound(acc as int, pow2(self.bits()) as int);
        }
        if self.bits == 64 {
            proof {
                lemma2_to64();
                vstd::arithmetic::div_mod::lemma_small_mod(acc as nat, pow2(64));
            }
            acc
        } else {
            proof {
                lemma_pow2_strictly_increases(self.bits(), 64);
                lemma2_to64();
            }
            acc % (self.max + 1)
        }
    }
}

} // verus!
