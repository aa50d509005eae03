//! Insertion of a signal's raw bits into a payload: the encoding side of the
//! codec.
//!
//! Every write is byte-local: a full-byte store or a read-modify-write that
//! touches only the signal's bits.  Each helper's contract states, per flat
//! payload bit, which bit of the raw value lands there and that every other
//! bit is preserved; the signal-level contract `insert_effect` follows.

use vstd::prelude::*;

use vstd::arithmetic::div_mod::{
    lemma_fundamental_div_mod,
    lemma_fundamental_div_mod_converse_div,
    lemma_fundamental_div_mod_converse_mod,
};

use crate::bits::{
    lemma_be_pos_aligned,
    lemma_u64_bit_test,
    lemma_u8_bit_test,
    lemma_u8_bits_eq,
    lemma_u8_from_bits,
    nth_bit,
    pdu_bit,
    u8_from_bits,
};
use crate::signal::{ByteOrder, SignalSchema};

verus! {

/// Bit-level effect of a masked read-modify-write of one byte: inside the
/// window `[ls, ls + len)` the byte carries the raw bits from `rs` on, and
/// outside it the old bits.
#[verifier::rlimit(60)]
proof fn lemma_rmw_byte_bits(oldb: u8, newb: u8, raw: u64, rs: u64, ls: u8, len: u8, j: u8, k: u64)
    by (bit_vector)
    requires
        ls + len <= 8,
        1 <= len < 8,
        j < 8,
        rs < 64,
        k < 64,
        newb == (oldb & !((((1u8 << len) - 1) as u8) << ls)) | ((((raw >> rs) << (ls as u64)) as u8)
            & ((((1u8 << len) - 1) as u8) << ls)),
        ls <= j < ls + len ==> k == rs + (j - ls),
    ensures
        ls <= j < ls + len ==> (((newb >> j) & 1) == 1) == (((raw >> k) & 1) == 1),
        !(ls <= j < ls + len) ==> ((newb >> j) & 1) == ((oldb >> j) & 1),
{
}

/// Bit-level effect of storing one whole byte of the raw value.
proof fn lemma_write_byte_bits(raw: u64, rs: u64, j: u8, k: u64)
    by (bit_vector)
    requires
        j < 8,
        rs < 64,
        k < 64,
        k == rs + j,
    ensures
        (((((raw >> rs) as u8) >> j) & 1) == 1) == (((raw >> k) & 1) == 1),
{
}

/// Bit-level effect of setting or clearing a single bit of a byte.
proof fn lemma_set_bit_bits(oldb: u8, newb: u8, on: bool, t: u8, j: u8)
    by (bit_vector)
    requires
        t < 8,
        j < 8,
        newb == if on {
            oldb | (1u8 << t)
        } else {
            oldb & !(1u8 << t)
        },
    ensures
        j == t ==> (((newb >> j) & 1) == 1) == on,
        j != t ==> ((newb >> j) & 1) == ((oldb >> j) & 1),
{
}

/// Insert bits `rs..rs + len` of `raw` into bits `ls..ls + len` of payload
/// byte `byte` by read-modify-write; every other payload bit is preserved.
fn rmw_byte(pdu: &mut Vec<u8>, byte: usize, ls: u8, len: u8, raw: u64, rs: u64)
    requires
        byte < old(pdu)@.len(),
        ls + len <= 8,
        1 <= len < 8,
        rs < 64,
        rs + len <= 64,
    ensures
        final(pdu)@.len() == old(pdu)@.len(),
        forall|i: int|
            8 * byte + ls <= i < 8 * byte + ls + len ==> #[trigger] pdu_bit(final(pdu)@, i)
                == nth_bit(raw as nat, (rs + i - (8 * byte + ls)) as nat),
        forall|i: int|
            0 <= i < 8 * old(pdu)@.len() && !(8 * byte + ls <= i < 8 * byte + ls + len)
                ==> #[trigger] pdu_bit(final(pdu)@, i) == pdu_bit(old(pdu)@, i),
{
    let oldb = pdu[byte];
    proof {
        assert(1u8 << len >= 1) by (bit_vector)
            requires
                len < 8,
        ;
    }
    let mask: u8 = ((1u8 << len) - 1) << ls;
    let newb: u8 = (oldb & !mask) | ((((raw >> rs) << (ls as u64)) as u8) & mask);
    pdu.set(byte, newb);
    proof {
        assert forall|i: int|
            8 * byte + ls <= i < 8 * byte + ls + len implies #[trigger] pdu_bit(pdu@, i)
            == nth_bit(raw as nat, (rs + i - (8 * byte + ls)) as nat) by {
            lemma_fundamental_div_mod_converse_div(i, 8, byte as int, i - 8 * byte);
            lemma_fundamental_div_mod_converse_mod(i, 8, byte as int, i - 8 * byte);
            let j = (i - 8 * byte) as u8;
            let k = (rs + i - (8 * byte + ls)) as u64;
            lemma_rmw_byte_bits(oldb, newb, raw, rs, ls, len, j, k);
            lemma_u8_bit_test(newb, j);
            lemma_u64_bit_test(raw, k);
        }
        assert forall|i: int|
            0 <= i < 8 * old(pdu)@.len() && !(8 * byte + ls <= i < 8 * byte + ls + len)
            implies #[trigger] pdu_bit(pdu@, i) == pdu_bit(old(pdu)@, i) by {
            lemma_fundamental_div_mod(i, 8);
            if i / 8 == byte {
                let j = (i % 8) as u8;
                lemma_rmw_byte_bits(oldb, newb, raw, rs, ls, len, j, 0);
                lemma_u8_bit_test(newb, j);
                lemma_u8_bit_test(oldb, j);
            }
        }
    }
}

/// Store bits `rs..rs + 8` of `raw` as payload byte `byte`; every bit of any
/// other byte is preserved.
fn write_byte(pdu: &mut Vec<u8>, byte: usize, raw: u64, rs: u64)
    requires
        byte < old(pdu)@.len(),
        rs + 8 <= 64,
    ensures
        final(pdu)@.len() == old(pdu)@.len(),
        forall|i: int|
            8 * byte <= i < 8 * byte + 8 ==> #[trigger] pdu_bit(final(pdu)@, i) == nth_bit(
                raw as nat,
                (rs + i - 8 * byte) as nat,
            ),
        forall|i: int|
            0 <= i < 8 * old(pdu)@.len() && !(8 * byte <= i < 8 * byte + 8)
                ==> #[trigger] pdu_bit(final(pdu)@, i) == pdu_bit(old(pdu)@, i),
{
    let newb: u8 = (raw >> rs) as u8;
    pdu.set(byte, newb);
    proof {
        assert forall|i: int| 8 * byte <= i < 8 * byte + 8 implies #[trigger] pdu_bit(pdu@, i)
            == nth_bit(raw as nat, (rs + i - 8 * byte) as nat) by {
            lemma_fundamental_div_mod_converse_div(i, 8, byte as int, i - 8 * byte);
            lemma_fundamental_div_mod_converse_mod(i, 8, byte as int, i - 8 * byte);
            let j = (i - 8 * byte) as u8;
            let k = (rs + i - 8 * byte) as u64;
            lemma_write_byte_bits(raw, rs, j, k);
            lemma_u8_bit_test(newb, j);
            lemma_u64_bit_test(raw, k);
        }
        assert forall|i: int|
            0 <= i < 8 * old(pdu)@.len() && !(8 * byte <= i < 8 * byte + 8) implies #[trigger]
            pdu_bit(pdu@, i) == pdu_bit(old(pdu)@, i) by {
            lemma_fundamental_div_mod(i, 8);
        }
    }
}


/// Reading any flat bit of `spec_insert` gives `inserted_bit`.
pub proof fn lemma_spec_insert_bit(sig: SignalSchema, pdu: Seq<u8>, raw: u64, i: int)
    requires
        0 <= i < 8 * pdu.len(),
    ensures
        pdu_bit(sig.spec_insert(pdu, raw), i) == sig.inserted_bit(pdu, raw, i),
{
    let q = sig.spec_insert(pdu, raw);
    lemma_fundamental_div_mod(i, 8);
    let b = i / 8;
    lemma_u8_from_bits(
        sig.inserted_bit(pdu, raw, 8 * b),
        sig.inserted_bit(pdu, raw, 8 * b + 1),
        sig.inserted_bit(pdu, raw, 8 * b + 2),
        sig.inserted_bit(pdu, raw, 8 * b + 3),
        sig.inserted_bit(pdu, raw, 8 * b + 4),
        sig.inserted_bit(pdu, raw, 8 * b + 5),
        sig.inserted_bit(pdu, raw, 8 * b + 6),
        sig.inserted_bit(pdu, raw, 8 * b + 7),
    );
}

/// The relational insert contract pins the payload down: any payload related
/// to the old one by `insert_effect` is exactly `spec_insert`.
pub proof fn lemma_insert_effect_is_spec_insert(
    sig: SignalSchema,
    old_pdu: Seq<u8>,
    new_pdu: Seq<u8>,
    raw: u64,
)
    requires
        sig.insert_effect(old_pdu, new_pdu, raw),
    ensures
        new_pdu == sig.spec_insert(old_pdu, raw),
{
    let q = sig.spec_insert(old_pdu, raw);
    assert forall|b: int| 0 <= b < new_pdu.len() implies new_pdu[b] == q[b] by {
        assert forall|k: nat| k < 8 implies #[trigger] nth_bit(new_pdu[b] as nat, k) == nth_bit(
            q[b] as nat,
            k,
        ) by {
            let i = 8 * b + k;
            lemma_fundamental_div_mod_converse_div(i, 8, b, k as int);
            lemma_fundamental_div_mod_converse_mod(i, 8, b, k as int);
            assert(pdu_bit(new_pdu, i) == nth_bit(new_pdu[b] as nat, k));
            assert(pdu_bit(q, i) == nth_bit(q[b] as nat, k));
            lemma_spec_insert_bit(sig, old_pdu, raw, i);
            if sig.covers(i) {
                let kc = choose|kc: int|
                    0 <= kc < sig.width && #[trigger] sig.raw_bit_pos(kc) == i;
                assert(pdu_bit(new_pdu, sig.raw_bit_pos(kc)) == nth_bit(raw as nat, kc as nat));
            }
        }
        lemma_u8_bits_eq(new_pdu[b], q[b]);
    }
    assert(new_pdu =~= q);
}

impl SignalSchema {
    /// Whether an encoder exists for this signal (single-bit, little-endian,
    /// or byte-aligned big-endian).  A message encoder skips signals without
    /// one.
    pub fn can_encode(&self) -> (r: bool)
        ensures
            r == self.encode_supported(),
    {
        if self.width == 1 {
            true
        } else {
            match self.byte_order {
                ByteOrder::LittleEndian => true,
                ByteOrder::BigEndian => self.start_bit % 8 == 7 && self.width == crate::signal::storage_width(
                    self.width,
                ),
            }
        }
    }

    /// Write the low `width` bits of `raw` into the signal's bit positions of
    /// the payload, preserving every other payload bit.
    ///
    /// Only supported layouts may be inserted: single-bit signals, any
    /// little-endian signal, and byte-aligned big-endian signals.  Unaligned
    /// big-endian encoding is deliberately not provided.
    pub fn insert(&self, pdu: &mut Vec<u8>, raw: u64)
        requires
            self.wf(),
            self.encode_supported(),
            self.fits(old(pdu)@.len() as int),
        ensures
            final(pdu)@.len() == old(pdu)@.len(),
            self.insert_effect(old(pdu)@, final(pdu)@, raw),
            final(pdu)@ == self.spec_insert(old(pdu)@, raw),
    {
        if self.width == 1 {
            self.insert_bool(pdu, raw);
        } else {
            match self.byte_order {
                ByteOrder::LittleEndian => self.insert_le(pdu, raw),
                ByteOrder::BigEndian => self.insert_be_aligned(pdu, raw),
            }
        }
        proof {
            lemma_insert_effect_is_spec_insert(*self, old(pdu)@, pdu@, raw);
        }
    }

    /// Single-bit insert: a read-modify-write of one bit, driven by bit 0 of
    /// the raw value.  In both byte orders a single-bit signal sits at its
    /// start bit.
    fn insert_bool(&self, pdu: &mut Vec<u8>, raw: u64)
        requires
            self.wf(),
            self.width == 1,
            self.fits(old(pdu)@.len() as int),
        ensures
            final(pdu)@.len() == old(pdu)@.len(),
            self.insert_effect(old(pdu)@, final(pdu)@, raw),
    {
        let start = self.start_bit as usize;
        let byte = start / 8;
        let t = (start % 8) as u8;
        proof {
            lemma_fundamental_div_mod(start as int, 8);
        }
        let oldb = pdu[byte];
        let on = (raw & 1u64) != 0;
        let newb: u8 = if on {
            oldb | (1u8 << t)
        } else {
            oldb & !(1u8 << t)
        };
        pdu.set(byte, newb);
        proof {
            // bit 0 of the raw value lands on the start bit
            assert(self.raw_bit_pos(0) == start);
            lemma_u64_bit_test(raw, 0);
            assert(((raw & 1u64) != 0) == (((raw >> 0u64) & 1) == 1)) by (bit_vector);
            assert(on == nth_bit(raw as nat, 0));
            lemma_set_bit_bits(oldb, newb, on, t, t);
            lemma_u8_bit_test(newb, t);
            assert(pdu_bit(pdu@, self.raw_bit_pos(0)) == nth_bit(raw as nat, 0));

            // every other bit is preserved
            assert forall|i: int|
                0 <= i < 8 * old(pdu)@.len() && !self.covers(i) implies #[trigger] pdu_bit(
                pdu@,
                i,
            ) == pdu_bit(old(pdu)@, i) by {
                assert(self.raw_bit_pos(0) == start);
                assert(i != start);
                lemma_fundamental_div_mod(i, 8);
                if i / 8 == byte {
                    let j = (i % 8) as u8;
                    lemma_set_bit_bits(oldb, newb, on, t, j);
                    lemma_u8_bit_test(newb, j);
                    lemma_u8_bit_test(oldb, j);
                }
            }
        }
    }

    /// Little-endian insert: the first byte takes the raw value's lowest bits
    /// at the start offset, full bytes follow, and a final partial byte is
    /// masked in.
    #[verifier::loop_isolation(false)]
    #[verifier::rlimit(100)]
    fn insert_le(&self, pdu: &mut Vec<u8>, raw: u64)
        requires
            self.wf(),
            self.width >= 2,
            self.byte_order == ByteOrder::LittleEndian,
            self.fits(old(pdu)@.len() as int),
        ensures
            final(pdu)@.len() == old(pdu)@.len(),
            self.insert_effect(old(pdu)@, final(pdu)@, raw),
    {
        let start = self.start_bit as usize;
        let width = self.width as usize;
        let low = start / 8;
        let left = start % 8;

        proof {
            lemma_fundamental_div_mod(start as int, 8);
        }

        let mut rs: usize = 0;
        let mut byte = low;

        if left != 0 {
            // first byte: the raw value's low bits, at offset `left`
            let len0 = if width < 8 - left {
                width
            } else {
                8 - left
            };
            rmw_byte(pdu, low, left as u8, len0 as u8, raw, 0);
            rs = len0;
            byte = low + 1;
        }

        while rs + 8 <= width
            invariant
                pdu@.len() == old(pdu)@.len(),
                rs <= width,
                left != 0 ==> rs >= 1,
                0 < rs < width ==> (start + rs) % 8 == 0 && byte == (start + rs) / 8,
                rs == 0 ==> byte == low && left == 0,
                forall|k: int|
                    0 <= k < rs ==> #[trigger] pdu_bit(pdu@, start + k) == nth_bit(
                        raw as nat,
                        k as nat,
                    ),
                forall|i: int|
                    0 <= i < 8 * old(pdu)@.len() && !(start <= i < start + rs)
                        ==> #[trigger] pdu_bit(pdu@, i) == pdu_bit(old(pdu)@, i),
            decreases width - rs,
        {
            proof {
                if rs == 0 {
                    assert(8 * byte == start + rs);
                } else {
                    lemma_fundamental_div_mod((start + rs) as int, 8);
                }
                assert(byte <= self.last_byte());
            }
            write_byte(pdu, byte, raw, rs as u64);
            rs = rs + 8;
            byte = byte + 1;
        }

        if rs < width {
            // final partial byte: the raw value's top bits, at offset 0
            proof {
                if rs == 0 {
                    assert(8 * byte == start + rs);
                } else {
                    lemma_fundamental_div_mod((start + rs) as int, 8);
                }
                assert(byte <= self.last_byte());
            }
            rmw_byte(pdu, byte, 0, (width - rs) as u8, raw, rs as u64);
        }

        proof {
            // all signal bits are placed, so the signal-level contract holds
            assert forall|i: int|
                0 <= i < 8 * old(pdu)@.len() && !self.covers(i) implies #[trigger] pdu_bit(
                pdu@,
                i,
            ) == pdu_bit(old(pdu)@, i) by {
                if start <= i < start + width {
                    assert(self.raw_bit_pos(i - start) == i);
                }
            }
        }
    }

    /// Byte-aligned big-endian insert: whole bytes from the most significant
    /// downward.
    #[verifier::loop_isolation(false)]
    #[verifier::rlimit(100)]
    fn insert_be_aligned(&self, pdu: &mut Vec<u8>, raw: u64)
        requires
            self.wf(),
            self.width >= 2,
            self.byte_order == ByteOrder::BigEndian,
            self.start_bit % 8 == 7,
            self.width % 8 == 0,
            self.fits(old(pdu)@.len() as int),
        ensures
            final(pdu)@.len() == old(pdu)@.len(),
            self.insert_effect(old(pdu)@, final(pdu)@, raw),
    {
        let start = self.start_bit as usize;
        let width = self.width as usize;
        let base = start / 8;
        let nb = width / 8;

        proof {
            lemma_fundamental_div_mod(start as int, 8);
            lemma_fundamental_div_mod(width as int, 8);
            assert(self.last_byte() == base + nb - 1) by {
                assert(self.be_extra_bytes() == (width - 8 + 7) / 8);
                lemma_fundamental_div_mod_converse_div(width as int - 1, 8, nb as int - 1, 7);
            }
        }

        let mut idx: usize = 0;
        while idx < nb
            invariant
                pdu@.len() == old(pdu)@.len(),
                idx <= nb,
                forall|k: int|
                    width - 8 * idx <= k < width ==> pdu_bit(
                        pdu@,
                        #[trigger] self.raw_bit_pos(k),
                    ) == nth_bit(raw as nat, k as nat),
                forall|i: int|
                    0 <= i < 8 * old(pdu)@.len() && !(8 * base <= i < 8 * (base + idx))
                        ==> #[trigger] pdu_bit(pdu@, i) == pdu_bit(old(pdu)@, i),
            decreases nb - idx,
        {
            let rshift = width - 8 - 8 * idx;
            write_byte(pdu, base + idx, raw, rshift as u64);
            proof {
                // raw bits rshift..rshift + 8 sit in byte base + idx
                assert forall|k: int| rshift <= k < rshift + 8 implies pdu_bit(
                    pdu@,
                    #[trigger] self.raw_bit_pos(k),
                ) == nth_bit(raw as nat, k as nat) by {
                    let m = (width - 1 - k) as nat;
                    lemma_be_pos_aligned(start as int, m);
                    // m == 8 * idx + (7 - (k - rshift))
                    lemma_fundamental_div_mod_converse_div(
                        m as int,
                        8,
                        idx as int,
                        7 - (k - rshift),
                    );
                    lemma_fundamental_div_mod_converse_mod(
                        m as int,
                        8,
                        idx as int,
                        7 - (k - rshift),
                    );
                    assert(self.raw_bit_pos(k) == 8 * (base + idx) + (k - rshift));
                }
                // earlier bytes keep the bits already placed
                assert forall|k: int| width - 8 * idx <= k < width implies pdu_bit(
                    pdu@,
                    #[trigger] self.raw_bit_pos(k),
                ) == nth_bit(raw as nat, k as nat) by {
                    if k >= rshift + 8 {
                        let m = (width - 1 - k) as nat;
                        lemma_be_pos_aligned(start as int, m);
                        vstd::arithmetic::div_mod::lemma_mod_division_less_than_divisor(
                            m as int,
                            8,
                        );
                        assert(m < 8 * idx);
                        assert(self.raw_bit_pos(k) < 8 * (base + idx));
                        assert(self.raw_bit_pos(k) >= 8 * base);
                    }
                }
            }
            idx = idx + 1;
        }

        proof {
            // every touched bit belongs to the signal
            assert forall|i: int|
                0 <= i < 8 * old(pdu)@.len() && !self.covers(i) implies #[trigger] pdu_bit(
                pdu@,
                i,
            ) == pdu_bit(old(pdu)@, i) by {
                if 8 * base <= i < 8 * (base + nb) {
                    let idx0 = (i - 8 * base) / 8;
                    let j = (i - 8 * base) % 8;
                    lemma_fundamental_div_mod(i - 8 * base, 8);
                    let k = width - 8 - 8 * idx0 + j;
                    let m = (width - 1 - k) as nat;
                    lemma_be_pos_aligned(start as int, m);
                    lemma_fundamental_div_mod_converse_div(m as int, 8, idx0, 7 - j);
                    lemma_fundamental_div_mod_converse_mod(m as int, 8, idx0, 7 - j);
                    assert(self.raw_bit_pos(k) == i);
                }
            }
        }
    }
}

} // verus!
