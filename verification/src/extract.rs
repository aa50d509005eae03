//! Extraction of a signal's raw bits from a payload.
//!
//! The extractor walks the payload byte by byte, exactly as the bit geometry
//! of the two byte orders dictates, and is proved to return the payload bits
//! that `SignalSchema::extract_spec` names.

use vstd::prelude::*;

use vstd::arithmetic::div_mod::{
    lemma_fundamental_div_mod,
    lemma_fundamental_div_mod_converse_div,
    lemma_fundamental_div_mod_converse_mod,
    lemma_mod_multiples_basic,
    lemma_multiply_divide_lt,
    lemma_small_mod,
};
use vstd::arithmetic::mul::lemma_mul_inequality;
use vstd::arithmetic::power2::{
    lemma2_to64,
    lemma2_to64_rest,
    lemma_pow2_adds,
    lemma_pow2_pos,
    lemma_pow2_strictly_increases,
    pow2,
};
use vstd::bits::{
    lemma_u64_low_bits_mask_is_mod,
    lemma_u64_pow2_no_overflow,
    lemma_u64_shl_is_mul,
    lemma_u64_shr_is_div,
    low_bits_mask,
};

use crate::bits::{
    be_pos,
    byte_field,
    le_bits,
    be_bits,
    lemma_be_bits_byte,
    lemma_be_bits_split,
    lemma_be_bits_bound,
    lemma_be_pos_add,
    lemma_be_pos_down,
    lemma_byte_field_bound,
    lemma_le_bits_bound,
    lemma_le_bits_byte,
    lemma_le_bits_split,
};
use crate::signal::{ByteOrder, SignalSchema};

verus! {

/// Bitwise or of values in disjoint bit ranges adds them: when `a` is zero in
/// its low `s` bits and `b` lives entirely inside them, `a | b` is `a + b`.
#[verifier::rlimit(60)]
pub(crate) proof fn lemma_u64_or_disjoint(a: u64, b: u64, s: u64)
    by (bit_vector)
    requires
        s < 64,
        a % (1u64 << s) == 0,
        b < (1u64 << s),
    ensures
        (a | b) == a + b,
        (b | a) == a + b,
{
}

/// The exec expressions `1u64 << n` and `(1u64 << n) - 1` evaluate to
/// `pow2(n)` and the low-bit mask of width `n`.
pub(crate) proof fn lemma_shift_mask_values(n: u64)
    requires
        n < 64,
    ensures
        (1u64 << n) == pow2(n as nat),
        ((1u64 << n) - 1) as nat == low_bits_mask(n as nat),
        pow2(n as nat) >= 1,
{
    lemma_u64_pow2_no_overflow(n as nat);
    assert(1u64 * pow2(n as nat) == pow2(n as nat));
    lemma_u64_shl_is_mul(1u64, n);
}

/// Shifting a byte right by `t` yields its top field: the `(8 - t)`-bit field
/// at offset `t`.
pub(crate) proof fn lemma_byte_shr(b: u8, t: u64)
    requires
        t < 8,
    ensures
        ((b as u64) >> t) as nat == byte_field(b, t as nat, (8 - t) as nat),
        ((b as u64) >> t) as nat == (b as nat) / pow2(t as nat),
        ((b as u64) >> t) < pow2((8 - t) as nat),
{
    lemma_u64_shr_is_div(b as u64, t);
    lemma2_to64();
    lemma_pow2_adds(t as nat, (8 - t) as nat);
    lemma_pow2_pos(t as nat);
    assert((b as int) < pow2(t as nat) * pow2((8 - t) as nat));
    lemma_multiply_divide_lt(b as int, pow2(t as nat) as int, pow2((8 - t) as nat) as int);
    lemma_small_mod((b as nat) / pow2(t as nat), pow2((8 - t) as nat));
}

/// A whole byte is its own 8-bit field at offset 0.
pub(crate) proof fn lemma_byte_full(b: u8)
    ensures
        byte_field(b, 0, 8) == b as nat,
{
    lemma2_to64();
    lemma_small_mod(b as nat, 256);
}

/// Masking a byte keeps its low field: the `n`-bit field at offset 0.
pub(crate) proof fn lemma_byte_mask(b: u8, n: u64)
    requires
        1 <= n < 64,
    ensures
        ((b as u64) & (((1u64 << n) - 1) as u64)) as nat == (b as nat) % pow2(n as nat),
        (n >= 8 ==> ((b as u64) & (((1u64 << n) - 1) as u64)) == b),
        (b as nat) % pow2(n as nat) == byte_field(b, 0, n as nat),
{
    lemma_shift_mask_values(n);
    lemma_u64_low_bits_mask_is_mod(b as u64, n as nat);
    lemma2_to64();
    if n >= 8 {
        assert(pow2(8) <= pow2(n as nat)) by {
            if n > 8 {
                lemma_pow2_strictly_increases(8, n as nat);
            }
        }
        lemma_small_mod(b as nat, pow2(n as nat));
    }
    assert((b as nat) / pow2(0) == b as nat);
}

/// Division by 8 of a predecessor: stepping back one from a multiple of 8
/// moves to the previous block, otherwise the block is unchanged.
pub(crate) proof fn lemma_div8_pred(e: int)
    requires
        e >= 1,
    ensures
        e % 8 == 0 ==> (e - 1) / 8 == e / 8 - 1,
        e % 8 != 0 ==> (e - 1) / 8 == e / 8,
{
    lemma_fundamental_div_mod(e, 8);
    if e % 8 == 0 {
        lemma_fundamental_div_mod_converse_div(e - 1, 8, e / 8 - 1, 7);
    } else {
        lemma_fundamental_div_mod_converse_div(e - 1, 8, e / 8, e % 8 - 1);
    }
}

/// A value of `clen` bits shifted up by `sh` stays inside `sh + clen` bits,
/// and in particular inside a `u64` when `sh + clen <= 64`.
pub(crate) proof fn lemma_chunk_shl_fits(c: u64, clen: nat, sh: nat)
    requires
        c < pow2(clen),
        sh + clen <= 64,
    ensures
        c * pow2(sh) + pow2(sh) <= pow2((sh + clen) as nat),
        c * pow2(sh) <= u64::MAX,
        c * pow2(sh) < pow2((sh + clen) as nat),
{
    lemma_pow2_pos(sh);
    lemma_pow2_pos(clen);
    assert(c * pow2(sh) <= (pow2(clen) - 1) * pow2(sh)) by {
        lemma_mul_inequality(c as int, pow2(clen) - 1, pow2(sh) as int);
    }
    assert((pow2(clen) - 1) * pow2(sh) == pow2(sh) * pow2(clen) - pow2(sh)) by (nonlinear_arith);
    lemma_pow2_adds(sh, clen);
    assert(pow2((sh + clen) as nat) <= pow2(64)) by {
        if sh + clen < 64 {
            lemma_pow2_strictly_increases((sh + clen) as nat, 64);
        }
    }
    lemma2_to64_rest();
}

impl SignalSchema {
    /// Extract the signal's raw bits from the payload into the low bits of a
    /// `u64`, walking the payload bytes in the signal's byte order.
    ///
    /// Big-endian signals and little-endian signals that span several bytes
    /// are read exactly.  A little-endian signal confined to one byte takes
    /// the single-byte path, whose mask is derived from the start offset
    /// within the byte rather than from the width; the bits actually read
    /// are `extracted_width` ones (they are the signal's own bits exactly
    /// when `reads_exact_width` holds).
    pub fn extract(&self, pdu: &[u8]) -> (r: u64)
        requires
            self.wf(),
            self.fits(pdu@.len() as int),
        ensures
            r as nat == self.extract_spec(pdu@),
            r < pow2(self.extracted_width()),
    {
        match self.byte_order {
            ByteOrder::LittleEndian => self.extract_le(pdu),
            ByteOrder::BigEndian => self.extract_be(pdu),
        }
    }

    /// Little-endian extraction: low byte first, each further byte shifted up
    /// past the bits already gathered, the last byte masked to the bits that
    /// belong to the signal.
    #[verifier::loop_isolation(false)]
    #[verifier::rlimit(100)]
    fn extract_le(&self, pdu: &[u8]) -> (r: u64)
        requires
            self.wf(),
            self.byte_order == ByteOrder::LittleEndian,
            self.fits(pdu@.len() as int),
        ensures
            r as nat == self.extract_spec(pdu@),
            r < pow2(self.extracted_width()),
    {
        let start = self.start_bit as usize;
        let width = self.width as usize;
        let low = start / 8;
        let left = start % 8;
        let high = (start + width - 1) / 8;
        let right = (start + width) % 8;
        let count = high - low;

        proof {
            lemma_fundamental_div_mod(start as int, 8);
        }

        let b0 = pdu[low];
        let mut v: u64 = b0 as u64;

        if count == 0 {
            if left == 0 {
                // Byte-aligned single byte: the whole byte is taken.
                proof {
                    lemma_byte_full(b0);
                    lemma_le_bits_byte(pdu@, low as int, 0, 8);
                    lemma_le_bits_bound(pdu@, start as int, 8);
                }
                v
            } else {
                // Single byte at a nonzero offset: shift down, then apply
                // the offset-derived mask.
                proof {
                    lemma_shift_mask_values(left as u64);
                }
                v = (v >> (left as u64)) & ((1u64 << (left as u64)) - 1);
                proof {
                    let b = b0;
                    let t = left as nat;
                    lemma_byte_shr(b, left as u64);
                    let x = ((b as u64) >> (left as u64)) as nat;
                    lemma_shift_mask_values(left as u64);
                    lemma_u64_low_bits_mask_is_mod((b as u64) >> (left as u64), t);
                    // v == x % pow2(left) == byte_field(b, left, left)
                    assert(v as nat == x % pow2(t));
                    if left <= 8 - left {
                        // the mask width is the number of bits read
                        assert(x % pow2(t) == byte_field(b, t, t));
                        lemma_le_bits_byte(pdu@, low as int, t, t);
                        assert(self.extracted_width() == t);
                        lemma_le_bits_bound(pdu@, start as int, t);
                    } else {
                        // the byte runs out first: the mask keeps everything
                        assert(x < pow2((8 - left) as nat));
                        lemma_pow2_strictly_increases((8 - left) as nat, t);
                        lemma_small_mod(x, pow2(t));
                        lemma_small_mod(x, pow2((8 - left) as nat));
                        lemma_le_bits_byte(pdu@, low as int, t, (8 - left) as nat);
                        assert(self.extracted_width() == (8 - left) as nat);
                        lemma_le_bits_bound(pdu@, start as int, (8 - left) as nat);
                    }
                }
                v
            }
        } else {
            // First byte: drop the `left` bits below the signal.
            proof {
                lemma_byte_full(b0);
                lemma_le_bits_byte(pdu@, low as int, 0, 8);
                lemma_byte_shr(b0, left as u64);
                lemma_le_bits_byte(pdu@, low as int, left as nat, (8 - left) as nat);
                lemma_le_bits_bound(pdu@, start as int, (8 - left) as nat);
            }
            if left != 0 {
                v = v >> (left as u64);
            }
            assert(v as nat == le_bits(pdu@, start as int, (8 - left) as nat));
            assert(v < pow2((8 - left) as nat));

            // Relate the width to the byte/offset geometry of its last byte.
            proof {
                lemma_div8_pred((start + width) as int);
                lemma_fundamental_div_mod((start + width) as int, 8);
                if right == 0 {
                    assert(width == 8 * count + 8 - left);
                } else {
                    assert(width == 8 * count + right - left);
                }
            }

            let mut o: usize = 1;
            while o <= count
                invariant
                    1 <= o <= count + 1,
                    o <= count ==> v as nat == le_bits(pdu@, start as int, (o * 8 - left) as nat)
                        && v < pow2((o * 8 - left) as nat),
                    o == count + 1 ==> v as nat == le_bits(pdu@, start as int, width as nat) && v
                        < pow2(width as nat),
                decreases count + 1 - o,
            {
                let shift = o * 8 - left;
                let b = pdu[low + o];
                let ghost done = (o * 8 - left) as nat;
                let ghost clen: nat = if o == count && right != 0 {
                    right as nat
                } else {
                    8
                };
                proof {
                    if o == count && right != 0 {
                        lemma_shift_mask_values(right as u64);
                    }
                }
                let c: u64 = if o == count && right != 0 {
                    (b as u64) & ((1u64 << (right as u64)) - 1)
                } else {
                    b as u64
                };
                proof {
                    // the new byte is the next `clen` bits of the signal
                    if o == count && right != 0 {
                        lemma_byte_mask(b, right as u64);
                    } else {
                        lemma_byte_full(b);
                    }
                    lemma_le_bits_byte(pdu@, (low + o) as int, 0, clen);
                    assert(c as nat == le_bits(pdu@, 8 * (low + o) as int, clen));
                    lemma_byte_field_bound(b, 0, clen);
                    assert(c < pow2(clen));

                    // shifting it into place neither overflows nor collides
                    assert(done + clen <= width);
                    lemma_pow2_pos(done);
                    lemma_pow2_pos(clen);
                    lemma_chunk_shl_fits(c, clen, done);
                    lemma_u64_shl_is_mul(c, shift as u64);
                    assert((c << (shift as u64)) == c * pow2(done));
                    lemma_shift_mask_values(shift as u64);
                    lemma_mod_multiples_basic(c as int, pow2(done) as int);
                    assert((c << (shift as u64)) % (1u64 << (shift as u64)) == 0);
                    lemma_u64_or_disjoint((c << (shift as u64)), v, shift as u64);
                    lemma_le_bits_split(pdu@, start as int, done, clen);
                    assert(start + done == 8 * (low + o));
                    assert(pow2(done) * (c as nat) == (c as nat) * pow2(done)) by (nonlinear_arith);
                    lemma_le_bits_bound(pdu@, start as int, (done + clen) as nat);
                }
                v = v | (c << (shift as u64));
                proof {
                    if o == count {
                        assert(done + clen == width);
                    }
                }
                o = o + 1;
            }
            v
        }
    }

    /// Big-endian extraction: the start byte's low bits form the signal's top
    /// chunk, each further byte is appended below it, the last byte
    /// contributing only its top bits.
    #[verifier::loop_isolation(false)]
    #[verifier::rlimit(100)]
    fn extract_be(&self, pdu: &[u8]) -> (r: u64)
        requires
            self.wf(),
            self.byte_order == ByteOrder::BigEndian,
            self.fits(pdu@.len() as int),
        ensures
            r as nat == self.extract_spec(pdu@),
            r < pow2(self.extracted_width()),
    {
        let start = self.start_bit as usize;
        let width = self.width as usize;
        let low = start / 8;
        let left = start % 8;

        proof {
            lemma_fundamental_div_mod(start as int, 8);
        }

        let b0 = pdu[low];

        if width <= left + 1 {
            // The whole signal sits inside its first byte.
            let shift = (left + 1 - width) as u64;
            proof {
                lemma_shift_mask_values(width as u64);
            }
            let v = ((b0 as u64) >> shift) & ((1u64 << (width as u64)) - 1);
            proof {
                lemma_byte_shr(b0, shift);
                lemma_shift_mask_values(width as u64);
                lemma_u64_low_bits_mask_is_mod((b0 as u64) >> shift, width as nat);
                // the masked shift is exactly the width-bit field above `shift`
                assert(v as nat == ((b0 as nat) / pow2(shift as nat)) % pow2(width as nat));
                lemma_be_bits_byte(pdu@, low as int, left as nat, width as nat);
                lemma_byte_field_bound(b0, shift as nat, width as nat);
            }
            v
        } else {
            // First byte: its low `left + 1` bits are the signal's top chunk.
            proof {
                lemma_shift_mask_values((left + 1) as u64);
            }
            let m: u64 = if left < 7 {
                (b0 as u64) & ((1u64 << ((left + 1) as u64)) - 1)
            } else {
                b0 as u64
            };
            proof {
                if left < 7 {
                    lemma_byte_mask(b0, (left + 1) as u64);
                } else {
                    lemma_byte_full(b0);
                }
                assert(m as nat == byte_field(b0, 0, (left + 1) as nat));
                lemma_be_bits_byte(pdu@, low as int, left as nat, (left + 1) as nat);
                assert(m as nat == be_bits(pdu@, start as int, (left + 1) as nat));
                lemma_byte_field_bound(b0, 0, (left + 1) as nat);
            }

            let mut rem = width - left - 1;
            proof {
                // shifting the chunk into place does not overflow
                lemma_pow2_pos((left + 1) as nat);
                lemma_pow2_pos(rem as nat);
                lemma_chunk_shl_fits(m, (left + 1) as nat, rem as nat);
                lemma_u64_shl_is_mul(m, rem as u64);
                lemma_be_bits_bound(pdu@, start as int, (left + 1) as nat);
            }
            let mut v: u64 = m << (rem as u64);
            let mut byte = low + 1;

            proof {
                // after the first byte the walk stands at bit 7 of `byte`
                lemma_be_pos_down(start as int, left as nat);
                lemma_be_pos_add(start as int, left as nat, 1);
                assert(be_pos(start as int, (left + 1) as nat) == 8 * byte + 7);
            }

            while rem > 0
                invariant
                    rem <= width - left - 1,
                    rem > 0 ==> (width - left - 1 - rem) % 8 == 0,
                    rem > 0 ==> byte == low + 1 + (width - left - 1 - rem) / 8,
                    rem > 0 ==> byte < pdu@.len(),
                    rem > 0 ==> v as nat == be_bits(pdu@, start as int, (width - rem) as nat)
                        * pow2(rem as nat),
                    rem > 0 ==> be_pos(start as int, (width - rem) as nat) == 8 * byte + 7,
                    rem == 0 ==> v as nat == be_bits(pdu@, start as int, width as nat),
                decreases rem,
            {
                let ghost n = (width - rem) as nat;
                let b = pdu[byte];
                proof {
                    lemma_be_bits_bound(pdu@, start as int, n);
                    lemma_pow2_adds(n, rem as nat);
                    lemma_pow2_pos(n);
                    lemma_pow2_pos(rem as nat);
                }
                if rem >= 8 {
                    rem = rem - 8;
                    proof {
                        // the byte is the next eight bits of the walk
                        lemma_byte_full(b);
                        lemma_be_bits_byte(pdu@, byte as int, 7, 8);
                        lemma_be_bits_split(pdu@, start as int, n, 8);
                        lemma_byte_field_bound(b, 0, 8);

                        // b << rem == b * pow2(rem), within range
                        lemma_pow2_adds(8, rem as nat);
                        lemma_pow2_pos(rem as nat);
                        lemma2_to64();
                        lemma_chunk_shl_fits(b as u64, 8, rem as nat);
                        lemma_u64_shl_is_mul(b as u64, rem as u64);

                        // disjointness: v is a multiple of pow2(rem + 8)
                        lemma_shift_mask_values((rem + 8) as u64);
                        assert(v as nat == be_bits(pdu@, start as int, n) * pow2(
                            (rem + 8) as nat,
                        ));
                        lemma_mod_multiples_basic(
                            be_bits(pdu@, start as int, n) as int,
                            pow2((rem + 8) as nat) as int,
                        );
                        assert(v % (1u64 << ((rem + 8) as u64)) == 0);
                        assert(((b as u64) << (rem as u64)) < (1u64 << ((rem + 8) as u64))) by {
                            assert((b as u64) * pow2(rem as nat) < pow2(8) * pow2(rem as nat))
                                by {
                                vstd::arithmetic::mul::lemma_mul_strict_inequality(
                                    b as int,
                                    pow2(8) as int,
                                    pow2(rem as nat) as int,
                                );
                            }
                        }
                        lemma_u64_or_disjoint(v, (b as u64) << (rem as u64), (rem + 8) as u64);

                        // the combined value is the longer prefix, shifted
                        assert((be_bits(pdu@, start as int, n) * pow2(8) + be_bits(
                            pdu@,
                            8 * byte + 7,
                            8,
                        )) * pow2(rem as nat) == be_bits(pdu@, start as int, n) * (pow2(8) * pow2(
                            rem as nat,
                        )) + be_bits(pdu@, 8 * byte + 7, 8) * pow2(rem as nat)) by (nonlinear_arith);

                        // the walk advances one byte
                        lemma_be_pos_add(start as int, n, 8);
                        lemma_be_pos_down(8 * byte + 7, 7);
                        lemma_be_pos_add(8 * byte + 7, 7, 1);
                        lemma_fundamental_div_mod_converse_mod(8 * byte + 7, 8, byte as int, 7);
                        lemma_fundamental_div_mod_converse_mod(8 * byte, 8, byte as int, 0);
                    }
                    v = v | ((b as u64) << (rem as u64));
                    byte = byte + 1;
                    proof {
                        if rem == 0 {
                            // the walk consumed the whole signal on this byte
                            lemma2_to64();
                            assert(v as nat == be_bits(pdu@, start as int, width as nat) * 1);
                        }
                        if rem > 0 {
                            assert(byte == low + 1 + (width - left - 1 - rem) / 8);
                            // the next byte stays inside the payload
                            assert((width - left - 1 - rem) / 8 <= (width - left - 1 - 1) / 8) by {
                                vstd::arithmetic::div_mod::lemma_div_is_ordered(
                                    (width - left - 1 - rem) as int,
                                    (width - left - 2) as int,
                                    8,
                                );
                            }
                            assert(self.be_extra_bytes() == ((width - left - 1 + 7) / 8));
                            assert((width - left - 2) / 8 < (width - left - 1 + 7) / 8) by {
                                lemma_fundamental_div_mod((width - left - 1 - rem) as int, 8);
                            }
                        }
                    }
                } else {
                    // Final byte: only its top `rem` bits belong to the signal.
                    let c = (b as u64) >> ((8 - rem) as u64);
                    proof {
                        lemma_byte_shr(b, (8 - rem) as u64);
                        assert(c as nat == byte_field(b, (8 - rem) as nat, rem as nat));
                        lemma_be_bits_byte(pdu@, byte as int, 7, rem as nat);
                        assert(c as nat == be_bits(pdu@, 8 * byte + 7, rem as nat));
                        lemma_be_bits_split(pdu@, start as int, n, rem as nat);

                        // disjointness
                        lemma_shift_mask_values(rem as u64);
                        lemma_mod_multiples_basic(
                            be_bits(pdu@, start as int, n) as int,
                            pow2(rem as nat) as int,
                        );
                        assert(v % (1u64 << (rem as u64)) == 0);
                        assert(c < (1u64 << (rem as u64)));
                        lemma_u64_or_disjoint(v, c, rem as u64);
                    }
                    v = v | c;
                    rem = 0;
                }
            }
            proof {
                lemma_be_bits_bound(pdu@, start as int, width as nat);
            }
            v
        }
    }
}

} // verus!
