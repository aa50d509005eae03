//! Per-signal decoding: bit extraction followed by sign extension, and the
//! single-bit (boolean) fast path.

use vstd::prelude::*;

use vstd::arithmetic::div_mod::lemma_fundamental_div_mod;
use vstd::arithmetic::power2::{lemma2_to64_rest, pow2};

use crate::bits::{lemma_u64_bit_test, lemma_u8_bit_test};
use crate::extract::lemma_shift_mask_values;
use crate::signal::{sign_extend_spec, SignalSchema};

verus! {

/// Bit-level form of the sign-extension mask: or-ing in the complement of
/// the low `w`-bit mask keeps the low `w` bits and forces the rest to one.
#[verifier::rlimit(100)]
proof fn lemma_sign_extend_or(v: u64, t: u64, w: u64)
    by (bit_vector)
    requires
        t < 63,
        w == t + 1,
    ensures
        (v | !((1u64 << t) | (((1u64 << t) - 1) as u64))) == (v & (((1u64 << w) - 1) as u64)) + !(
        ((1u64 << w) - 1) as u64),
        ((v & (1u64 << t)) != 0) == (((v >> t) & 1) == 1),
{
}

/// Complementing a `u64` subtracts it from the all-ones value.
proof fn lemma_not_is_sub(x: u64)
    by (bit_vector)
    ensures
        !x == 0xffff_ffff_ffff_ffffu64 - x,
{
}

/// Sign-extend the low `width` bits of `v` into the full 64-bit pattern:
/// when bit `width - 1` is set, every bit from `width` up is forced to one.
pub fn sign_extend(v: u64, width: u64) -> (r: u64)
    requires
        1 <= width <= 64,
    ensures
        r as nat == sign_extend_spec(v as nat, width as nat),
{
    if width == 64 {
        v
    } else {
        let t = width - 1;
        proof {
            lemma_shift_mask_values(t);
            lemma_shift_mask_values(width);
            lemma_sign_extend_or(v, t, width);
            lemma_u64_bit_test(v, t);
            lemma_not_is_sub((((1u64 << width) - 1) as u64));
            vstd::bits::lemma_u64_low_bits_mask_is_mod(v, width as nat);
            lemma2_to64_rest();
        }
        let top: u64 = 1u64 << t;
        if v & top != 0 {
            v | !(top | (top - 1))
        } else {
            v
        }
    }
}

impl SignalSchema {
    /// Decode the signal's storage-level value from the payload.
    ///
    /// A single-bit signal yields 0 or 1 from a plain bit test.  A wider
    /// signal's bits are extracted in the signal's byte order and, when the
    /// signal is signed, sign-extended, so that the result is the signal's
    /// two's-complement storage value widened to 64 bits.
    pub fn decode(&self, pdu: &[u8]) -> (r: u64)
        requires
            self.wf(),
            self.fits(pdu@.len() as int),
        ensures
            r as nat == self.decode_spec(pdu@),
    {
        if self.width == 1 {
            let byte = (self.start_bit / 8) as usize;
            let t = (self.start_bit % 8) as u8;
            proof {
                lemma_fundamental_div_mod(self.start_bit as int, 8);
            }
            let b = pdu[byte];
            let set = (b & (1u8 << t)) != 0;
            proof {
                assert(((b & (1u8 << t)) != 0) == (((b >> t) & 1) == 1)) by (bit_vector)
                    requires
                        t < 8,
                ;
                lemma_u8_bit_test(b, t);
            }
            if set {
                1
            } else {
                0
            }
        } else {
            let raw = self.extract(pdu);
            if self.signed && self.width < 64 {
                sign_extend(raw, self.width)
            } else {
                raw
            }
        }
    }
}

} // verus!
