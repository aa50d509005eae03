//! Bit-level model of a CAN payload.
//!
//! A payload is a sequence of bytes; its bits carry the DBC numbering: flat
//! bit `i` is bit `i % 8` of byte `i / 8`, where bit 0 of a byte is its least
//! significant bit.  A little-endian signal occupies consecutive flat bits,
//! least significant first.  A big-endian signal starts at its most
//! significant bit and walks downward within a byte, continuing at bit 7 of
//! the following byte.

use vstd::prelude::*;

use vstd::arithmetic::div_mod::{
    lemma_breakdown,
    lemma_div_denominator,
    lemma_fundamental_div_mod,
    lemma_fundamental_div_mod_converse_div,
    lemma_fundamental_div_mod_converse_mod,
    lemma_mod_division_less_than_divisor,
    lemma_small_mod,
};
use vstd::arithmetic::power2::{lemma2_to64, lemma_pow2_adds, lemma_pow2_pos, lemma_pow2_unfold, pow2};
use vstd::bits::low_bits_mask;

verus! {

/// True when bit `k` (0 = least significant) of the natural number `x` is set.
pub open spec fn nth_bit(x: nat, k: nat) -> bool {
    (x / pow2(k)) % 2 == 1
}

/// Numeric value (0 or 1) of a boolean bit.
pub open spec fn bit1(b: bool) -> nat {
    if b {
        1
    } else {
        0
    }
}

/// Flat payload bit `i` in DBC numbering: bit `i % 8` of byte `i / 8`.
pub open spec fn pdu_bit(pdu: Seq<u8>, i: int) -> bool {
    nth_bit(pdu[i / 8] as nat, (i % 8) as nat)
}

/// Value of the `len`-bit field of byte `b` that sits `off` bits above the
/// least significant bit.
pub open spec fn byte_field(b: u8, off: nat, len: nat) -> nat {
    ((b as nat) / pow2(off)) % pow2(len)
}

/// Value of `w` consecutive flat payload bits starting at `s`, least
/// significant first: the little-endian signal layout.
pub open spec fn le_bits(pdu: Seq<u8>, s: int, w: nat) -> nat
    decreases w,
{
    if w == 0 {
        0
    } else {
        bit1(pdu_bit(pdu, s)) + 2 * le_bits(pdu, s + 1, (w - 1) as nat)
    }
}

/// Successor of a flat bit position in the big-endian bit walk: one position
/// down within its byte, or bit 7 of the following byte.
pub open spec fn be_next(p: int) -> int {
    if p % 8 == 0 {
        p + 15
    } else {
        p - 1
    }
}

/// Flat position reached after `k` big-endian steps from `p`; the `k`-th bit
/// of a big-endian signal starting at `p`, counting from the most
/// significant.
pub open spec fn be_pos(p: int, k: nat) -> int
    decreases k,
{
    if k == 0 {
        p
    } else {
        be_next(be_pos(p, (k - 1) as nat))
    }
}

/// Value of the `w` payload bits of the big-endian walk starting at flat bit
/// `p`, most significant first: the big-endian signal layout.
pub open spec fn be_bits(pdu: Seq<u8>, p: int, w: nat) -> nat
    decreases w,
{
    if w == 0 {
        0
    } else {
        2 * be_bits(pdu, p, (w - 1) as nat) + bit1(pdu_bit(pdu, be_pos(p, (w - 1) as nat)))
    }
}

/// A little-endian field of `w` bits is below `pow2(w)`.
pub proof fn lemma_le_bits_bound(pdu: Seq<u8>, s: int, w: nat)
    ensures
        le_bits(pdu, s, w) < pow2(w),
    decreases w,
{
    if w == 0 {
        assert(pow2(0) == 1) by {
            lemma2_to64();
        }
    } else {
        lemma_le_bits_bound(pdu, s + 1, (w - 1) as nat);
        lemma_pow2_unfold(w);
    }
}

/// A big-endian field of `w` bits is below `pow2(w)`.
pub proof fn lemma_be_bits_bound(pdu: Seq<u8>, p: int, w: nat)
    ensures
        be_bits(pdu, p, w) < pow2(w),
    decreases w,
{
    if w == 0 {
        assert(pow2(0) == 1) by {
            lemma2_to64();
        }
    } else {
        lemma_be_bits_bound(pdu, p, (w - 1) as nat);
        lemma_pow2_unfold(w);
    }
}

/// A little-endian field splits at any interior point: the low `a` bits plus
/// the remaining `b` bits scaled by `pow2(a)`.
pub proof fn lemma_le_bits_split(pdu: Seq<u8>, s: int, a: nat, b: nat)
    ensures
        le_bits(pdu, s, a + b) == le_bits(pdu, s, a) + pow2(a) * le_bits(pdu, s + a, b),
    decreases a,
{
    if a == 0 {
        assert(pow2(0) == 1) by {
            lemma2_to64();
        }
    } else {
        lemma_le_bits_split(pdu, s + 1, (a - 1) as nat, b);
        lemma_pow2_unfold(a);
        assert(le_bits(pdu, s, (a + b) as nat) == bit1(pdu_bit(pdu, s)) + 2 * le_bits(
            pdu,
            s + 1,
            (a + b - 1) as nat,
        ));
        assert(2 * (pow2((a - 1) as nat) * le_bits(pdu, s + a, b)) == (2 * pow2((a - 1) as nat))
            * le_bits(pdu, s + a, b)) by (nonlinear_arith);
    }
}

/// Shifting out the low bit moves every bit index down by one.
pub proof fn lemma_nth_bit_div2(x: nat, k: nat)
    ensures
        nth_bit(x, (k + 1) as nat) == nth_bit(x / 2, k),
{
    lemma_pow2_pos(k);
    lemma_div_denominator(x as int, 2, pow2(k) as int);
    assert(pow2(k + 1) == 2 * pow2(k)) by {
        lemma_pow2_adds(1, k);
        lemma2_to64();
    }
}

/// A byte field of positive length is its lowest bit plus twice the field
/// one position higher.
pub proof fn lemma_byte_field_unfold(b: u8, off: nat, len: nat)
    requires
        len >= 1,
    ensures
        byte_field(b, off, len) == 2 * byte_field(b, (off + 1) as nat, (len - 1) as nat) + bit1(
            nth_bit(b as nat, off),
        ),
{
    lemma_pow2_pos(off);
    lemma_pow2_pos((len - 1) as nat);
    let x = (b as nat) / pow2(off);
    lemma_breakdown(x as int, 2, pow2((len - 1) as nat) as int);
    assert(pow2(len) == 2 * pow2((len - 1) as nat)) by {
        lemma_pow2_adds(1, (len - 1) as nat);
        lemma2_to64();
    }
    assert(x / 2 == (b as nat) / pow2((off + 1) as nat)) by {
        lemma_div_denominator(b as int, pow2(off) as int, 2);
        lemma_pow2_adds(off, 1);
        lemma2_to64();
    }
    assert(x % 2 == bit1(nth_bit(b as nat, off)));
}

/// Every byte field is below `pow2` of its length.
pub proof fn lemma_byte_field_bound(b: u8, off: nat, len: nat)
    ensures
        byte_field(b, off, len) < pow2(len),
{
    lemma_pow2_pos(len);
    lemma_mod_division_less_than_divisor(((b as nat) / pow2(off)) as int, pow2(len) as int);
}

/// Little-endian payload bits that stay inside one byte are a field of that
/// byte: `len` bits starting at flat bit `8 * k + t` are the `len`-bit field
/// of byte `k` at offset `t`.
pub proof fn lemma_le_bits_byte(pdu: Seq<u8>, k: int, t: nat, len: nat)
    requires
        t + len <= 8,
    ensures
        le_bits(pdu, 8 * k + t, len) == byte_field(pdu[k], t, len),
    decreases len,
{
    let b = pdu[k];
    if len == 0 {
        lemma_pow2_pos(t);
        assert(pow2(0) == 1) by {
            lemma2_to64();
        }
    } else {
        let s = 8 * k + t;
        assert(s / 8 == k && s % 8 == t) by {
            lemma_fundamental_div_mod_converse_div(s, 8, k, t as int);
            lemma_fundamental_div_mod_converse_mod(s, 8, k, t as int);
        }
        assert(pdu_bit(pdu, s) == nth_bit(b as nat, t));
        lemma_le_bits_byte(pdu, k, (t + 1) as nat, (len - 1) as nat);
        lemma_byte_field_unfold(b, t, len);
    }
}

/// Walking down `k <= p % 8` positions stays inside the byte and simply
/// lowers the flat position by `k`.
pub proof fn lemma_be_pos_down(p: int, k: nat)
    requires
        k <= p % 8,
    ensures
        be_pos(p, k) == p - k,
    decreases k,
{
    if k > 0 {
        lemma_be_pos_down(p, (k - 1) as nat);
        let q = p - (k - 1);
        assert(q % 8 == p % 8 - (k - 1)) by {
            lemma_fundamental_div_mod(p, 8);
            lemma_fundamental_div_mod_converse_mod(q, 8, p / 8, p % 8 - (k - 1));
        }
    }
}

/// The big-endian walk composes: `a + b` steps are `a` steps followed by `b`
/// steps.
pub proof fn lemma_be_pos_add(p: int, a: nat, b: nat)
    ensures
        be_pos(p, a + b) == be_pos(be_pos(p, a), b),
    decreases b,
{
    if b > 0 {
        lemma_be_pos_add(p, a, (b - 1) as nat);
    }
}

/// A big-endian field splits at any interior point: the first `a` bits scaled
/// by `pow2(b)` plus the `b` bits that the walk visits next.
pub proof fn lemma_be_bits_split(pdu: Seq<u8>, p: int, a: nat, b: nat)
    ensures
        be_bits(pdu, p, a + b) == be_bits(pdu, p, a) * pow2(b) + be_bits(pdu, be_pos(p, a), b),
    decreases b,
{
    if b == 0 {
        assert(pow2(0) == 1) by {
            lemma2_to64();
        }
    } else {
        lemma_be_bits_split(pdu, p, a, (b - 1) as nat);
        lemma_be_pos_add(p, a, (b - 1) as nat);
        lemma_pow2_unfold(b);
        assert(2 * (be_bits(pdu, p, a) * pow2((b - 1) as nat)) == be_bits(pdu, p, a) * (2 * pow2(
            (b - 1) as nat,
        ))) by (nonlinear_arith);
    }
}

/// Big-endian payload bits that stay inside one byte are a field of that
/// byte: `len` bits walked down from bit `t` of byte `k` are the `len`-bit
/// field of byte `k` whose top bit is bit `t`.
pub proof fn lemma_be_bits_byte(pdu: Seq<u8>, k: int, t: nat, len: nat)
    requires
        t < 8,
        len <= t + 1,
    ensures
        be_bits(pdu, 8 * k + t, len) == byte_field(pdu[k], (t + 1 - len) as nat, len),
    decreases len,
{
    let b = pdu[k];
    let p = 8 * k + t;
    assert(p / 8 == k && p % 8 == t) by {
        lemma_fundamental_div_mod_converse_div(p, 8, k, t as int);
        lemma_fundamental_div_mod_converse_mod(p, 8, k, t as int);
    }
    if len == 0 {
        lemma_pow2_pos((t + 1) as nat);
        assert(pow2(0) == 1) by {
            lemma2_to64();
        }
    } else {
        lemma_be_bits_byte(pdu, k, t, (len - 1) as nat);
        lemma_be_pos_down(p, (len - 1) as nat);
        let q = p - (len - 1);
        assert(q / 8 == k && q % 8 == t - (len - 1)) by {
            lemma_fundamental_div_mod_converse_div(q, 8, k, t - (len - 1));
            lemma_fundamental_div_mod_converse_mod(q, 8, k, t - (len - 1));
        }
        assert(pdu_bit(pdu, q) == nth_bit(b as nat, (t + 1 - len) as nat));
        lemma_byte_field_unfold(b, (t + 1 - len) as nat, len);
    }
}

/// Bridge between the executable bit test on a byte and the arithmetic bit.
pub proof fn lemma_u8_bit_test(b: u8, j: u8)
    requires
        j < 8,
    ensures
        nth_bit(b as nat, j as nat) == (((b >> j) & 1) == 1),
{
    vstd::bits::lemma_u8_shr_is_div(b, j);
    vstd::bits::lemma_u8_low_bits_mask_is_mod(b >> j, 1);
    lemma2_to64();
    assert(low_bits_mask(1) == 1) by {
        vstd::bits::lemma_low_bits_mask_values();
    }
    assert((b >> j) & 1 == (b >> j) & (low_bits_mask(1) as u8));
}

/// Bridge between the executable bit test on a `u64` and the arithmetic bit.
pub proof fn lemma_u64_bit_test(x: u64, k: u64)
    requires
        k < 64,
    ensures
        nth_bit(x as nat, k as nat) == (((x >> k) & 1) == 1),
{
    vstd::bits::lemma_u64_shr_is_div(x, k);
    vstd::bits::lemma_u64_low_bits_mask_is_mod(x >> k, 1);
    lemma2_to64();
    assert(low_bits_mask(1) == 1) by {
        vstd::bits::lemma_low_bits_mask_values();
    }
    assert((x >> k) & 1 == (x >> k) & (low_bits_mask(1) as u64));
}

/// From bit 7 of a byte, the big-endian walk crosses whole bytes forward:
/// after `m` steps it stands `8 * (m / 8)` bytes further on, `m % 8` bits
/// below bit 7.
pub proof fn lemma_be_pos_aligned(p: int, m: nat)
    requires
        p % 8 == 7,
    ensures
        be_pos(p, m) == p + 8 * (m as int / 8) - (m as int % 8),
    decreases m,
{
    if m > 0 {
        lemma_be_pos_aligned(p, (m - 1) as nat);
        let q = be_pos(p, (m - 1) as nat);
        lemma_fundamental_div_mod(p, 8);
        lemma_fundamental_div_mod(m as int, 8);
        lemma_fundamental_div_mod(m as int - 1, 8);
        if (m as int - 1) % 8 == 7 {
            // the previous position was bit 0 of its byte
            lemma_fundamental_div_mod_converse_mod(q, 8, p / 8 + (m as int - 1) / 8, 0);
            lemma_fundamental_div_mod_converse_div(m as int, 8, (m as int - 1) / 8 + 1, 0);
            lemma_fundamental_div_mod_converse_mod(m as int, 8, (m as int - 1) / 8 + 1, 0);
        } else {
            lemma_fundamental_div_mod_converse_mod(
                q,
                8,
                p / 8 + (m as int - 1) / 8,
                7 - (m as int - 1) % 8,
            );
            lemma_fundamental_div_mod_converse_div(m as int, 8, (m as int - 1) / 8, (m as int - 1) % 8 + 1);
            lemma_fundamental_div_mod_converse_mod(m as int, 8, (m as int - 1) / 8, (m as int - 1) % 8 + 1);
        }
    }
}

/// A little-endian field whose bits agree with the low bits of `x` has the
/// value `x % pow2(w)`.
pub proof fn lemma_le_bits_from_nth(pdu: Seq<u8>, s: int, w: nat, x: nat)
    requires
        forall|k: int| 0 <= k < w ==> #[trigger] pdu_bit(pdu, s + k) == nth_bit(x, k as nat),
    ensures
        le_bits(pdu, s, w) == x % pow2(w),
    decreases w,
{
    if w == 0 {
        assert(pow2(0) == 1) by {
            lemma2_to64();
        }
    } else {
        assert forall|k: int| 0 <= k < w - 1 implies #[trigger] pdu_bit(pdu, s + 1 + k) == nth_bit(
            x / 2,
            k as nat,
        ) by {
            assert(pdu_bit(pdu, s + (k + 1)) == nth_bit(x, (k + 1) as nat));
            lemma_nth_bit_div2(x, k as nat);
        }
        lemma_le_bits_from_nth(pdu, s + 1, (w - 1) as nat, x / 2);
        lemma_pow2_pos((w - 1) as nat);
        lemma_breakdown(x as int, 2, pow2((w - 1) as nat) as int);
        assert(pow2(w) == 2 * pow2((w - 1) as nat)) by {
            lemma_pow2_adds(1, (w - 1) as nat);
            lemma2_to64();
        }
        assert(pdu_bit(pdu, s + 0) == nth_bit(x, 0));
        assert(nth_bit(x, 0) == (x % 2 == 1)) by {
            assert(pow2(0) == 1) by {
                lemma2_to64();
            }
        }
    }
}

/// A big-endian field whose walk bits agree with the bits of `x` (most
/// significant first) has the value `x % pow2(w)`.
pub proof fn lemma_be_bits_from_nth(pdu: Seq<u8>, p: int, w: nat, x: nat)
    requires
        forall|k: int| 0 <= k < w ==> #[trigger] pdu_bit(pdu, be_pos(p, k as nat)) == nth_bit(
            x,
            (w - 1 - k) as nat,
        ),
    ensures
        be_bits(pdu, p, w) == x % pow2(w),
    decreases w,
{
    if w == 0 {
        assert(pow2(0) == 1) by {
            lemma2_to64();
        }
    } else {
        assert forall|k: int| 0 <= k < w - 1 implies #[trigger] pdu_bit(pdu, be_pos(p, k as nat))
            == nth_bit(x / 2, (w - 2 - k) as nat) by {
            assert(pdu_bit(pdu, be_pos(p, k as nat)) == nth_bit(x, (w - 1 - k) as nat));
            lemma_nth_bit_div2(x, (w - 2 - k) as nat);
        }
        lemma_be_bits_from_nth(pdu, p, (w - 1) as nat, x / 2);
        lemma_pow2_pos((w - 1) as nat);
        lemma_breakdown(x as int, 2, pow2((w - 1) as nat) as int);
        assert(pow2(w) == 2 * pow2((w - 1) as nat)) by {
            lemma_pow2_adds(1, (w - 1) as nat);
            lemma2_to64();
        }
        assert(pdu_bit(pdu, be_pos(p, (w - 1) as nat)) == nth_bit(x, 0));
        assert(nth_bit(x, 0) == (x % 2 == 1)) by {
            assert(pow2(0) == 1) by {
                lemma2_to64();
            }
        }
    }
}

/// The byte whose bits 0 through 7 are the given booleans.
pub open spec fn u8_from_bits(
    b0: bool,
    b1: bool,
    b2: bool,
    b3: bool,
    b4: bool,
    b5: bool,
    b6: bool,
    b7: bool,
) -> u8 {
    (bit1(b0) + 2 * bit1(b1) + 4 * bit1(b2) + 8 * bit1(b3) + 16 * bit1(b4) + 32 * bit1(b5) + 64
        * bit1(b6) + 128 * bit1(b7)) as u8
}

/// Reading the bits of `u8_from_bits` gives the booleans back.
pub proof fn lemma_u8_from_bits(
    b0: bool,
    b1: bool,
    b2: bool,
    b3: bool,
    b4: bool,
    b5: bool,
    b6: bool,
    b7: bool,
)
    ensures
        nth_bit(u8_from_bits(b0, b1, b2, b3, b4, b5, b6, b7) as nat, 0) == b0,
        nth_bit(u8_from_bits(b0, b1, b2, b3, b4, b5, b6, b7) as nat, 1) == b1,
        nth_bit(u8_from_bits(b0, b1, b2, b3, b4, b5, b6, b7) as nat, 2) == b2,
        nth_bit(u8_from_bits(b0, b1, b2, b3, b4, b5, b6, b7) as nat, 3) == b3,
        nth_bit(u8_from_bits(b0, b1, b2, b3, b4, b5, b6, b7) as nat, 4) == b4,
        nth_bit(u8_from_bits(b0, b1, b2, b3, b4, b5, b6, b7) as nat, 5) == b5,
        nth_bit(u8_from_bits(b0, b1, b2, b3, b4, b5, b6, b7) as nat, 6) == b6,
        nth_bit(u8_from_bits(b0, b1, b2, b3, b4, b5, b6, b7) as nat, 7) == b7,
{
    let v = u8_from_bits(b0, b1, b2, b3, b4, b5, b6, b7) as nat;
    lemma2_to64();
    let r1 = (bit1(b1) + 2 * bit1(b2) + 4 * bit1(b3) + 8 * bit1(b4) + 16 * bit1(b5) + 32 * bit1(b6)
        + 64 * bit1(b7)) as nat;
    let r2 = (bit1(b2) + 2 * bit1(b3) + 4 * bit1(b4) + 8 * bit1(b5) + 16 * bit1(b6) + 32 * bit1(
        b7,
    )) as nat;
    let r3 = (bit1(b3) + 2 * bit1(b4) + 4 * bit1(b5) + 8 * bit1(b6) + 16 * bit1(b7)) as nat;
    let r4 = (bit1(b4) + 2 * bit1(b5) + 4 * bit1(b6) + 8 * bit1(b7)) as nat;
    let r5 = (bit1(b5) + 2 * bit1(b6) + 4 * bit1(b7)) as nat;
    let r6 = (bit1(b6) + 2 * bit1(b7)) as nat;
    let r7 = bit1(b7);
    assert(v == bit1(b0) + 2 * r1);
    assert(v / 2 == r1 && v % 2 == bit1(b0));
    assert(r1 / 2 == r2 && r1 % 2 == bit1(b1));
    assert(r2 / 2 == r3 && r2 % 2 == bit1(b2));
    assert(r3 / 2 == r4 && r3 % 2 == bit1(b3));
    assert(r4 / 2 == r5 && r4 % 2 == bit1(b4));
    assert(r5 / 2 == r6 && r5 % 2 == bit1(b5));
    assert(r6 / 2 == r7 && r6 % 2 == bit1(b6));
    assert(r7 / 2 == 0 && r7 % 2 == bit1(b7));
    lemma_nth_bit_div2(v, 0);
    lemma_nth_bit_div2(r1, 0);
    lemma_nth_bit_div2(r2, 0);
    lemma_nth_bit_div2(r3, 0);
    lemma_nth_bit_div2(r4, 0);
    lemma_nth_bit_div2(r5, 0);
    lemma_nth_bit_div2(r6, 0);
    assert(nth_bit(v, 1) == nth_bit(r1, 0));
    assert(nth_bit(v, 2) == nth_bit(r1, 1)) by {
        lemma_nth_bit_div2(v, 1);
    }
    assert(nth_bit(r1, 1) == nth_bit(r2, 0));
    assert(nth_bit(v, 3) == nth_bit(r2, 1)) by {
        lemma_nth_bit_div2(v, 2);
        lemma_nth_bit_div2(r1, 1);
    }
    assert(nth_bit(v, 4) == nth_bit(r3, 1)) by {
        lemma_nth_bit_div2(v, 3);
        lemma_nth_bit_div2(r1, 2);
        lemma_nth_bit_div2(r2, 1);
    }
    assert(nth_bit(v, 5) == nth_bit(r4, 1)) by {
        lemma_nth_bit_div2(v, 4);
        lemma_nth_bit_div2(r1, 3);
        lemma_nth_bit_div2(r2, 2);
        lemma_nth_bit_div2(r3, 1);
    }
    assert(nth_bit(v, 6) == nth_bit(r5, 1)) by {
        lemma_nth_bit_div2(v, 5);
        lemma_nth_bit_div2(r1, 4);
        lemma_nth_bit_div2(r2, 3);
        lemma_nth_bit_div2(r3, 2);
        lemma_nth_bit_div2(r4, 1);
    }
    assert(nth_bit(v, 7) == nth_bit(r6, 1)) by {
        lemma_nth_bit_div2(v, 6);
        lemma_nth_bit_div2(r1, 5);
        lemma_nth_bit_div2(r2, 4);
        lemma_nth_bit_div2(r3, 3);
        lemma_nth_bit_div2(r4, 2);
        lemma_nth_bit_div2(r5, 1);
    }
    assert(nth_bit(bit1(b0), 0) == b0);
    assert(nth_bit(r1, 0) == b1);
    assert(nth_bit(r2, 0) == b2);
    assert(nth_bit(r3, 0) == b3);
    assert(nth_bit(r4, 0) == b4);
    assert(nth_bit(r5, 0) == b5);
    assert(nth_bit(r6, 0) == b6);
    assert(nth_bit(r7, 0) == b7);
}

/// Two naturals below `pow2(n)` with the same `n` low bits are equal.
pub proof fn lemma_nat_bits_eq(x: nat, y: nat, n: nat)
    requires
        x < pow2(n),
        y < pow2(n),
        forall|k: nat| k < n ==> #[trigger] nth_bit(x, k) == nth_bit(y, k),
    ensures
        x == y,
    decreases n,
{
    if n == 0 {
        assert(pow2(0) == 1) by {
            lemma2_to64();
        }
    } else {
        assert(nth_bit(x, 0) == nth_bit(y, 0));
        assert(pow2(0) == 1) by {
            lemma2_to64();
        }
        assert((x % 2 == 1) == (y % 2 == 1));
        assert forall|k: nat| k < n - 1 implies #[trigger] nth_bit(x / 2, k) == nth_bit(
            y / 2,
            k,
        ) by {
            lemma_nth_bit_div2(x, k);
            lemma_nth_bit_div2(y, k);
            assert(nth_bit(x, (k + 1) as nat) == nth_bit(y, (k + 1) as nat));
        }
        assert(x / 2 < pow2((n - 1) as nat) && y / 2 < pow2((n - 1) as nat)) by {
            lemma_pow2_unfold(n);
        }
        lemma_nat_bits_eq(x / 2, y / 2, (n - 1) as nat);
    }
}

/// Two bytes with the same eight bits are equal.
pub proof fn lemma_u8_bits_eq(a: u8, b: u8)
    requires
        forall|k: nat| k < 8 ==> #[trigger] nth_bit(a as nat, k) == nth_bit(b as nat, k),
    ensures
        a == b,
{
    lemma2_to64();
    lemma_nat_bits_eq(a as nat, b as nat, 8);
}

} // verus!
