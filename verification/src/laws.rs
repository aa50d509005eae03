//! Library-level laws of the codec: round trip, buffer isolation, the
//! aligned fast path, and sign extension, stated over the specification
//! functions that the executable codec is proved against.

use vstd::prelude::*;

use vstd::arithmetic::div_mod::{
    lemma_fundamental_div_mod,
    lemma_fundamental_div_mod_converse_div,
    lemma_fundamental_div_mod_converse_mod,
    lemma_small_mod,
};
use vstd::arithmetic::power2::{
    lemma2_to64,
    lemma2_to64_rest,
    lemma_pow2_adds,
    lemma_pow2_pos,
    lemma_pow2_strictly_increases,
    pow2,
};

use crate::bits::{
    be_bits,
    be_pos,
    bit1,
    byte_field,
    le_bits,
    lemma_be_bits_byte,
    lemma_be_bits_from_nth,
    lemma_be_bits_split,
    lemma_be_pos_aligned,
    lemma_le_bits_byte,
    lemma_le_bits_from_nth,
    lemma_le_bits_split,
    nth_bit,
    pdu_bit,
};
use crate::extract::lemma_byte_full;
use crate::insert::lemma_spec_insert_bit;
use crate::signal::{sign_extend_spec, spec_storage_width, ByteOrder, SignalSchema};

verus! {

/// Value of `m` consecutive payload bytes starting at byte `k`, read as a
/// little-endian native integer.
pub open spec fn le_bytes_val(pdu: Seq<u8>, k: int, m: nat) -> nat
    decreases m,
{
    if m == 0 {
        0
    } else {
        (pdu[k] + 256 * le_bytes_val(pdu, k + 1, (m - 1) as nat)) as nat
    }
}

/// Value of `m` consecutive payload bytes starting at byte `k`, read as a
/// big-endian native integer.
pub open spec fn be_bytes_val(pdu: Seq<u8>, k: int, m: nat) -> nat
    decreases m,
{
    if m == 0 {
        0
    } else {
        (be_bytes_val(pdu, k, (m - 1) as nat) * 256 + pdu[k + (m - 1)]) as nat
    }
}

/// From an aligned start, two different step counts of the big-endian walk
/// reach two different positions.
proof fn lemma_be_pos_aligned_injective(p: int, m1: nat, m2: nat)
    requires
        p % 8 == 7,
        be_pos(p, m1) == be_pos(p, m2),
    ensures
        m1 == m2,
{
    lemma_be_pos_aligned(p, m1);
    lemma_be_pos_aligned(p, m2);
    lemma_fundamental_div_mod(m1 as int, 8);
    lemma_fundamental_div_mod(m2 as int, 8);
}

/// After inserting `raw`, extracting the signal (when its extraction is
/// width-exact) reads back exactly the low `width` bits of `raw`.
pub proof fn lemma_insert_then_extract(sig: SignalSchema, pdu: Seq<u8>, raw: u64)
    requires
        sig.wf(),
        sig.fits(pdu.len() as int),
        sig.encode_supported(),
        sig.reads_exact_width(),
    ensures
        sig.extract_spec(sig.spec_insert(pdu, raw)) == (raw as nat) % pow2(sig.width as nat),
{
    let q = sig.spec_insert(pdu, raw);
    let start = sig.start_bit as int;
    let w = sig.width as nat;
    assert(q.len() == pdu.len());
    match sig.byte_order {
        ByteOrder::LittleEndian => {
            assert forall|k: int| 0 <= k < w implies #[trigger] pdu_bit(q, start + k) == nth_bit(
                raw as nat,
                k as nat,
            ) by {
                assert(sig.raw_bit_pos(k) == start + k);
                assert(0 <= start + k < 8 * pdu.len()) by {
                    lemma_fundamental_div_mod(start, 8);
                    lemma_fundamental_div_mod(start + sig.width - 1, 8);
                }
                lemma_spec_insert_bit(sig, pdu, raw, start + k);
                assert(sig.covers(start + k));
                let kc = choose|kc: int|
                    0 <= kc < sig.width && #[trigger] sig.raw_bit_pos(kc) == start + k;
                assert(kc == k);
            }
            lemma_le_bits_from_nth(q, start, w, raw as nat);
        },
        ByteOrder::BigEndian => {
            // a supported big-endian signal is byte-aligned (or a single bit)
            assert(start % 8 == 7 || sig.width == 1);
            assert forall|k: int| 0 <= k < w implies #[trigger] pdu_bit(q, be_pos(start, k as nat))
                == nth_bit(raw as nat, (w - 1 - k) as nat) by {
                let i = be_pos(start, k as nat);
                assert(sig.raw_bit_pos(w - 1 - k) == i);
                assert(0 <= i < 8 * pdu.len()) by {
                    if sig.width == 1 {
                        lemma_fundamental_div_mod(start, 8);
                    } else {
                        lemma_be_pos_aligned(start, k as nat);
                        lemma_fundamental_div_mod(k, 8);
                        lemma_fundamental_div_mod(start, 8);
                        lemma_fundamental_div_mod(sig.width - 1, 8);
                        assert(k / 8 <= (sig.width - 1) / 8) by {
                            vstd::arithmetic::div_mod::lemma_div_is_ordered(
                                k,
                                sig.width - 1,
                                8,
                            );
                        }
                        assert(sig.be_extra_bytes() == (sig.width - 8 + 7) / 8);
                        assert((sig.width - 1) / 8 == sig.be_extra_bytes());
                    }
                }
                lemma_spec_insert_bit(sig, pdu, raw, i);
                assert(sig.covers(i));
                let kc = choose|kc: int| 0 <= kc < sig.width && #[trigger] sig.raw_bit_pos(kc) == i;
                if sig.width == 1 {
                    assert(kc == 0 && k == 0);
                } else {
                    lemma_be_pos_aligned_injective(start, (w - 1 - kc) as nat, k as nat);
                }
            }
            lemma_be_bits_from_nth(q, start, w, raw as nat);
        },
    }
}

/// Round-trip law: encoding a representable storage value into any payload
/// and decoding the signal from the result yields the value back.  The law
/// covers every signal an encoder exists for whose extraction is width-exact:
/// single-bit signals, little-endian signals not confined to one byte (or
/// confined with width equal to the start offset), and byte-aligned
/// big-endian signals.
pub proof fn lemma_encode_decode_round_trip(sig: SignalSchema, pdu: Seq<u8>, raw: u64)
    requires
        sig.wf(),
        sig.fits(pdu.len() as int),
        sig.encode_supported(),
        sig.width == 1 || sig.reads_exact_width(),
        sig.representable(raw),
    ensures
        sig.decode_spec(sig.spec_insert(pdu, raw)) == raw as nat,
{
    let q = sig.spec_insert(pdu, raw);
    let start = sig.start_bit as int;
    let w = sig.width as nat;
    lemma2_to64();
    if sig.width == 1 {
        assert(sig.raw_bit_pos(0) == start);
        assert(0 <= start < 8 * pdu.len()) by {
            lemma_fundamental_div_mod(start, 8);
        }
        lemma_spec_insert_bit(sig, pdu, raw, start);
        assert(sig.covers(start));
        let kc = choose|kc: int| 0 <= kc < sig.width && #[trigger] sig.raw_bit_pos(kc) == start;
        assert(kc == 0);
        assert(pdu_bit(q, start) == nth_bit(raw as nat, 0));
        assert((raw as nat) / pow2(0) == raw as nat) by {
            vstd::arithmetic::div_mod::lemma_div_basics(raw as int);
        }
        assert(nth_bit(raw as nat, 0) == ((raw as nat) % 2 == 1));
        assert(bit1(pdu_bit(q, start)) == raw as nat);
    } else {
        lemma_insert_then_extract(sig, pdu, raw);
        lemma_pow2_pos(w);
        if sig.width == 64 {
            lemma2_to64_rest();
            lemma_small_mod(raw as nat, pow2(64));
        } else if sig.signed {
            // representable: the pattern is its own low bits sign-extended
        } else {
            lemma_small_mod(raw as nat, pow2(w));
        }
    }
}

/// Buffer-isolation law: encoding a signal leaves every payload bit outside
/// the signal's own bit range exactly as it was.
pub proof fn lemma_encode_preserves_other_bits(sig: SignalSchema, pdu: Seq<u8>, raw: u64, i: int)
    requires
        0 <= i < 8 * pdu.len(),
        !sig.covers(i),
    ensures
        pdu_bit(sig.spec_insert(pdu, raw), i) == pdu_bit(pdu, i),
{
    lemma_spec_insert_bit(sig, pdu, raw, i);
}

/// A little-endian run of whole bytes reads as the little-endian native
/// integer of those bytes.
proof fn lemma_le_bits_bytes(pdu: Seq<u8>, k: int, m: nat)
    ensures
        le_bits(pdu, 8 * k, 8 * m) == le_bytes_val(pdu, k, m),
    decreases m,
{
    if m == 0 {
    } else {
        lemma_le_bits_split(pdu, 8 * k, 8, (8 * (m - 1)) as nat);
        lemma_le_bits_byte(pdu, k, 0, 8);
        lemma_byte_full(pdu[k]);
        lemma_le_bits_bytes(pdu, k + 1, (m - 1) as nat);
        lemma2_to64();
    }
}

/// A big-endian aligned run of whole bytes reads as the big-endian native
/// integer of those bytes.
proof fn lemma_be_bits_bytes(pdu: Seq<u8>, p: int, m: nat)
    requires
        p % 8 == 7,
    ensures
        be_bits(pdu, p, 8 * m) == be_bytes_val(pdu, p / 8, m),
    decreases m,
{
    if m == 0 {
    } else {
        lemma_be_bits_split(pdu, p, (8 * (m - 1)) as nat, 8);
        lemma_be_bits_bytes(pdu, p, (m - 1) as nat);
        lemma_be_pos_aligned(p, (8 * (m - 1)) as nat);
        lemma_fundamental_div_mod_converse_div(8 * (m - 1), 8, m - 1, 0);
        lemma_fundamental_div_mod_converse_mod(8 * (m - 1), 8, m - 1, 0);
        let p2 = p + 8 * (m - 1);
        lemma_fundamental_div_mod(p, 8);
        lemma_fundamental_div_mod_converse_mod(p2, 8, p / 8 + (m - 1), 7);
        lemma_fundamental_div_mod_converse_div(p2, 8, p / 8 + (m - 1), 7);
        lemma_be_bits_byte(pdu, p / 8 + (m - 1), 7, 8);
        lemma_byte_full(pdu[p / 8 + (m - 1)]);
        lemma2_to64();
    }
}

/// Aligned fast-path law: the extracted value of an aligned signal (start on
/// a byte boundary, width a full storage width) equals reading its
/// `width / 8` payload bytes as a native integer in the signal's byte order.
pub proof fn lemma_aligned_extract_is_native_read(sig: SignalSchema, pdu: Seq<u8>)
    requires
        sig.wf(),
        sig.width >= 8,
        sig.width == spec_storage_width(sig.width),
        sig.byte_order == ByteOrder::LittleEndian ==> sig.start_bit % 8 == 0,
        sig.byte_order == ByteOrder::BigEndian ==> sig.start_bit % 8 == 7,
    ensures
        sig.byte_order == ByteOrder::LittleEndian ==> sig.extract_spec(pdu) == le_bytes_val(
            pdu,
            sig.start_bit as int / 8,
            (sig.width as int / 8) as nat,
        ),
        sig.byte_order == ByteOrder::BigEndian ==> sig.extract_spec(pdu) == be_bytes_val(
            pdu,
            sig.start_bit as int / 8,
            (sig.width as int / 8) as nat,
        ),
{
    let start = sig.start_bit as int;
    let w = sig.width as int;
    let m = (w / 8) as nat;
    lemma_fundamental_div_mod(start, 8);
    lemma_fundamental_div_mod(w, 8);
    match sig.byte_order {
        ByteOrder::LittleEndian => {
            lemma_le_bits_bytes(pdu, start / 8, m);
            assert(sig.extracted_width() == sig.width as nat) by {
                if sig.width > 8 {
                    lemma_fundamental_div_mod_converse_div(
                        start + w - 1,
                        8,
                        start / 8 + w / 8 - 1,
                        7,
                    );
                }
            }
        },
        ByteOrder::BigEndian => {
            lemma_be_bits_bytes(pdu, start, m);
        },
    }
}

/// Sign-extension law: when the sign bit (bit `w - 1`) of the raw bits is
/// set, every bit from `w` through 63 of the sign-extended pattern is one.
pub proof fn lemma_sign_extension_sets_high_bits(raw: nat, w: nat, k: nat)
    requires
        1 <= w < 64,
        nth_bit(raw, (w - 1) as nat),
        w <= k < 64,
    ensures
        nth_bit(sign_extend_spec(raw, w), k),
{
    let x = raw % pow2(w);
    let v = sign_extend_spec(raw, w);
    lemma_pow2_pos(w);
    lemma_pow2_pos(k);
    lemma_pow2_pos((64 - k) as nat);
    lemma_pow2_pos((63 - k) as nat);
    lemma_pow2_strictly_increases(w, 64);
    vstd::arithmetic::div_mod::lemma_mod_division_less_than_divisor(raw as int, pow2(w) as int);
    assert(v == x + pow2(64) - pow2(w));
    // v splits as pow2(k) * (pow2(64 - k) - 1) plus a remainder below pow2(k)
    let q = pow2((64 - k) as nat) - 1;
    let r = pow2(k) - pow2(w) + x;
    assert(pow2(k) * pow2((64 - k) as nat) == pow2(64)) by {
        lemma_pow2_adds(k, (64 - k) as nat);
    }
    assert(pow2(w) <= pow2(k)) by {
        if w < k {
            lemma_pow2_strictly_increases(w, k);
        }
    }
    assert(q * pow2(k) == pow2(64) - pow2(k)) by (nonlinear_arith)
        requires
            pow2(k) * pow2((64 - k) as nat) == pow2(64),
            q == pow2((64 - k) as nat) - 1,
    ;
    assert(v == q * pow2(k) + r);
    lemma_fundamental_div_mod_converse_div(v as int, pow2(k) as int, q, r);
    assert(v as int / pow2(k) as int == q);
    // q is odd: pow2(64 - k) is even since k < 64
    assert(pow2((64 - k) as nat) == 2 * pow2((63 - k) as nat)) by {
        lemma_pow2_adds(1, (63 - k) as nat);
        lemma2_to64();
    }
    assert(q % 2 == 1);
}

} // verus!
