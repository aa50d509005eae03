//! Signal descriptors: the per-signal record of a DBC schema that the codec
//! is driven by, and the mapping from a signal's bit width to the native
//! types that store and expose its value.

use vstd::prelude::*;

use crate::bits::{be_pos, bit1, le_bits, be_bits, nth_bit, pdu_bit, u8_from_bits};
use vstd::arithmetic::power2::pow2;

verus! {

/// Byte order of a signal inside the payload.
#[derive(Clone, Copy, PartialEq, Eq, Structural, Debug)]
pub enum ByteOrder {
    /// Intel order: the start bit is the signal's least significant bit and
    /// the signal occupies consecutive flat bits upward.
    LittleEndian,
    /// Motorola order: the start bit is the signal's most significant bit and
    /// the signal walks downward within a byte, continuing at bit 7 of the
    /// following byte.
    BigEndian,
}

/// The narrowest native integer (or `bool`) that holds a signal's raw bits.
#[derive(Clone, Copy, PartialEq, Eq, Structural, Debug)]
pub enum StorageType {
    Bool,
    U8,
    I8,
    U16,
    I16,
    U32,
    I32,
    U64,
    I64,
}

/// The outward-facing type of a signal's decoded value: its storage type, or
/// a single-precision float when the signal carries a scale factor.
#[derive(Clone, Copy, PartialEq, Eq, Structural, Debug)]
pub enum PublicType {
    Bool,
    U8,
    I8,
    U16,
    I16,
    U32,
    I32,
    U64,
    I64,
    F32,
}

/// Storage width in bits for a signal of the given bit width: single-bit
/// signals are booleans, wider signals use the narrowest of 8/16/32/64.
pub open spec fn spec_storage_width(width: u64) -> u64 {
    if width == 1 {
        1
    } else if width <= 8 {
        8
    } else if width <= 16 {
        16
    } else if width <= 32 {
        32
    } else {
        64
    }
}

/// Narrowest native integer width (or 1, for `bool`) that holds the raw bits
/// of a signal `width` bits wide.
pub fn storage_width(width: u64) -> (r: u64)
    ensures
        r == spec_storage_width(width),
{
    if width == 1 {
        1
    } else if width <= 8 {
        8
    } else if width <= 16 {
        16
    } else if width <= 32 {
        32
    } else {
        64
    }
}

/// One signal of a message: a named bit field with a position, width, byte
/// order and sign, plus whether its public value carries an affine
/// scale/offset transform (and is therefore exposed as a float).
pub struct SignalSchema {
    /// Signal name as written in the schema.
    pub name: String,
    /// DBC start bit: the signal's least significant bit (little-endian) or
    /// most significant bit (big-endian).
    pub start_bit: u64,
    /// Width in bits, 1 to 64.
    pub width: u64,
    /// Byte order of the signal's bits.
    pub byte_order: ByteOrder,
    /// Whether the raw value is a two's-complement signed integer.
    pub signed: bool,
    /// Whether the signal's scale factor differs from one, so that its public
    /// value is the raw value pushed through `raw * factor + offset`.
    pub scaled: bool,
}

impl SignalSchema {
    /// Structural bounds that every signal descriptor satisfies.
    pub open spec fn wf(self) -> bool {
        &&& 1 <= self.width <= 64
        &&& self.start_bit < 512
    }

    /// Number of payload bytes the big-endian walk needs beyond the first
    /// byte.
    pub open spec fn be_extra_bytes(self) -> int {
        let left = self.start_bit as int % 8;
        if self.width <= left + 1 {
            0
        } else {
            (self.width - left - 1 + 7) / 8
        }
    }

    /// Index of the last payload byte the signal touches.
    pub open spec fn last_byte(self) -> int {
        match self.byte_order {
            ByteOrder::LittleEndian => (self.start_bit + self.width - 1) as int / 8,
            ByteOrder::BigEndian => self.start_bit as int / 8 + self.be_extra_bytes(),
        }
    }

    /// The signal's bits all lie inside a payload of `dlc` bytes.
    pub open spec fn fits(self, dlc: int) -> bool {
        self.last_byte() < dlc
    }

    /// Flat payload position of bit `k` of the raw value (k = 0 is the least
    /// significant bit of the raw value).
    pub open spec fn raw_bit_pos(self, k: int) -> int {
        match self.byte_order {
            ByteOrder::LittleEndian => self.start_bit + k,
            ByteOrder::BigEndian => be_pos(self.start_bit as int, (self.width - 1 - k) as nat),
        }
    }


    /// Number of bits the extractor actually reads.  Big-endian signals and
    /// little-endian signals that touch more than one byte are read exactly.
    /// A little-endian signal confined to a single byte takes a special
    /// path: with a byte-aligned start the whole byte is taken unmasked, and
    /// with start offset `left != 0` the mask is derived from `left` rather
    /// than from the width, so `min(left, 8 - left)` bits are taken.  That
    /// path is faithful to the width only when the two coincide (see
    /// `reads_exact_width`).
    pub open spec fn extracted_width(self) -> nat {
        let left = self.start_bit as int % 8;
        match self.byte_order {
            ByteOrder::BigEndian => self.width as nat,
            ByteOrder::LittleEndian => {
                if self.start_bit as int / 8 != (self.start_bit + self.width - 1) as int / 8 {
                    self.width as nat
                } else if left == 0 {
                    8
                } else if left <= 8 - left {
                    left as nat
                } else {
                    (8 - left) as nat
                }
            },
        }
    }

    /// Whether extraction reads exactly the signal's `width` bits, so that
    /// decode inverts encode.  This excludes only little-endian signals that
    /// are confined to a single byte and whose width differs from their
    /// start offset within that byte.
    pub open spec fn reads_exact_width(self) -> bool {
        self.extracted_width() == self.width as nat
    }

    /// The value the extractor returns: the `extracted_width` payload bits
    /// read from the signal's start position in the signal's byte order.
    pub open spec fn extract_spec(self, pdu: Seq<u8>) -> nat {
        match self.byte_order {
            ByteOrder::LittleEndian => le_bits(pdu, self.start_bit as int, self.extracted_width()),
            ByteOrder::BigEndian => be_bits(pdu, self.start_bit as int, self.width as nat),
        }
    }

    /// Whether an encoder exists for the signal.  Single-bit signals and
    /// little-endian signals always encode; big-endian signals encode only
    /// when byte-aligned (start bit 7 of a byte, width a full storage width).
    /// Unaligned big-endian encoding is left unimplemented by design.
    pub open spec fn encode_supported(self) -> bool {
        ||| self.width == 1
        ||| self.byte_order == ByteOrder::LittleEndian
        ||| (self.byte_order == ByteOrder::BigEndian && self.start_bit % 8 == 7 && self.width
            == spec_storage_width(self.width))
    }

    /// Whether flat payload bit `i` belongs to the signal.
    pub open spec fn covers(self, i: int) -> bool {
        exists|k: int| 0 <= k < self.width && #[trigger] self.raw_bit_pos(k) == i
    }

    /// How encoding `raw` rewrites a payload: every bit of the signal's range
    /// becomes the matching bit of `raw`, and every bit outside the range is
    /// preserved.
    pub open spec fn insert_effect(self, old_pdu: Seq<u8>, new_pdu: Seq<u8>, raw: u64) -> bool {
        &&& new_pdu.len() == old_pdu.len()
        &&& forall|k: int|
            0 <= k < self.width ==> pdu_bit(new_pdu, #[trigger] self.raw_bit_pos(k)) == nth_bit(
                raw as nat,
                k as nat,
            )
        &&& forall|i: int|
            0 <= i < 8 * old_pdu.len() && !self.covers(i) ==> #[trigger] pdu_bit(new_pdu, i)
                == pdu_bit(old_pdu, i)
    }

    /// Storage type per the type mapper: `bool` for single bits, otherwise
    /// the narrowest wide-enough integer with the signal's sign.
    pub open spec fn spec_storage_type(self) -> StorageType {
        if self.width == 1 {
            StorageType::Bool
        } else if self.width <= 8 {
            if self.signed {
                StorageType::I8
            } else {
                StorageType::U8
            }
        } else if self.width <= 16 {
            if self.signed {
                StorageType::I16
            } else {
                StorageType::U16
            }
        } else if self.width <= 32 {
            if self.signed {
                StorageType::I32
            } else {
                StorageType::U32
            }
        } else {
            if self.signed {
                StorageType::I64
            } else {
                StorageType::U64
            }
        }
    }

    /// Public type per the type mapper: the storage type, except that scaled
    /// multi-bit signals are exposed as single-precision floats.
    pub open spec fn spec_public_type(self) -> PublicType {
        if self.width == 1 {
            PublicType::Bool
        } else if self.scaled {
            PublicType::F32
        } else {
            match self.spec_storage_type() {
                StorageType::Bool => PublicType::Bool,
                StorageType::U8 => PublicType::U8,
                StorageType::I8 => PublicType::I8,
                StorageType::U16 => PublicType::U16,
                StorageType::I16 => PublicType::I16,
                StorageType::U32 => PublicType::U32,
                StorageType::I32 => PublicType::I32,
                StorageType::U64 => PublicType::U64,
                StorageType::I64 => PublicType::I64,
            }
        }
    }

    /// Create a signal descriptor.
    pub fn new(
        name: String,
        start_bit: u64,
        width: u64,
        byte_order: ByteOrder,
        signed: bool,
        scaled: bool,
    ) -> (r: Self)
        requires
            1 <= width <= 64,
            start_bit < 512,
        ensures
            r == (SignalSchema { name, start_bit, width, byte_order, signed, scaled }),
            r.wf(),
    {
        SignalSchema { name, start_bit, width, byte_order, signed, scaled }
    }

    /// Whether the signal's bits all lie inside a payload of `dlc` bytes:
    /// the executable form of `fits`, the schema-consistency check a
    /// generator performs before it accepts a signal.
    pub fn fits_in(&self, dlc: u64) -> (r: bool)
        requires
            self.wf(),
        ensures
            r == self.fits(dlc as int),
    {
        match self.byte_order {
            ByteOrder::LittleEndian => (self.start_bit + self.width - 1) / 8 < dlc,
            ByteOrder::BigEndian => {
                let left = self.start_bit % 8;
                let extra: u64 = if self.width <= left + 1 {
                    0
                } else {
                    (self.width - left - 1 + 7) / 8
                };
                self.start_bit / 8 + extra < dlc
            },
        }
    }

    /// Storage type of the signal's raw bits.
    pub fn storage_type(&self) -> (r: StorageType)
        ensures
            r == self.spec_storage_type(),
    {
        if self.width == 1 {
            StorageType::Bool
        } else if self.width <= 8 {
            if self.signed {
                StorageType::I8
            } else {
                StorageType::U8
            }
        } else if self.width <= 16 {
            if self.signed {
                StorageType::I16
            } else {
                StorageType::U16
            }
        } else if self.width <= 32 {
            if self.signed {
                StorageType::I32
            } else {
                StorageType::U32
            }
        } else {
            if self.signed {
                StorageType::I64
            } else {
                StorageType::U64
            }
        }
    }

    /// Public type of the signal's decoded value.
    pub fn public_type(&self) -> (r: PublicType)
        ensures
            r == self.spec_public_type(),
    {
        if self.width == 1 {
            PublicType::Bool
        } else if self.scaled {
            PublicType::F32
        } else {
            match self.storage_type() {
                StorageType::Bool => PublicType::Bool,
                StorageType::U8 => PublicType::U8,
                StorageType::I8 => PublicType::I8,
                StorageType::U16 => PublicType::U16,
                StorageType::I16 => PublicType::I16,
                StorageType::U32 => PublicType::U32,
                StorageType::I32 => PublicType::I32,
                StorageType::U64 => PublicType::U64,
                StorageType::I64 => PublicType::I64,
            }
        }
    }

    /// Payload bit `i` after the signal is encoded with raw value `raw`: the
    /// matching raw bit inside the signal's range, the old payload bit
    /// outside it.
    pub open spec fn inserted_bit(self, pdu: Seq<u8>, raw: u64, i: int) -> bool {
        if self.covers(i) {
            let k = choose|k: int| 0 <= k < self.width && #[trigger] self.raw_bit_pos(k) == i;
            nth_bit(raw as nat, k as nat)
        } else {
            pdu_bit(pdu, i)
        }
    }

    /// The payload that encoding `raw` produces: each byte rebuilt from
    /// `inserted_bit`.
    pub open spec fn spec_insert(self, pdu: Seq<u8>, raw: u64) -> Seq<u8> {
        Seq::new(
            pdu.len(),
            |b: int|
                u8_from_bits(
                    self.inserted_bit(pdu, raw, 8 * b),
                    self.inserted_bit(pdu, raw, 8 * b + 1),
                    self.inserted_bit(pdu, raw, 8 * b + 2),
                    self.inserted_bit(pdu, raw, 8 * b + 3),
                    self.inserted_bit(pdu, raw, 8 * b + 4),
                    self.inserted_bit(pdu, raw, 8 * b + 5),
                    self.inserted_bit(pdu, raw, 8 * b + 6),
                    self.inserted_bit(pdu, raw, 8 * b + 7),
                ),
        )
    }

    /// Whether a 64-bit storage pattern is a value the signal can carry:
    /// single-bit signals carry 0 or 1; unsigned signals carry their width's
    /// range; signed signals carry patterns that are their own low bits
    /// sign-extended.
    pub open spec fn representable(self, raw: u64) -> bool {
        if self.width == 1 {
            raw < 2
        } else if self.width == 64 {
            true
        } else if self.signed {
            raw as nat == sign_extend_spec((raw as nat) % pow2(self.width as nat), self.width as nat)
        } else {
            (raw as nat) < pow2(self.width as nat)
        }
    }

    /// Storage-level decode of the signal from a payload, as a 64-bit
    /// pattern: a single-bit signal yields 0 or 1; a signed signal's bits are
    /// sign-extended, so the pattern is the two's-complement storage value
    /// widened to 64 bits; otherwise the extracted bits stand as they are.
    pub open spec fn decode_spec(self, pdu: Seq<u8>) -> nat {
        if self.width == 1 {
            bit1(pdu_bit(pdu, self.start_bit as int))
        } else if self.signed && self.width < 64 {
            sign_extend_spec(self.extract_spec(pdu), self.width as nat)
        } else {
            self.extract_spec(pdu)
        }
    }
}

/// Sign extension of a `width`-bit value into 64 bits: when the sign bit
/// (bit `width - 1`) is set, all bits from `width` up are forced to one;
/// otherwise the value is unchanged.
pub open spec fn sign_extend_spec(raw: nat, width: nat) -> nat {
    if width >= 64 {
        raw
    } else if 1 <= width && nth_bit(raw, (width - 1) as nat) {
        (raw % pow2(width) + pow2(64) - pow2(width)) as nat
    } else {
        raw
    }
}

} // verus!
