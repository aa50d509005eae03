//! Bit-exact decode and encode of CAN signals between fixed-length byte
//! payloads and scalar storage values, driven by DBC-style signal
//! descriptors (start bit, width, byte order, sign, scale).
//!
//! The heart of the library is the signal codec: `extract` reads a signal's
//! bits out of a payload and `insert` writes them back, for arbitrary
//! alignment in both byte orders and widths from 1 to 64 bits, each proved
//! against the bit-level payload model of `bits`.  `message` wraps the codec
//! into per-message value objects with a length-checked `decode`/`encode`,
//! `signal` carries the descriptors and the type mapper, `filter` the signal
//! selection lists, and `laws` the library-level round-trip, isolation,
//! aligned-fast-path and sign-extension theorems.

pub mod bits;
pub mod codec;
pub mod extract;
pub mod filter;
pub mod insert;
pub mod laws;
pub mod message;
pub mod signal;
