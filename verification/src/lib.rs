//! In-memory lossless compression codecs: a sliding-window codec and two
//! incremental-dictionary codecs (a plain and a terminated variant).
//!
//! Each codec turns a byte sequence into a token sequence and back; the
//! encoders are verified to produce token sequences that decode to exactly
//! the input, and the decoders are verified against the same decoding
//! relation, so the round trip is byte-for-byte exact.
use vstd::prelude::*;

pub mod lz77;
pub mod lz78;
pub mod lz78_plain;

verus! {

/// Reported by the decoders when a token sequence refers outside the data
/// decoded so far: a back-reference whose distance is zero or exceeds the
/// output produced so far, or a dictionary entry whose parent index does not
/// refer to a strictly earlier entry.
#[derive(PartialEq, Eq, Debug, Clone, Copy)]
pub enum DecodeError {
    InvalidBackReference,
    InvalidDictionaryIndex,
}

} // verus!

