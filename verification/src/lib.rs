//! A dictionary-substitution text codec.
//!
//! Text is encoded by replacing whole words with single-byte codes drawn
//! from a fixed vocabulary; punctuation, capitalization and unknown words
//! are handled by reserved control codes. The stream begins with a 6-byte
//! header: the literal tag `TPC` followed by a version triple.
//!
//! Text is handled as UTF-8 bytes. Capitalization is recognized and
//! restored for ASCII letters only, and escape regions carry single
//! ASCII characters: round trips are guaranteed over the ASCII range,
//! not for arbitrary Unicode.

use vstd::prelude::*;

pub mod compress;
pub mod decompress;
pub mod roundtrip;
pub mod table;

verus! {

/// First byte of the stream tag, `b'T'`.
pub const TAG_0: u8 = 0x54;

/// Second byte of the stream tag, `b'P'`.
pub const TAG_1: u8 = 0x50;

/// Third byte of the stream tag, `b'C'`.
pub const TAG_2: u8 = 0x43;

/// Major version emitted in the header.
pub const VERSION_MAJOR: u8 = 0;

/// Minor version emitted in the header.
pub const VERSION_MINOR: u8 = 1;

/// Patch version emitted in the header.
pub const VERSION_PATCH: u8 = 0;

/// The 6-byte prologue every compressed stream starts with.
pub open spec fn spec_header() -> Seq<u8> {
    seq![TAG_0, TAG_1, TAG_2, VERSION_MAJOR, VERSION_MINOR, VERSION_PATCH]
}

} // verus!
