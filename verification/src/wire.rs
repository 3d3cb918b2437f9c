//! Byte-level vocabulary of the wire format: the five tag bytes, the CR-LF
//! line terminator, and the predicate a line's content must satisfy for the
//! scanner to find the terminator where the encoder put it.

use vstd::prelude::*;

verus! {

pub const CR: u8 = 13;

pub const LF: u8 = 10;

/// Tag byte `+`, opening a simple string.
pub const TAG_SIMPLE: u8 = 43;

/// Tag byte `-`, opening an error line.
pub const TAG_ERROR: u8 = 45;

/// Tag byte `:`, opening an integer line.
pub const TAG_INTEGER: u8 = 58;

/// Tag byte `$`, opening a bulk string.
pub const TAG_BULK: u8 = 36;

/// Tag byte `*`, opening an array.
pub const TAG_ARRAY: u8 = 42;

/// The two-byte line terminator.
pub open spec fn crlf() -> Seq<u8> {
    seq![CR, LF]
}

/// Holds when no CR byte is immediately followed by an LF byte, so that a
/// scan for the terminator cannot stop inside `b`.
pub open spec fn crlf_free(b: Seq<u8>) -> bool {
    forall|i: int| 0 <= i && i + 1 < b.len() ==> !(#[trigger] b[i] == CR && b[i + 1] == LF)
}

} // verus!
