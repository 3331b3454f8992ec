//! Payload carriers, one per message variant.

use vstd::prelude::*;

verus! {

/// An opaque byte sequence; its length is implied by the frame.
#[derive(Debug, PartialEq, Clone)]
pub struct Bytes {
    /// The payload bytes, transmitted verbatim (after stuffing).
    pub data: Vec<u8>,
}

/// A single unsigned byte.
#[derive(Debug, PartialEq, Clone)]
pub struct U8 {
    /// The byte value.
    pub num: u8,
}

/// An unsigned 16-bit value, transmitted little-endian.
#[derive(Debug, PartialEq, Clone)]
pub struct U16 {
    /// The 16-bit value.
    pub num: u16,
}

/// UTF-8 text; its length is implied by the frame.
#[derive(Debug, PartialEq, Clone)]
pub struct MyString {
    /// The text.
    pub string: String,
}

/// One unsigned byte followed by UTF-8 text filling the rest of the payload.
#[derive(Debug, PartialEq, Clone)]
pub struct Multi {
    /// The byte value, transmitted first.
    pub num: u8,
    /// The text, transmitted after the byte.
    pub string: String,
}

/// An empty payload.
#[derive(Debug, PartialEq, Clone)]
pub struct NoOp {}

/// A one-byte status report; only the three enumerated codes are valid.
#[derive(Debug, PartialEq, Clone, Copy)]
pub enum Status {
    /// Code 0: the operation succeeded.
    Okay,
    /// Code 1: the operation failed.
    Error,
    /// Code 2: the operation is still in progress.
    Pending,
}

} // verus!
