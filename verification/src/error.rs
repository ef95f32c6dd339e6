//! The ways in which encoding and decoding fail.

use vstd::prelude::*;

verus! {

/// Why an operation of the codec failed.
#[derive(Debug, Clone, Copy, PartialEq, Eq)]
pub enum Error {
    /// The values handed in do not have the shape of the declared types.
    InvalidData,
    /// The bytes handed in are not the encoding of values of the expected
    /// types: an offset or a length leads past their end, a boolean is
    /// neither 0 nor 1, or text is not UTF-8.
    MalformedEncoding,
    /// The text handed in does not name a type, or names one whose widths
    /// the format does not have.
    UnsupportedShape,
}

} // verus!
