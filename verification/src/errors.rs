//! The ways in which building or parsing an identifier can fail.

use vstd::prelude::*;

verus! {

/// An input that the library rejects.
#[derive(Debug, PartialEq, Eq)]
pub enum KSUIDError {
    /// A byte slice is shorter than the fixed width that was asked of it;
    /// `length` is the length that was supplied.
    SliceTooSmall { length: usize },
    /// The text holds a byte outside the alphabet `0-9A-Za-z`; `value` is the
    /// rejected text.
    InvalidBase62Character { value: String },
    /// The text is too short, or it denotes a number that does not fit in
    /// 160 bits; `value` is the rejected text.
    InvalidBase62Length { value: String },
}

} // verus!
