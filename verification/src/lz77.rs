//! The code model shared by the encoder and the decoder.

use crate::lz77::width::Width;
use vstd::prelude::*;

pub mod decode;
pub mod encode;
pub mod round_trip;
pub mod width;

verus! {

/// One unit of the compressed stream: a back-reference of `length` symbols
/// that starts `offset` symbols before the current position, followed by one
/// literal symbol.
#[derive(Debug, PartialEq, Eq)]
pub struct Code<T> {
    pub offset: u32,
    pub length: u32,
    pub literal: T,
}

impl<T> Code<T> {
    /// What holds of every code that the encoder produces for `width`: a
    /// field of that width can hold the offset and the length, and a code
    /// without a match has offset 0.
    pub open spec fn fits(self, width: Width) -> bool {
        &&& self.offset <= width.limit()
        &&& self.length <= width.limit()
        &&& self.length == 0 ==> self.offset == 0
    }
}

impl<T: Copy> Clone for Code<T> {
    fn clone(&self) -> (copy: Self)
        ensures
            copy == *self,
    {
        *self
    }
}

impl<T: Copy> Copy for Code<T> {

}

/// A symbol of the stream: a value that can be copied and compared.
pub trait Symbol: Copy {
    /// Whether two symbols are the same symbol.
    fn same(&self, other: &Self) -> (r: bool)
        ensures
            r == (*self == *other),
    ;
}

impl Symbol for u8 {
    fn same(&self, other: &Self) -> (r: bool) {
        *self == *other
    }
}

impl Symbol for char {
    fn same(&self, other: &Self) -> (r: bool) {
        *self == *other
    }
}

/// The ways in which encoding or decoding can fail.
#[derive(Clone, Copy, Debug, PartialEq, Eq)]
pub enum Lz77Error {
    /// An offset or a length does not fit the configured field width.
    WidthOverflow,
    /// A back-reference does not lie within the symbols decoded so far.
    InvalidOffset,
}

} // verus!
