//! The field width of offsets and lengths, which bounds the sliding window.

use vstd::prelude::*;

verus! {

/// The number of bits that an offset or a length may occupy.
#[derive(Clone, Copy, Debug, PartialEq, Eq)]
pub enum Width {
    W8,
    W16,
    W32,
}

/// `num_traits::Bounded::max_value` for `u8`: the largest `u8`.
#[verifier::external_body]
fn max_u8() -> (r: u8)
    ensures
        r == u8::MAX,
{
    <u8 as num_traits::Bounded>::max_value()
}

/// `num_traits::Bounded::max_value` for `u16`: the largest `u16`.
#[verifier::external_body]
fn max_u16() -> (r: u16)
    ensures
        r == u16::MAX,
{
    <u16 as num_traits::Bounded>::max_value()
}

/// `num_traits::Bounded::max_value` for `u32`: the largest `u32`.
#[verifier::external_body]
fn max_u32() -> (r: u32)
    ensures
        r == u32::MAX,
{
    <u32 as num_traits::Bounded>::max_value()
}

impl Width {
    /// The largest value that a field of this width can hold, which is also
    /// the largest window.
    pub open spec fn limit(self) -> nat {
        match self {
            Width::W8 => 0xff,
            Width::W16 => 0xffff,
            Width::W32 => 0xffff_ffff,
        }
    }

    /// The largest value that a field of this width can hold.
    pub fn max_value(self) -> (r: u32)
        ensures
            r == self.limit(),
    {
        match self {
            Width::W8 => max_u8() as u32,
            Width::W16 => max_u16() as u32,
            Width::W32 => max_u32(),
        }
    }
}

} // verus!
