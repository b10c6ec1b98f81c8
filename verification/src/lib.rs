//! LZ77 sliding-window compression with machine-checked contracts.
//!
//! The codec itself is in [`lz77`]. The functions here encode bytes and lay
//! the codes out as a flat sequence of values, three for each code, for a
//! host that reads plain numbers.

use crate::lz77::encode::encoding;
use crate::lz77::width::Width;
use crate::lz77::{Code, Lz77Error};
use vstd::prelude::*;

pub mod lz77;

verus! {

/// The codes laid out flat: for each code its offset, its length and its
/// literal, in that order.
pub open spec fn flattened(codes: Seq<Code<u8>>) -> Seq<u32> {
    Seq::new(
        3 * codes.len(),
        |i: int|
            if i % 3 == 0 {
                codes[i / 3].offset
            } else if i % 3 == 1 {
                codes[i / 3].length
            } else {
                codes[i / 3].literal as u32
            },
    )
}

/// Encodes `symbols` and lays the codes out flat, the literal widened to the
/// size of the other two values.
pub fn encode(symbols: &[u8], width: Width) -> (r: Result<Vec<u32>, Lz77Error>)
    ensures
        r matches Ok(flat) && flat@ == flattened(encoding(symbols@, width.limit())),
        r matches Ok(flat) ==> forall|i: int|
            0 <= i < flat.len() ==> #[trigger] flat[i] <= width.limit(),
{
    let encoded = match crate::lz77::encode::encode(symbols, width) {
        Ok(encoded) => encoded,
        Err(e) => {
            return Err(e);
        },
    };
    let mut flat: Vec<u32> = Vec::new();
    let mut next: usize = 0;
    while next < encoded.len()
        invariant
            next <= encoded.len(),
            flat@ == flattened(encoded@.take(next as int)),
            forall|i: int| 0 <= i < encoded.len() ==> (#[trigger] encoded[i]).fits(width),
            forall|i: int| 0 <= i < flat.len() ==> #[trigger] flat[i] <= width.limit(),
        decreases encoded.len() - next,
    {
        flat.push(encoded[next].offset);
        flat.push(encoded[next].length);
        flat.push(encoded[next].literal as u32);
        next += 1;
        assert(flat@ == flattened(encoded@.take(next as int)));
    }
    assert(encoded@.take(next as int) == encoded@);
    Ok(flat)
}

/// Encodes `symbols` with 8-bit offsets and lengths, so with a window of at
/// most 255 symbols, and lays the codes out flat as bytes.
pub fn encode_8(symbols: &[u8]) -> (r: Result<Vec<u8>, Lz77Error>)
    ensures
        r matches Ok(flat) && flat.len() == flattened(encoding(symbols@, Width::W8.limit())).len(),
        r matches Ok(flat) ==> forall|i: int|
            0 <= i < flat.len() ==> #[trigger] flat[i] == flattened(
                encoding(symbols@, Width::W8.limit()),
            )[i],
{
    let wide = match encode(symbols, Width::W8) {
        Ok(wide) => wide,
        Err(e) => {
            return Err(e);
        },
    };
    let mut flat: Vec<u8> = Vec::new();
    let mut next: usize = 0;
    while next < wide.len()
        invariant
            next <= wide.len(),
            forall|i: int| 0 <= i < wide.len() ==> #[trigger] wide[i] <= Width::W8.limit(),
            flat.len() == next,
            forall|i: int| 0 <= i < next ==> #[trigger] flat[i] == wide[i],
        decreases wide.len() - next,
    {
        flat.push(wide[next] as u8);
        next += 1;
    }
    Ok(flat)
}

/// Encodes `symbols` with 16-bit offsets and lengths, so with a window of at
/// most 65535 symbols, and lays the codes out flat as 16-bit values.
pub fn encode_16(symbols: &[u8]) -> (r: Result<Vec<u16>, Lz77Error>)
    ensures
        r matches Ok(flat) && flat.len() == flattened(encoding(symbols@, Width::W16.limit())).len(),
        r matches Ok(flat) ==> forall|i: int|
            0 <= i < flat.len() ==> #[trigger] flat[i] == flattened(
                encoding(symbols@, Width::W16.limit()),
            )[i],
{
    let wide = match encode(symbols, Width::W16) {
        Ok(wide) => wide,
        Err(e) => {
            return Err(e);
        },
    };
    let mut flat: Vec<u16> = Vec::new();
    let mut next: usize = 0;
    while next < wide.len()
        invariant
            next <= wide.len(),
            forall|i: int| 0 <= i < wide.len() ==> #[trigger] wide[i] <= Width::W16.limit(),
            flat.len() == next,
            forall|i: int| 0 <= i < next ==> #[trigger] flat[i] == wide[i],
        decreases wide.len() - next,
    {
        flat.push(wide[next] as u16);
        next += 1;
    }
    Ok(flat)
}

/// Encodes `symbols` with 32-bit offsets and lengths, so with a window of at
/// most 4294967295 symbols, and lays the codes out flat as 32-bit values.
pub fn encode_32(symbols: &[u8]) -> (r: Result<Vec<u32>, Lz77Error>)
    ensures
        r matches Ok(flat) && flat@ == flattened(encoding(symbols@, Width::W32.limit())),
{
    encode(symbols, Width::W32)
}

} // verus!
