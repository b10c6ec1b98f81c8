//! The decoder: replays codes in order onto an output that is also the
//! window that later codes refer back to.

use crate::lz77::{Code, Lz77Error};
use vstd::arithmetic::div_mod::{lemma_mod_sub_multiples_vanish, lemma_small_mod};
use vstd::prelude::*;

verus! {

/// Whether a back-reference of `length` symbols at `offset` can be followed
/// once `position` symbols are decoded: it must not reach before the start
/// of the output, and a reference that copies anything must point backwards.
pub open spec fn valid_reference(position: int, offset: int, length: int) -> bool {
    &&& offset <= position
    &&& length > 0 ==> offset > 0
}

/// The symbols that a back-reference of `length` symbols at `offset` adds to
/// `out`: the last `offset` symbols of `out`, repeated for as long as the
/// length asks. Where the length is larger than the offset the reference
/// overlaps what it writes, and the repetition is what a copy made symbol by
/// symbol reads.
pub open spec fn copied<T>(out: Seq<T>, offset: int, length: int) -> Seq<T> {
    Seq::new(length as nat, |k: int| out[out.len() - offset + k % offset])
}

/// The output after one more code, or `None` where its back-reference is not
/// valid.
pub open spec fn decode_step<T>(out: Seq<T>, code: Code<T>) -> Option<Seq<T>> {
    if valid_reference(out.len() as int, code.offset as int, code.length as int) {
        Some((out + copied(out, code.offset as int, code.length as int)).push(code.literal))
    } else {
        None
    }
}

/// The output after `codes` are replayed in order onto `out`, or `None` where
/// one of them has a back-reference that is not valid when its turn comes.
pub open spec fn decoding_from<T>(out: Seq<T>, codes: Seq<Code<T>>) -> Option<Seq<T>>
    decreases codes.len(),
{
    if codes.len() == 0 {
        Some(out)
    } else {
        match decode_step(out, codes[0]) {
            Some(next) => decoding_from(next, codes.skip(1)),
            None => None,
        }
    }
}

/// The symbols that `codes` stand for.
pub open spec fn decoding<T>(codes: Seq<Code<T>>) -> Option<Seq<T>> {
    decoding_from(Seq::empty(), codes)
}

/// Each symbol that a back-reference adds equals the symbol `offset` places
/// before it in the output, also where that symbol was added by the same
/// back-reference: the copy goes symbol by symbol, not block by block.
pub proof fn lemma_copy_reads_back<T>(out: Seq<T>, offset: int, length: int, k: int)
    requires
        0 < offset <= out.len(),
        0 <= k < length,
    ensures
        ({
            let extended = out + copied(out, offset, length);
            extended[out.len() + k] == extended[out.len() + k - offset]
        }),
{
    if k < offset {
        lemma_small_mod(k as nat, offset as nat);
    } else {
        lemma_mod_sub_multiples_vanish(k, offset);
    }
}

/// A back-reference at offset 1 expands to a run of the last symbol of the
/// output, however long it is.
pub proof fn lemma_offset_one_repeats_last<T>(out: Seq<T>, length: int)
    requires
        out.len() > 0,
    ensures
        copied(out, 1, length) == Seq::new(length as nat, |k: int| out.last()),
{
}

/// Appends to `decoded` the `length` symbols that start `offset` symbols
/// before its end, one symbol at a time, so that a symbol written by this
/// copy can be read again by the same copy.
fn copy_back<T: Copy>(decoded: &mut Vec<T>, offset: usize, length: usize)
    requires
        valid_reference(old(decoded).len() as int, offset as int, length as int),
    ensures
        final(decoded)@ == old(decoded)@ + copied(old(decoded)@, offset as int, length as int),
{
    let position: usize = decoded.len();
    let start: usize = position - offset;
    let mut done: usize = 0;
    while done < length
        invariant
            done <= length,
            valid_reference(position as int, offset as int, length as int),
            position == old(decoded).len(),
            start == position - offset,
            decoded.len() == position + done,
            decoded@ == old(decoded)@ + copied(old(decoded)@, offset as int, done as int),
        decreases length - done,
    {
        proof {
            if done < offset {
                lemma_small_mod(done as nat, offset as nat);
            } else {
                lemma_mod_sub_multiples_vanish(done as int, offset as int);
                assert(decoded@[start + done] == copied(
                    old(decoded)@,
                    offset as int,
                    done as int,
                )[done - offset]);
            }
        }
        let symbol: T = decoded[start + done];
        decoded.push(symbol);
        done += 1;
        assert(decoded@ == old(decoded)@ + copied(old(decoded)@, offset as int, done as int));
    }
}

/// Reconstructs the symbols from a sequence of codes. Each back-reference is
/// copied symbol by symbol, so that it may overlap what it writes. Fails
/// with `InvalidOffset` if and only if some code, when its turn comes, has a
/// back-reference that is not valid.
pub fn decode<T: Copy>(encoded: &[Code<T>]) -> (r: Result<Vec<T>, Lz77Error>)
    ensures
        (match decoding(encoded@) {
            Some(symbols) => r matches Ok(decoded) && decoded@ == symbols,
            None => r matches Err(Lz77Error::InvalidOffset),
        }),
{
    let mut decoded: Vec<T> = Vec::new();
    let mut next: usize = 0;
    assert(encoded@.skip(0) == encoded@);
    while next < encoded.len()
        invariant
            next <= encoded.len(),
            decoding(encoded@) == decoding_from(decoded@, encoded@.skip(next as int)),
        decreases encoded.len() - next,
    {
        let offset: usize = encoded[next].offset as usize;
        let length: usize = encoded[next].length as usize;
        assert(encoded@.skip(next as int)[0] == encoded@[next as int]);
        assert(encoded@.skip(next as int).skip(1) == encoded@.skip(next + 1));
        if offset > decoded.len() || (length > 0 && offset == 0) {
            return Err(Lz77Error::InvalidOffset);
        }
        copy_back(&mut decoded, offset, length);
        decoded.push(encoded[next].literal);
        next += 1;
    }
    Ok(decoded)
}

/// `String::push` appends the given character to the end of the string.
pub assume_specification[ String::push ](text: &mut String, ch: char)
    ensures
        final(text)@ == old(text)@.push(ch),
;

/// Reconstructs a string from a sequence of codes over characters. Fails as
/// `decode` does.
pub fn to_string(encoded: &[Code<char>]) -> (r: Result<String, Lz77Error>)
    ensures
        (match decoding(encoded@) {
            Some(symbols) => r matches Ok(text) && text@ == symbols,
            None => r matches Err(Lz77Error::InvalidOffset),
        }),
{
    let decoded = match decode(encoded) {
        Ok(decoded) => decoded,
        Err(e) => {
            return Err(e);
        },
    };
    let mut text = String::new();
    let mut next: usize = 0;
    while next < decoded.len()
        invariant
            next <= decoded.len(),
            text@ == decoded@.take(next as int),
        decreases decoded.len() - next,
    {
        text.push(decoded[next]);
        next += 1;
    }
    assert(text@ == decoded@);
    Ok(text)
}

} // verus!
