//! Decoding undoes encoding.

use crate::lz77::decode::{copied, decode_step, decoding, decoding_from};
use crate::lz77::encode::{
    encoding, encoding_from, lemma_next_code, match_length, match_offset, next_code, window_start,
};
use crate::lz77::width::Width;
use vstd::arithmetic::div_mod::lemma_small_mod;
use vstd::prelude::*;

verus! {

/// Replaying the code that the encoder emits at `position` onto the input
/// before `position` gives the input up to where the encoder goes on.
proof fn lemma_step_restores<T>(input: Seq<T>, limit: nat, position: int)
    requires
        0 <= position < input.len(),
        limit <= u32::MAX,
    ensures
        ({
            let window = input.subrange(window_start(position, limit), position);
            let lookahead = input.skip(position);
            let length = match_length(window, lookahead);
            &&& 0 <= length < input.len() - position
            &&& decode_step(input.take(position), next_code(window, lookahead)) == Some(
                input.take(position + length + 1),
            )
        }),
{
    let window = input.subrange(window_start(position, limit), position);
    let lookahead = input.skip(position);
    let length = match_length(window, lookahead);
    let offset = match_offset(window, lookahead);
    let code = next_code(window, lookahead);
    let out = input.take(position);
    lemma_next_code(window, lookahead);
    assert(code.offset == offset && code.length == length);
    let restored = (out + copied(out, offset, length)).push(code.literal);
    assert forall|i: int| 0 <= i < position + length + 1 implies restored[i] == input[i] by {
        if position <= i < position + length {
            let k = i - position;
            lemma_small_mod(k as nat, offset as nat);
            assert(window[window.len() - offset + k] == lookahead[k]);
        }
    }
    assert(restored == input.take(position + length + 1));
}

/// Decoding the codes for the input from `position` on, onto the input
/// before `position`, gives the whole input.
proof fn lemma_round_trip_from<T>(input: Seq<T>, limit: nat, position: int)
    requires
        0 <= position <= input.len(),
        limit <= u32::MAX,
    ensures
        decoding_from(input.take(position), encoding_from(input, limit, position)) == Some(input),
    decreases input.len() - position,
{
    if position == input.len() {
        assert(input.take(position) == input);
    } else {
        let window = input.subrange(window_start(position, limit), position);
        let lookahead = input.skip(position);
        let next = position + match_length(window, lookahead) + 1;
        let codes = encoding_from(input, limit, position);
        lemma_step_restores(input, limit, position);
        lemma_round_trip_from(input, limit, next);
        assert(codes[0] == next_code(window, lookahead));
        assert(codes.skip(1) == encoding_from(input, limit, next));
    }
}

/// For every input and every width, the codes that the encoder produces
/// decode without an error, and to the input itself.
pub proof fn lemma_round_trip<T>(input: Seq<T>, width: Width)
    ensures
        decoding(encoding(input, width.limit())) == Some(input),
{
    lemma_round_trip_from(input, width.limit(), 0);
    assert(input.take(0) == Seq::<T>::empty());
}

} // verus!
