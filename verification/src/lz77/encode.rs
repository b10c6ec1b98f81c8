//! The encoder: the rightmost-match finder, the longest-match search and the
//! loop that turns a sequence of symbols into codes.

use crate::lz77::width::Width;
use crate::lz77::{Code, Lz77Error, Symbol};
use vstd::prelude::*;
use vstd::slice::slice_subrange;

verus! {

/// `pattern` lies in `window` at index `start`, wholly inside the window.
pub open spec fn matches_at<T>(window: Seq<T>, pattern: Seq<T>, start: int) -> bool {
    &&& 0 <= start
    &&& start + pattern.len() <= window.len()
    &&& forall|k: int| 0 <= k < pattern.len() ==> window[start + k] == #[trigger] pattern[k]
}

/// `pattern` lies somewhere in `window`.
pub open spec fn occurs<T>(window: Seq<T>, pattern: Seq<T>) -> bool {
    exists|start: int| matches_at(window, pattern, start)
}

/// `start` is the largest index at which `pattern` lies in `window`.
pub open spec fn is_rightmost_match<T>(window: Seq<T>, pattern: Seq<T>, start: int) -> bool {
    &&& matches_at(window, pattern, start)
    &&& forall|later: int| start < later ==> !matches_at(window, pattern, later)
}

/// `length` is the length of the longest prefix of `lookahead` that lies in
/// `window` and leaves at least one symbol of `lookahead` behind it.
pub open spec fn is_longest_match<T>(window: Seq<T>, lookahead: Seq<T>, length: int) -> bool {
    &&& 0 <= length < lookahead.len()
    &&& occurs(window, lookahead.take(length))
    &&& forall|longer: int|
        length < longer < lookahead.len() ==> !occurs(window, #[trigger] lookahead.take(longer))
}

/// The largest index at which `pattern` lies in `window`.
pub open spec fn rightmost_match<T>(window: Seq<T>, pattern: Seq<T>) -> int {
    choose|start: int| is_rightmost_match(window, pattern, start)
}

/// The length of the longest match of `lookahead` in `window`.
pub open spec fn match_length<T>(window: Seq<T>, lookahead: Seq<T>) -> int {
    choose|length: int| is_longest_match(window, lookahead, length)
}

/// The distance from the end of `window` back to the start of the rightmost
/// occurrence of the longest match.
pub open spec fn match_offset<T>(window: Seq<T>, lookahead: Seq<T>) -> int {
    window.len() - rightmost_match(window, lookahead.take(match_length(window, lookahead)))
}

/// The code for the front of `lookahead`: its longest match in `window`, at
/// the smallest offset, and the symbol that follows the match.
pub open spec fn next_code<T>(window: Seq<T>, lookahead: Seq<T>) -> Code<T> {
    Code {
        offset: match_offset(window, lookahead) as u32,
        length: match_length(window, lookahead) as u32,
        literal: lookahead[match_length(window, lookahead)],
    }
}

/// The index in the input at which the window before `position` starts: the
/// window holds the last `limit` symbols, or all of them if they are fewer.
pub open spec fn window_start(position: int, limit: nat) -> int {
    if position > limit {
        position - limit
    } else {
        0
    }
}

/// The codes for the part of `input` that starts at `position`, each found in
/// the window of at most `limit` symbols before it.
pub open spec fn encoding_from<T>(input: Seq<T>, limit: nat, position: int) -> Seq<Code<T>>
    decreases input.len() - position,
{
    if 0 <= position < input.len() {
        let window = input.subrange(window_start(position, limit), position);
        let lookahead = input.skip(position);
        proof {
            lemma_longest_match(window, lookahead);
        }
        seq![next_code(window, lookahead)] + encoding_from(
            input,
            limit,
            position + match_length(window, lookahead) + 1,
        )
    } else {
        Seq::empty()
    }
}

/// The codes for `input` with a window of at most `limit` symbols.
pub open spec fn encoding<T>(input: Seq<T>, limit: nat) -> Seq<Code<T>> {
    encoding_from(input, limit, 0)
}

/// A pattern that lies in a window has a rightmost occurrence there.
proof fn lemma_rightmost_below<T>(window: Seq<T>, pattern: Seq<T>, bound: int)
    requires
        exists|start: int| start <= bound && matches_at(window, pattern, start),
        forall|later: int| bound < later ==> !matches_at(window, pattern, later),
    ensures
        is_rightmost_match(window, pattern, rightmost_match(window, pattern)),
    decreases bound,
{
    if matches_at(window, pattern, bound) {
        assert(is_rightmost_match(window, pattern, bound));
    } else {
        lemma_rightmost_below(window, pattern, bound - 1);
    }
}

/// A pattern that lies in a window has exactly one rightmost occurrence.
pub proof fn lemma_rightmost_match<T>(window: Seq<T>, pattern: Seq<T>)
    requires
        occurs(window, pattern),
    ensures
        is_rightmost_match(window, pattern, rightmost_match(window, pattern)),
        forall|start: int| #[trigger]
            is_rightmost_match(window, pattern, start) ==> start == rightmost_match(
                window,
                pattern,
            ),
{
    lemma_rightmost_below(window, pattern, window.len() - pattern.len());
}

/// Where a pattern lies, each of its prefixes lies too.
pub proof fn lemma_prefix_matches<T>(window: Seq<T>, pattern: Seq<T>, start: int, shorter: int)
    requires
        matches_at(window, pattern, start),
        0 <= shorter <= pattern.len(),
    ensures
        matches_at(window, pattern.take(shorter), start),
{
    assert forall|k: int| 0 <= k < shorter implies window[start + k] == #[trigger] pattern.take(
        shorter,
    )[k] by {
        assert(pattern.take(shorter)[k] == pattern[k]);
    }
}

/// If a prefix of `lookahead` lies in `window`, so does each shorter prefix.
pub proof fn lemma_shorter_prefix_occurs<T>(
    window: Seq<T>,
    lookahead: Seq<T>,
    longer: int,
    shorter: int,
)
    requires
        0 <= shorter <= longer <= lookahead.len(),
        occurs(window, lookahead.take(longer)),
    ensures
        occurs(window, lookahead.take(shorter)),
{
    let start = choose|start: int| matches_at(window, lookahead.take(longer), start);
    lemma_prefix_matches(window, lookahead.take(longer), start, shorter);
    assert(lookahead.take(longer).take(shorter) =~= lookahead.take(shorter));
}

/// Below any bound with nothing longer above it there is a longest match.
proof fn lemma_longest_below<T>(window: Seq<T>, lookahead: Seq<T>, bound: int)
    requires
        0 <= bound < lookahead.len(),
        forall|longer: int|
            bound < longer < lookahead.len() ==> !occurs(window, #[trigger] lookahead.take(longer)),
    ensures
        is_longest_match(window, lookahead, match_length(window, lookahead)),
    decreases bound,
{
    if occurs(window, lookahead.take(bound)) {
        assert(is_longest_match(window, lookahead, bound));
    } else if bound == 0 {
        assert(matches_at(window, lookahead.take(0), 0));
    } else {
        lemma_longest_below(window, lookahead, bound - 1);
    }
}

/// A non-empty lookahead has exactly one longest match in any window.
pub proof fn lemma_longest_match<T>(window: Seq<T>, lookahead: Seq<T>)
    requires
        lookahead.len() > 0,
    ensures
        is_longest_match(window, lookahead, match_length(window, lookahead)),
        forall|length: int| #[trigger]
            is_longest_match(window, lookahead, length) ==> length == match_length(
                window,
                lookahead,
            ),
{
    lemma_longest_below(window, lookahead, lookahead.len() - 1);
}

/// What the code for the front of a non-empty lookahead refers to: a match
/// that lies wholly inside the window, so that the offset is at least the
/// length, and that is empty exactly where the offset is zero.
pub proof fn lemma_next_code<T>(window: Seq<T>, lookahead: Seq<T>)
    requires
        lookahead.len() > 0,
    ensures
        0 <= match_length(window, lookahead) < lookahead.len(),
        match_length(window, lookahead) <= match_offset(window, lookahead) <= window.len(),
        match_length(window, lookahead) == 0 <==> match_offset(window, lookahead) == 0,
        forall|k: int|
            0 <= k < match_length(window, lookahead) ==> window[window.len() - match_offset(
                window,
                lookahead,
            ) + k] == #[trigger] lookahead[k],
{
    lemma_longest_match(window, lookahead);
    let length = match_length(window, lookahead);
    let pattern = lookahead.take(length);
    lemma_rightmost_match(window, pattern);
    let start = rightmost_match(window, pattern);
    if length == 0 {
        assert(is_rightmost_match(window, pattern, window.len() as int));
    }
    assert forall|k: int| 0 <= k < length implies window[start + k] == #[trigger] lookahead[k] by {
        assert(pattern[k] == lookahead[k]);
    }
}

/// One code for each symbol of `input`, none with a back-reference.
pub open spec fn literals<T>(input: Seq<T>) -> Seq<Code<T>> {
    Seq::new(input.len(), |i: int| Code { offset: 0, length: 0, literal: input[i] })
}

/// Where no symbol of the input occurs twice, the code at `position` has no
/// back-reference.
proof fn lemma_distinct_symbol_is_literal<T>(input: Seq<T>, limit: nat, position: int)
    requires
        0 <= position < input.len(),
        forall|i: int, j: int| 0 <= i < j < input.len() ==> input[i] != input[j],
    ensures
        ({
            let window = input.subrange(window_start(position, limit), position);
            &&& match_length(window, input.skip(position)) == 0
            &&& match_offset(window, input.skip(position)) == 0
        }),
{
    let first = window_start(position, limit);
    let window = input.subrange(first, position);
    let lookahead = input.skip(position);
    assert(matches_at(window, lookahead.take(0), 0));
    assert forall|longer: int| 0 < longer < lookahead.len() implies !occurs(
        window,
        #[trigger] lookahead.take(longer),
    ) by {
        if occurs(window, lookahead.take(longer)) {
            let start = choose|start: int| matches_at(window, lookahead.take(longer), start);
            assert(window[start + 0] == lookahead.take(longer)[0]);
            assert(input[first + start] == input[position]);
        }
    }
    assert(is_longest_match(window, lookahead, 0));
    lemma_longest_match(window, lookahead);
    lemma_next_code(window, lookahead);
}

/// Where no symbol of the input occurs twice, the codes from `position` on
/// are one literal for each symbol.
proof fn lemma_distinct_symbols_from<T>(input: Seq<T>, limit: nat, position: int)
    requires
        0 <= position <= input.len(),
        forall|i: int, j: int| 0 <= i < j < input.len() ==> input[i] != input[j],
    ensures
        encoding_from(input, limit, position) == literals(input).skip(position),
    decreases input.len() - position,
{
    if position < input.len() {
        lemma_distinct_symbol_is_literal(input, limit, position);
        lemma_distinct_symbols_from(input, limit, position + 1);
        let codes = encoding_from(input, limit, position);
        assert(codes[0] == literals(input)[position]);
        assert(codes == literals(input).skip(position));
    } else {
        assert(encoding_from(input, limit, position) == literals(input).skip(position));
    }
}

/// An input in which no symbol occurs twice is encoded as one code for each
/// symbol, with offset 0 and length 0, whatever the window.
pub proof fn lemma_distinct_symbols_are_literals<T>(input: Seq<T>, limit: nat)
    requires
        forall|i: int, j: int| 0 <= i < j < input.len() ==> input[i] != input[j],
    ensures
        encoding(input, limit) == literals(input),
{
    lemma_distinct_symbols_from(input, limit, 0);
    assert(literals(input).skip(0) == literals(input));
}

/// Every code from `position` on refers back no further than its window
/// reaches and no longer than its offset, and has offset 0 where its length
/// is 0.
proof fn lemma_encoding_fits_from<T>(input: Seq<T>, width: Width, position: int)
    requires
        0 <= position <= input.len(),
    ensures
        forall|i: int|
            0 <= i < encoding_from(input, width.limit(), position).len() ==> (#[trigger] encoding_from(
                input,
                width.limit(),
                position,
            )[i]).fits(width),
    decreases input.len() - position,
{
    if position < input.len() {
        let window = input.subrange(window_start(position, width.limit()), position);
        let lookahead = input.skip(position);
        let next = position + match_length(window, lookahead) + 1;
        lemma_next_code(window, lookahead);
        lemma_encoding_fits_from(input, width, next);
        let codes = encoding_from(input, width.limit(), position);
        assert forall|i: int| 0 <= i < codes.len() implies (#[trigger] codes[i]).fits(width) by {
            if i > 0 {
                assert(codes[i] == encoding_from(input, width.limit(), next)[i - 1]);
            }
        }
    }
}

/// Every code that the encoder produces fits the width it was produced for.
pub proof fn lemma_encoding_fits<T>(input: Seq<T>, width: Width)
    ensures
        forall|i: int|
            0 <= i < encoding(input, width.limit()).len() ==> (#[trigger] encoding(
                input,
                width.limit(),
            )[i]).fits(width),
{
    lemma_encoding_fits_from(input, width, 0);
}

/// Whether `search` lies in `window` at `position`.
fn matches_here<T: Symbol>(window: &[T], search: &[T], position: usize) -> (same: bool)
    requires
        position + search.len() <= window.len(),
    ensures
        same == matches_at(window@, search@, position as int),
{
    let mut checked: usize = 0;
    while checked < search.len()
        invariant
            checked <= search.len(),
            position + search.len() <= window.len(),
            forall|k: int| 0 <= k < checked ==> window@[position + k] == #[trigger] search@[k],
        decreases search.len() - checked,
    {
        if !window[position + checked].same(&search[checked]) {
            return false;
        }
        checked += 1;
    }
    true
}

/// The index of the rightmost occurrence of `search` in `window`, if there
/// is one.
pub fn rfind<T: Symbol>(window: &[T], search: &[T]) -> (found: Option<usize>)
    ensures
        (match found {
            Some(start) => is_rightmost_match(window@, search@, start as int),
            None => !occurs(window@, search@),
        }),
{
    if search.len() > window.len() {
        return None;
    }
    let mut position: usize = window.len() - search.len();
    loop
        invariant
            position + search.len() <= window.len(),
            forall|later: int| position < later ==> !matches_at(window@, search@, later),
        decreases position,
    {
        if matches_here(window, search, position) {
            return Some(position);
        }
        if position == 0 {
            return None;
        }
        position -= 1;
    }
}

/// The next code, given the window and a non-empty lookahead: the longest
/// prefix of the lookahead that lies in the window and is not the whole
/// lookahead, at its rightmost occurrence, and the symbol after it.
pub fn find_code<T: Symbol>(window: &[T], lookahead: &[T], width: Width) -> (r: Result<
    Code<T>,
    Lz77Error,
>)
    requires
        lookahead.len() > 0,
    ensures
        r is Ok <==> match_offset(window@, lookahead@) <= width.limit() && match_length(
            window@,
            lookahead@,
        ) <= width.limit(),
        r matches Ok(code) ==> code == next_code(window@, lookahead@),
        r matches Err(e) ==> e == Lz77Error::WidthOverflow,
{
    let mut offset: usize = 0;
    let mut length: usize = 0;
    let mut search_length: usize = 1;
    assert(is_rightmost_match(window@, lookahead@.take(0), window@.len() as int));
    while search_length < lookahead.len()
        invariant_except_break
            search_length == length + 1,
        invariant
            length < lookahead.len(),
            offset <= window.len(),
            is_rightmost_match(window@, lookahead@.take(length as int), window.len() - offset),
        ensures
            length + 1 < lookahead.len() ==> !occurs(
                window@,
                lookahead@.take(length as int + 1),
            ),
        decreases lookahead.len() - search_length,
    {
        let search = slice_subrange(lookahead, 0, search_length);
        match rfind(window, search) {
            None => {
                break ;
            },
            Some(start) => {
                offset = window.len() - start;
                length = search_length;
            },
        }
        search_length += 1;
    }
    proof {
        assert forall|longer: int| length < longer < lookahead.len() implies !occurs(
            window@,
            #[trigger] lookahead@.take(longer),
        ) by {
            if occurs(window@, lookahead@.take(longer)) {
                lemma_shorter_prefix_occurs(window@, lookahead@, longer, length as int + 1);
            }
        }
        assert(is_longest_match(window@, lookahead@, length as int));
        lemma_longest_match(window@, lookahead@);
        lemma_rightmost_match(window@, lookahead@.take(length as int));
    }
    let limit: usize = width.max_value() as usize;
    if offset > limit || length > limit {
        return Err(Lz77Error::WidthOverflow);
    }
    Ok(Code { offset: offset as u32, length: length as u32, literal: lookahead[length] })
}

/// Turns `input` into codes. At each position the window is the last
/// `width.limit()` symbols before it, and the code is the one that
/// `find_code` gives for that window and the rest of the input.
pub fn encode<T: Symbol>(input: &[T], width: Width) -> (r: Result<Vec<Code<T>>, Lz77Error>)
    ensures
        r matches Ok(codes) && codes@ == encoding(input@, width.limit()),
        r matches Ok(codes) ==> forall|i: int|
            0 <= i < codes.len() ==> (#[trigger] codes[i]).fits(width),
{
    proof {
        lemma_encoding_fits(input@, width);
    }
    let limit: usize = width.max_value() as usize;
    let mut encoded: Vec<Code<T>> = Vec::new();
    let mut position: usize = 0;
    while position < input.len()
        invariant
            position <= input.len(),
            limit == width.limit(),
            encoding(input@, width.limit()) == encoded@ + encoding_from(
                input@,
                width.limit(),
                position as int,
            ),
        decreases input.len() - position,
    {
        let lookahead = slice_subrange(input, position, input.len());
        let start: usize = if position > limit {
            position - limit
        } else {
            0
        };
        let window = slice_subrange(input, start, position);
        proof {
            lemma_next_code(window@, lookahead@);
            assert(lookahead@ == input@.skip(position as int));
        }
        let code = match find_code(window, lookahead, width) {
            Ok(code) => code,
            Err(e) => {
                return Err(e);
            },
        };
        position += code.length as usize + 1;
        encoded.push(code);
    }
    Ok(encoded)
}

/// Turns the characters of `input` into codes.
pub fn from_string(input: &str, width: Width) -> (r: Result<Vec<Code<char>>, Lz77Error>)
    ensures
        r matches Ok(codes) && codes@ == encoding(input@, width.limit()),
{
    let mut input_chars: Vec<char> = Vec::new();
    for c in it: input.chars()
        invariant
            it.seq() == input@,
            input_chars@ == input@.take(it.index()),
    {
        input_chars.push(c);
    }
    assert(input_chars@ == input@);
    encode(input_chars.as_slice(), width)
}

} // verus!
