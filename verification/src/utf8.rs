//! Facts about UTF-8 text that the engine needs to cut and join strings at
//! byte offsets, and the two string operations built on them.

use vstd::prelude::*;
use vstd::string::*;
use vstd::utf8::*;

verus! {

broadcast use vstd::utf8::encode_utf8_valid_utf8;

/// An ASCII byte in well-formed UTF-8 is a character of its own: a character
/// starts at it and another one (or the end) follows it.
pub proof fn lemma_ascii_is_boundary(bytes: Seq<u8>, i: int)
    requires
        valid_utf8(bytes),
        0 <= i < bytes.len(),
        bytes[i] < 0x80,
    ensures
        is_char_boundary(bytes, i),
        is_char_boundary(bytes, i + 1),
{
    is_char_boundary_iff_not_is_continuation_byte(bytes, i);
    valid_utf8_split(bytes, i);
    let rest = bytes.subrange(i, bytes.len() as int);
    assert(rest[0] == bytes[i]);
    assert(length_of_first_scalar(rest) == 1);
    if i + 1 < bytes.len() {
        let tail = pop_first_scalar(rest);
        assert(tail =~= bytes.subrange(i + 1, bytes.len() as int));
        assert(valid_utf8(tail));
        reveal_with_fuel(valid_utf8, 2);
        assert(valid_first_scalar(tail));
        assert(tail[0] == bytes[i + 1]);
        assert(!is_continuation_byte(bytes[i + 1]));
        is_char_boundary_iff_not_is_continuation_byte(bytes, i + 1);
    } else {
        is_char_boundary_start_end_of_seq(bytes);
    }
}

/// The part of well-formed UTF-8 between two character boundaries is
/// well-formed UTF-8.
pub proof fn lemma_piece_valid(bytes: Seq<u8>, start: int, end: int)
    requires
        valid_utf8(bytes),
        0 <= start <= end <= bytes.len(),
        is_char_boundary(bytes, start),
        is_char_boundary(bytes, end),
    ensures
        valid_utf8(bytes.subrange(start, end)),
{
    valid_utf8_split(bytes, end);
    let head = bytes.subrange(0, end);
    lemma_boundary_in_piece(bytes, 0, end, start);
    valid_utf8_split(head, start);
    assert(head.subrange(start, head.len() as int) =~= bytes.subrange(start, end));
}

/// Inside a well-formed piece cut at character boundaries, the character
/// boundaries are those of the whole.
pub proof fn lemma_boundary_in_piece(bytes: Seq<u8>, start: int, end: int, i: int)
    requires
        valid_utf8(bytes),
        0 <= start <= i <= end <= bytes.len(),
        valid_utf8(bytes.subrange(start, end)),
        is_char_boundary(bytes, end),
    ensures
        is_char_boundary(bytes, i) <==> is_char_boundary(bytes.subrange(start, end), i - start),
{
    let piece = bytes.subrange(start, end);
    if i < end {
        assert(piece[i - start] == bytes[i]);
        is_char_boundary_iff_not_is_continuation_byte(bytes, i);
        is_char_boundary_iff_not_is_continuation_byte(piece, i - start);
    } else {
        is_char_boundary_start_end_of_seq(piece);
    }
}

/// Encoding distributes over concatenation.
pub proof fn lemma_encode_concat(a: Seq<char>, b: Seq<char>)
    ensures
        encode_utf8(a + b) == encode_utf8(a) + encode_utf8(b),
    decreases a.len(),
{
    if a.len() == 0 {
        assert(a + b =~= b);
        assert(encode_utf8(a) + encode_utf8(b) =~= encode_utf8(b));
    } else {
        lemma_encode_concat(a.drop_first(), b);
        assert((a + b).drop_first() =~= a.drop_first() + b);
        assert(encode_utf8(a + b) =~= encode_utf8(a) + encode_utf8(b));
    }
}

/// Only the empty string has an empty encoding.
pub proof fn lemma_empty_encoding(chars: Seq<char>)
    ensures
        encode_utf8(chars).len() == 0 <==> chars.len() == 0,
{
    if chars.len() > 0 {
        assert(encode_scalar(chars[0] as u32).len() >= 1);
    }
}

/// The part of `text` between two byte offsets that are character
/// boundaries.
pub fn str_piece<'a>(text: &'a str, start: usize, end: usize) -> (piece: &'a str)
    requires
        start <= end <= text.spec_bytes().len(),
        is_char_boundary(text.spec_bytes(), start as int),
        is_char_boundary(text.spec_bytes(), end as int),
    ensures
        piece.spec_bytes() == text.spec_bytes().subrange(start as int, end as int),
{
    proof {
        valid_utf8_split(text.spec_bytes(), end as int);
        lemma_boundary_in_piece(text.spec_bytes(), 0, end as int, start as int);
    }
    let (head, _) = text.split_at(end);
    let (_, piece) = head.split_at(start);
    assert(piece.spec_bytes() =~= text.spec_bytes().subrange(start as int, end as int));
    piece
}

/// Appends `text` to `out`.
pub fn push_text(out: &mut String, text: &str)
    ensures
        encode_utf8(final(out)@) == encode_utf8(old(out)@) + text.spec_bytes(),
        final(out)@ == old(out)@ + text@,
{
    proof {
        lemma_encode_concat(out@, text@);
    }
    out.append(text);
}

} // verus!
