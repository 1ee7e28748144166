//! Matching of Kitty keyboard protocol sequences.
//!
//! A key press arrives as one of four forms, all starting with `ESC [`:
//!
//! - `codepoint [: [shifted] [: base]] [; modifier [: event]] u`
//! - `1 ; modifier [: event] A|B|C|D` for the arrow keys
//! - `number [; modifier [: event]] ~` for the functional keys
//! - `1 ; modifier [: event] H|F` for Home and End
//!
//! Numbers are decimal and fit in 32 bits. The modifier is sent plus one.

use crate::ansi::{ESC, OPEN_BRACKET};
use crate::decimal::{digits_value, is_digit};
use vstd::prelude::*;
use vstd::string::*;
use vstd::utf8::*;

verus! {

/// The modifier bits of Caps Lock and Num Lock, which matching ignores.
pub const LOCK_MASK: u32 = 192;

pub const ARROW_UP: i32 = -1;

pub const ARROW_DOWN: i32 = -2;

pub const ARROW_RIGHT: i32 = -3;

pub const ARROW_LEFT: i32 = -4;

pub const FUNC_DELETE: i32 = -10;

pub const FUNC_INSERT: i32 = -11;

pub const FUNC_PAGE_UP: i32 = -12;

pub const FUNC_PAGE_DOWN: i32 = -13;

pub const FUNC_HOME: i32 = -14;

pub const FUNC_END: i32 = -15;

pub const COLON: u8 = 0x3a;

pub const SEMI: u8 = 0x3b;

/// A key press: the key, the key at the same place of the base layout if the
/// sequence names it, and the modifiers held.
#[derive(Clone, Copy, Debug)]
pub struct ParsedKittySequence {
    pub codepoint: i32,
    pub base_layout_key: Option<i32>,
    pub modifier: u32,
}

/// Where the digits that start at `idx` end: at the first byte of
/// `bytes[idx..end]` that is no digit, or at `end`.
pub open spec fn digits_end(bytes: Seq<u8>, idx: int, end: int) -> int
    decreases end - idx,
{
    if idx >= end || !is_digit(bytes[idx]) {
        idx
    } else {
        digits_end(bytes, idx + 1, end)
    }
}

/// The number written at `idx` and the place after it, if digits stand
/// there and their value fits in 32 bits.
pub open spec fn number_at(bytes: Seq<u8>, idx: int, end: int) -> Option<(u32, int)> {
    let stop = digits_end(bytes, idx, end);
    let value = digits_value(bytes.subrange(idx, stop));
    if idx < stop && value <= u32::MAX {
        Some((value as u32, stop))
    } else {
        None
    }
}

/// The place after the number written at `idx`, or `idx` itself if no
/// number is written there.
pub open spec fn after_optional_number(bytes: Seq<u8>, idx: int, end: int) -> int {
    match number_at(bytes, idx, end) {
        Some((_, next)) => next,
        None => idx,
    }
}

/// Whether the byte `b` stands at `idx`, before `end`.
pub open spec fn byte_at(bytes: Seq<u8>, idx: int, end: int, b: u8) -> bool {
    idx < end && bytes[idx] == b
}

/// The modifier field at `idx`: `; number`, or nothing, which counts as 1.
/// The result holds the number and the place after the field.
pub open spec fn modifier_at(bytes: Seq<u8>, idx: int, end: int) -> Option<(u32, int)> {
    if byte_at(bytes, idx, end, SEMI) {
        number_at(bytes, idx + 1, end)
    } else {
        Some((1u32, idx))
    }
}

/// The place after the event field at `idx`: `: number`, or nothing.
pub open spec fn after_event(bytes: Seq<u8>, idx: int, end: int) -> Option<int> {
    if byte_at(bytes, idx, end, COLON) {
        match number_at(bytes, idx + 1, end) {
            Some((_, next)) => Some(next),
            None => None,
        }
    } else {
        Some(idx)
    }
}

/// The modifier and event fields at `idx`, which have to reach up to `stop`.
/// The result is the modifier as sent, which is never 0.
pub open spec fn modifier_and_event(bytes: Seq<u8>, idx: int, end: int, stop: int) -> Option<u32> {
    match modifier_at(bytes, idx, end) {
        Some((value, next)) => match after_event(bytes, next, end) {
            Some(last) => if last == stop && value != 0 {
                Some(value)
            } else {
                None
            },
            None => None,
        },
        None => None,
    }
}

/// `value` as a signed number, if it fits.
pub open spec fn as_i32(value: u32) -> Option<i32> {
    if value <= i32::MAX {
        Some(value as i32)
    } else {
        None
    }
}

pub open spec fn starts_csi(bytes: Seq<u8>) -> bool {
    bytes.len() >= 2 && bytes[0] == ESC && bytes[1] == OPEN_BRACKET
}

/// Starts with `ESC [ 1 ;`.
pub open spec fn starts_csi_one(bytes: Seq<u8>) -> bool {
    bytes.len() >= 4 && bytes[0] == ESC && bytes[1] == OPEN_BRACKET && bytes[2] == 0x31
        && bytes[3] == SEMI
}

/// The base-layout field after the key at `idx`: `: [shifted] : base`, or
/// `: [shifted]`, or nothing. The result holds the base key, if written,
/// and the place after the field; it is `None` where a base key is
/// announced and none that fits follows.
pub open spec fn base_layout_at(bytes: Seq<u8>, idx: int, end: int) -> Option<(Option<i32>, int)> {
    if byte_at(bytes, idx, end, COLON) {
        let next = after_optional_number(bytes, idx + 1, end);
        if byte_at(bytes, next, end, COLON) {
            match number_at(bytes, next + 1, end) {
                Some((base, last)) => match as_i32(base) {
                    Some(key) => Some((Some(key), last)),
                    None => None,
                },
                None => None,
            }
        } else {
            Some((None, next))
        }
    } else {
        Some((None, idx))
    }
}

/// The key press that a sequence of the first form denotes.
pub open spec fn csi_u(bytes: Seq<u8>) -> Option<ParsedKittySequence> {
    let end = bytes.len() - 1;
    if bytes.len() >= 4 && starts_csi(bytes) && bytes[end] == 0x75 {
        match number_at(bytes, 2, end) {
            Some((value, idx)) => match as_i32(value) {
                Some(codepoint) => match base_layout_at(bytes, idx, end) {
                    Some((base_layout_key, next)) => match modifier_and_event(
                        bytes,
                        next,
                        end,
                        end,
                    ) {
                        Some(sent) => Some(
                            ParsedKittySequence {
                                codepoint,
                                base_layout_key,
                                modifier: (sent - 1) as u32,
                            },
                        ),
                        None => None,
                    },
                    None => None,
                },
                None => None,
            },
            None => None,
        }
    } else {
        None
    }
}

/// The modifier as sent of a sequence `ESC [ 1 ; modifier [: event] final`,
/// where one byte, the final one, follows the fields.
pub open spec fn one_modifier(bytes: Seq<u8>) -> Option<u32> {
    if starts_csi_one(bytes) {
        match number_at(bytes, 4, bytes.len() as int) {
            Some((value, next)) => match after_event(bytes, next, bytes.len() as int) {
                Some(last) => if last + 1 == bytes.len() && value != 0 {
                    Some(value)
                } else {
                    None
                },
                None => None,
            },
            None => None,
        }
    } else {
        None
    }
}

/// The arrow key that a final byte names.
pub open spec fn arrow_key(b: u8) -> Option<i32> {
    if b == 0x41 {
        Some(ARROW_UP)
    } else if b == 0x42 {
        Some(ARROW_DOWN)
    } else if b == 0x43 {
        Some(ARROW_RIGHT)
    } else if b == 0x44 {
        Some(ARROW_LEFT)
    } else {
        None
    }
}

/// Home or End, as a final byte names it.
pub open spec fn home_end_key(b: u8) -> Option<i32> {
    if b == 0x48 {
        Some(FUNC_HOME)
    } else if b == 0x46 {
        Some(FUNC_END)
    } else {
        None
    }
}

/// The functional key with the given number.
pub open spec fn functional_key(number: u32) -> Option<i32> {
    if number == 2 {
        Some(FUNC_INSERT)
    } else if number == 3 {
        Some(FUNC_DELETE)
    } else if number == 5 {
        Some(FUNC_PAGE_UP)
    } else if number == 6 {
        Some(FUNC_PAGE_DOWN)
    } else if number == 7 {
        Some(FUNC_HOME)
    } else if number == 8 {
        Some(FUNC_END)
    } else {
        None
    }
}

/// A key press without a base-layout key.
pub open spec fn plain_key(key: Option<i32>, sent: u32) -> Option<ParsedKittySequence> {
    match key {
        Some(codepoint) => Some(
            ParsedKittySequence { codepoint, base_layout_key: None, modifier: (sent - 1) as u32 },
        ),
        None => None,
    }
}

/// The key press that a sequence of the arrow form denotes.
pub open spec fn arrow_sequence(bytes: Seq<u8>) -> Option<ParsedKittySequence> {
    match one_modifier(bytes) {
        Some(sent) => plain_key(arrow_key(bytes.last()), sent),
        None => None,
    }
}

/// The key press that a sequence of the Home and End form denotes.
pub open spec fn home_end_sequence(bytes: Seq<u8>) -> Option<ParsedKittySequence> {
    match one_modifier(bytes) {
        Some(sent) => plain_key(home_end_key(bytes.last()), sent),
        None => None,
    }
}

/// The key press that a sequence of the functional form denotes.
pub open spec fn functional_sequence(bytes: Seq<u8>) -> Option<ParsedKittySequence> {
    let end = bytes.len() - 1;
    if bytes.len() >= 4 && starts_csi(bytes) && bytes[end] == 0x7e {
        match number_at(bytes, 2, end) {
            Some((number, idx)) => match modifier_and_event(bytes, idx, end, end) {
                Some(sent) => plain_key(functional_key(number), sent),
                None => None,
            },
            None => None,
        }
    } else {
        None
    }
}

/// The key press that a sequence denotes: the first of the four forms that
/// it has.
pub open spec fn kitty_sequence(bytes: Seq<u8>) -> Option<ParsedKittySequence> {
    if csi_u(bytes) is Some {
        csi_u(bytes)
    } else if arrow_sequence(bytes) is Some {
        arrow_sequence(bytes)
    } else if functional_sequence(bytes) is Some {
        functional_sequence(bytes)
    } else {
        home_end_sequence(bytes)
    }
}

/// Whether a key press is the expected one: the modifiers agree, the lock
/// keys apart, and the key or its base-layout key is the expected key.
pub open spec fn key_matches(parsed: ParsedKittySequence, codepoint: i32, modifier: u32) -> bool {
    parsed.modifier & !LOCK_MASK == modifier & !LOCK_MASK && (parsed.codepoint == codepoint
        || parsed.base_layout_key == Some(codepoint))
}

/// Whether `data` is a Kitty sequence for the key `expected_codepoint` with
/// the modifiers `expected_modifier`.
pub fn matches_kitty_sequence(data: String, expected_codepoint: i32, expected_modifier: u32) -> (matches:
    bool)
    ensures
        matches == match kitty_sequence(encode_utf8(data@)) {
            Some(parsed) => key_matches(parsed, expected_codepoint, expected_modifier),
            None => false,
        },
{
    let parsed = match parse_kitty_sequence(data.as_str()) {
        Some(parsed) => parsed,
        None => {
            return false;
        },
    };
    let actual_mod = parsed.modifier & !LOCK_MASK;
    let expected_mod = expected_modifier & !LOCK_MASK;
    if actual_mod != expected_mod {
        return false;
    }
    if parsed.codepoint == expected_codepoint {
        return true;
    }
    match parsed.base_layout_key {
        Some(key) => key == expected_codepoint,
        None => false,
    }
}

/// Reads a Kitty sequence in any of its four forms.
pub fn parse_kitty_sequence(data: &str) -> (parsed: Option<ParsedKittySequence>)
    ensures
        parsed == kitty_sequence(data.spec_bytes()),
{
    match parse_csi_u(data) {
        Some(parsed) => {
            return Some(parsed);
        },
        None => {},
    }
    match parse_arrow_sequence(data) {
        Some(parsed) => {
            return Some(parsed);
        },
        None => {},
    }
    match parse_functional_sequence(data) {
        Some(parsed) => {
            return Some(parsed);
        },
        None => {},
    }
    parse_home_end_sequence(data)
}

/// Reads the modifier and event fields at `idx`, which have to reach up to
/// `stop`.
fn parse_modifier_and_event(bytes: &[u8], idx: usize, end: usize, stop: usize) -> (sent: Option<u32>)
    requires
        idx <= end <= bytes.len(),
    ensures
        sent == modifier_and_event(bytes@, idx as int, end as int, stop as int),
{
    let mut idx = idx;
    let mod_value: u32 = if idx < end && bytes[idx] == SEMI {
        match parse_digits(bytes, idx + 1, end) {
            Some((value, next)) => {
                idx = next;
                value
            },
            None => {
                return None;
            },
        }
    } else {
        1
    };
    if idx < end && bytes[idx] == COLON {
        match parse_digits(bytes, idx + 1, end) {
            Some((_, next)) => {
                idx = next;
            },
            None => {
                return None;
            },
        }
    }
    if idx != stop || mod_value == 0 {
        return None;
    }
    Some(mod_value)
}

/// Reads `ESC [ codepoint [: [shifted] [: base]] [; modifier [: event]] u`.
pub fn parse_csi_u(data: &str) -> (parsed: Option<ParsedKittySequence>)
    ensures
        parsed == csi_u(data.spec_bytes()),
{
    let bytes = data.as_bytes();
    if bytes.len() < 4 || bytes[0] != ESC || bytes[1] != OPEN_BRACKET || bytes[bytes.len() - 1]
        != 0x75 {
        return None;
    }
    let end: usize = bytes.len() - 1;
    let (value, mut idx) = match parse_digits(bytes, 2, end) {
        Some(found) => found,
        None => {
            return None;
        },
    };
    let codepoint = match to_i32(value) {
        Some(codepoint) => codepoint,
        None => {
            return None;
        },
    };
    let mut base_layout_key: Option<i32> = None;
    if idx < end && bytes[idx] == COLON {
        idx += 1;
        let (_, next) = parse_optional_digits(bytes, idx, end);
        idx = next;
        if idx < end && bytes[idx] == COLON {
            idx += 1;
            let (base, last) = match parse_digits(bytes, idx, end) {
                Some(found) => found,
                None => {
                    return None;
                },
            };
            match to_i32(base) {
                Some(key) => {
                    base_layout_key = Some(key);
                },
                None => {
                    return None;
                },
            }
            idx = last;
        }
    }
    match parse_modifier_and_event(bytes, idx, end, end) {
        Some(sent) => Some(ParsedKittySequence { codepoint, base_layout_key, modifier: sent - 1 }),
        None => None,
    }
}

/// Reads the modifier of `ESC [ 1 ; modifier [: event] final`.
fn parse_one_modifier(bytes: &[u8]) -> (sent: Option<u32>)
    ensures
        sent == one_modifier(bytes@),
        sent is Some ==> bytes.len() >= 5,
{
    if bytes.len() < 4 || bytes[0] != ESC || bytes[1] != OPEN_BRACKET || bytes[2] != 0x31
        || bytes[3] != SEMI {
        return None;
    }
    let end: usize = bytes.len();
    let (mod_value, mut idx) = match parse_digits(bytes, 4, end) {
        Some(found) => found,
        None => {
            return None;
        },
    };
    if idx < end && bytes[idx] == COLON {
        match parse_digits(bytes, idx + 1, end) {
            Some((_, next)) => {
                idx = next;
            },
            None => {
                return None;
            },
        }
    }
    if end - idx != 1 || mod_value == 0 {
        return None;
    }
    Some(mod_value)
}

/// Reads `ESC [ 1 ; modifier [: event] A|B|C|D`.
pub fn parse_arrow_sequence(data: &str) -> (parsed: Option<ParsedKittySequence>)
    ensures
        parsed == arrow_sequence(data.spec_bytes()),
{
    let bytes = data.as_bytes();
    let sent = match parse_one_modifier(bytes) {
        Some(sent) => sent,
        None => {
            return None;
        },
    };
    let last: u8 = bytes[bytes.len() - 1];
    let codepoint = if last == 0x41 {
        ARROW_UP
    } else if last == 0x42 {
        ARROW_DOWN
    } else if last == 0x43 {
        ARROW_RIGHT
    } else if last == 0x44 {
        ARROW_LEFT
    } else {
        return None;
    };
    Some(ParsedKittySequence { codepoint, base_layout_key: None, modifier: sent - 1 })
}

/// Reads `ESC [ number [; modifier [: event]] ~`.
pub fn parse_functional_sequence(data: &str) -> (parsed: Option<ParsedKittySequence>)
    ensures
        parsed == functional_sequence(data.spec_bytes()),
{
    let bytes = data.as_bytes();
    if bytes.len() < 4 || bytes[0] != ESC || bytes[1] != OPEN_BRACKET || bytes[bytes.len() - 1]
        != 0x7e {
        return None;
    }
    let end: usize = bytes.len() - 1;
    let (key_num, idx) = match parse_digits(bytes, 2, end) {
        Some(found) => found,
        None => {
            return None;
        },
    };
    let sent = match parse_modifier_and_event(bytes, idx, end, end) {
        Some(sent) => sent,
        None => {
            return None;
        },
    };
    let codepoint = if key_num == 2 {
        FUNC_INSERT
    } else if key_num == 3 {
        FUNC_DELETE
    } else if key_num == 5 {
        FUNC_PAGE_UP
    } else if key_num == 6 {
        FUNC_PAGE_DOWN
    } else if key_num == 7 {
        FUNC_HOME
    } else if key_num == 8 {
        FUNC_END
    } else {
        return None;
    };
    Some(ParsedKittySequence { codepoint, base_layout_key: None, modifier: sent - 1 })
}

/// Reads `ESC [ 1 ; modifier [: event] H|F`.
pub fn parse_home_end_sequence(data: &str) -> (parsed: Option<ParsedKittySequence>)
    ensures
        parsed == home_end_sequence(data.spec_bytes()),
{
    let bytes = data.as_bytes();
    let sent = match parse_one_modifier(bytes) {
        Some(sent) => sent,
        None => {
            return None;
        },
    };
    let last: u8 = bytes[bytes.len() - 1];
    let codepoint = if last == 0x48 {
        FUNC_HOME
    } else if last == 0x46 {
        FUNC_END
    } else {
        return None;
    };
    Some(ParsedKittySequence { codepoint, base_layout_key: None, modifier: sent - 1 })
}

/// A string of digits denotes at least what any shorter start of it
/// denotes.
proof fn lemma_value_grows(bytes: Seq<u8>, idx: int, mid: int, stop: int)
    requires
        0 <= idx <= mid <= stop <= bytes.len(),
        forall|i: int| idx <= i < stop ==> is_digit(#[trigger] bytes[i]),
    ensures
        digits_value(bytes.subrange(idx, mid)) <= digits_value(bytes.subrange(idx, stop)),
    decreases stop - mid,
{
    if mid < stop {
        let longer = bytes.subrange(idx, mid + 1);
        assert(longer.drop_last() =~= bytes.subrange(idx, mid));
        lemma_value_grows(bytes, idx, mid + 1, stop);
    }
}

/// Up to where the digits end, there are only digits.
proof fn lemma_digits_end(bytes: Seq<u8>, idx: int, end: int)
    requires
        0 <= idx <= end <= bytes.len(),
    ensures
        idx <= digits_end(bytes, idx, end) <= end,
        forall|i: int| idx <= i < digits_end(bytes, idx, end) ==> is_digit(#[trigger] bytes[i]),
    decreases end - idx,
{
    if idx < end && is_digit(bytes[idx]) {
        lemma_digits_end(bytes, idx + 1, end);
    }
}

/// Reads the number written at `idx`: one digit at least, then digits as
/// far as they go before `end`. Fails if no digit stands at `idx` or the
/// number does not fit in 32 bits.
pub fn parse_digits(bytes: &[u8], idx: usize, end: usize) -> (found: Option<(u32, usize)>)
    requires
        end <= bytes.len(),
    ensures
        match found {
            Some((value, next)) => number_at(bytes@, idx as int, end as int) == Some(
                (value, next as int),
            ),
            None => number_at(bytes@, idx as int, end as int) is None,
        },
        found matches Some((_, next)) ==> idx < next <= end,
{
    if idx >= end || !(0x30 <= bytes[idx] && bytes[idx] <= 0x39) {
        return None;
    }
    let mut pos: usize = idx;
    let mut value: u32 = 0;
    assert(bytes@.subrange(idx as int, idx as int) =~= Seq::<u8>::empty());
    while pos < end && 0x30 <= bytes[pos] && bytes[pos] <= 0x39
        invariant
            idx <= pos <= end <= bytes.len(),
            idx < end,
            is_digit(bytes[idx as int]),
            digits_end(bytes@, pos as int, end as int) == digits_end(bytes@, idx as int, end as int),
            value == digits_value(bytes@.subrange(idx as int, pos as int)),
        decreases end - pos,
    {
        let digit: u32 = (bytes[pos] - 0x30) as u32;
        proof {
            let longer = bytes@.subrange(idx as int, pos + 1);
            assert(longer.drop_last() =~= bytes@.subrange(idx as int, pos as int));
            assert(longer.last() == bytes[pos as int]);
            assert(digits_end(bytes@, pos as int, end as int) == digits_end(
                bytes@,
                pos + 1,
                end as int,
            ));
            lemma_digits_end(bytes@, pos + 1, end as int);
        }
        let next = match value.checked_mul(10) {
            Some(tens) => tens.checked_add(digit),
            None => None,
        };
        match next {
            Some(v) => {
                value = v;
            },
            None => {
                proof {
                    lemma_digits_end(bytes@, idx as int, end as int);
                    lemma_value_grows(
                        bytes@,
                        idx as int,
                        pos + 1,
                        digits_end(bytes@, idx as int, end as int),
                    );
                }
                return None;
            },
        }
        pos += 1;
    }
    Some((value, pos))
}

/// Reads the number written at `idx`, if one is written there, and says
/// where to go on.
pub fn parse_optional_digits(bytes: &[u8], idx: usize, end: usize) -> (found: (Option<u32>, usize))
    requires
        end <= bytes.len(),
    ensures
        found.1 == after_optional_number(bytes@, idx as int, end as int),
        match found.0 {
            Some(value) => number_at(bytes@, idx as int, end as int) == Some(
                (value, found.1 as int),
            ),
            None => number_at(bytes@, idx as int, end as int) is None,
        },
        idx <= found.1,
        idx <= end ==> found.1 <= end,
{
    match parse_digits(bytes, idx, end) {
        Some((value, next)) => (Some(value), next),
        None => (None, idx),
    }
}

/// `value` as a signed number, if it fits.
pub fn to_i32(value: u32) -> (signed: Option<i32>)
    ensures
        signed == as_i32(value),
{
    if value <= 0x7fff_ffff {
        Some(value as i32)
    } else {
        None
    }
}

} // verus!
