//! Escape-sequence scanner.
//!
//! An escape sequence starts with ESC and is either a CSI sequence
//! (`ESC [ ... final`) or an OSC sequence (`ESC ] ... BEL` or
//! `ESC ] ... ESC \`). Anything else that starts with ESC is not a sequence.

use vstd::prelude::*;

verus! {

pub const ESC: u8 = 0x1b;

pub const BEL: u8 = 0x07;

pub const OPEN_BRACKET: u8 = 0x5b;

pub const CLOSE_BRACKET: u8 = 0x5d;

pub const BACKSLASH: u8 = 0x5c;

/// The bytes that end a CSI sequence: `m`, `G`, `K`, `H`, `J`.
pub open spec fn is_csi_final(b: u8) -> bool {
    b == 0x6d || b == 0x47 || b == 0x4b || b == 0x48 || b == 0x4a
}

/// The index just past the first CSI final byte at or after `from`, if any.
pub open spec fn csi_end(bytes: Seq<u8>, from: int) -> Option<int>
    decreases bytes.len() - from,
{
    if from < 0 || from >= bytes.len() {
        None
    } else if is_csi_final(bytes[from]) {
        Some(from + 1)
    } else {
        csi_end(bytes, from + 1)
    }
}

/// The index just past the first OSC terminator (BEL, or ESC followed by a
/// backslash) that starts at or after `from`, if any.
pub open spec fn osc_end(bytes: Seq<u8>, from: int) -> Option<int>
    decreases bytes.len() - from,
{
    if from < 0 || from >= bytes.len() {
        None
    } else if bytes[from] == BEL {
        Some(from + 1)
    } else if bytes[from] == ESC && from + 1 < bytes.len() && bytes[from + 1] == BACKSLASH {
        Some(from + 2)
    } else {
        osc_end(bytes, from + 1)
    }
}

/// The index just past the escape sequence that starts at `pos`, if one
/// starts there.
pub open spec fn escape_end(bytes: Seq<u8>, pos: int) -> Option<int> {
    if 0 <= pos && pos + 1 < bytes.len() && bytes[pos] == ESC {
        if bytes[pos + 1] == OPEN_BRACKET {
            csi_end(bytes, pos + 2)
        } else if bytes[pos + 1] == CLOSE_BRACKET {
            osc_end(bytes, pos + 2)
        } else {
            None
        }
    } else {
        None
    }
}

/// The byte length of the escape sequence that starts at `pos`, if one
/// starts there.
pub open spec fn escape_len(bytes: Seq<u8>, pos: int) -> Option<int> {
    match escape_end(bytes, pos) {
        Some(end) => Some(end - pos),
        None => None,
    }
}

/// The first position at or after `from` at which an escape sequence starts.
pub open spec fn next_escape(bytes: Seq<u8>, from: int) -> Option<int>
    decreases bytes.len() - from,
{
    if from < 0 || from >= bytes.len() {
        None
    } else if escape_end(bytes, from) is Some {
        Some(from)
    } else {
        next_escape(bytes, from + 1)
    }
}

pub proof fn lemma_csi_end_bounds(bytes: Seq<u8>, from: int)
    requires
        0 <= from,
    ensures
        csi_end(bytes, from) matches Some(end) ==> from < end <= bytes.len() && is_csi_final(
            bytes[end - 1],
        ),
    decreases bytes.len() - from,
{
    if from < bytes.len() && !is_csi_final(bytes[from]) {
        lemma_csi_end_bounds(bytes, from + 1);
    }
}

pub proof fn lemma_osc_end_bounds(bytes: Seq<u8>, from: int)
    requires
        0 <= from,
    ensures
        osc_end(bytes, from) matches Some(end) ==> from < end <= bytes.len() && (bytes[end - 1]
            == BEL || bytes[end - 1] == BACKSLASH),
    decreases bytes.len() - from,
{
    if from < bytes.len() && bytes[from] != BEL && !(bytes[from] == ESC && from + 1 < bytes.len()
        && bytes[from + 1] == BACKSLASH) {
        lemma_osc_end_bounds(bytes, from + 1);
    }
}

/// An escape sequence is at least three bytes long, lies inside the buffer
/// and ends with an ASCII byte.
pub proof fn lemma_escape_end_bounds(bytes: Seq<u8>, pos: int)
    ensures
        escape_end(bytes, pos) matches Some(end) ==> 0 <= pos && pos + 3 <= end <= bytes.len()
            && bytes[pos] == ESC && bytes[end - 1] < 0x80,
{
    if 0 <= pos {
        lemma_csi_end_bounds(bytes, pos + 2);
        lemma_osc_end_bounds(bytes, pos + 2);
    }
}

pub proof fn lemma_next_escape_bounds(bytes: Seq<u8>, from: int)
    requires
        0 <= from,
    ensures
        next_escape(bytes, from) matches Some(p) ==> from <= p < bytes.len() && escape_end(
            bytes,
            p,
        ) is Some,
        forall|q: int| from <= q < next_escape_or_end(bytes, from) ==> escape_end(bytes, q) is None,
    decreases bytes.len() - from,
{
    if from < bytes.len() && escape_end(bytes, from) is None {
        lemma_next_escape_bounds(bytes, from + 1);
    }
}

/// The first position at or after `from` at which an escape sequence starts,
/// or the length of the buffer if there is none.
pub open spec fn next_escape_or_end(bytes: Seq<u8>, from: int) -> int {
    match next_escape(bytes, from) {
        Some(p) => p,
        None => bytes.len() as int,
    }
}

/// Measures the escape sequence that starts at `pos`.
///
/// Returns its byte length, or `None` when `pos` is out of range, the byte
/// there is not ESC, the byte after it opens neither a CSI nor an OSC
/// sequence, or the sequence is not terminated inside the buffer.
pub fn extract_ansi_code(bytes: &[u8], pos: usize) -> (r: Option<usize>)
    ensures
        match r {
            Some(len) => escape_len(bytes@, pos as int) == Some(len as int),
            None => escape_len(bytes@, pos as int) is None,
        },
{
    if pos >= bytes.len() || bytes[pos] != ESC {
        return None;
    }
    if pos + 1 >= bytes.len() {
        return None;
    }
    let introducer: u8 = bytes[pos + 1];
    if introducer == OPEN_BRACKET {
        let mut j: usize = pos + 2;
        while j < bytes.len()
            invariant
                pos + 2 <= j <= bytes.len(),
                bytes[pos as int] == ESC,
                bytes[pos + 1] == OPEN_BRACKET,
                csi_end(bytes@, j as int) == csi_end(bytes@, pos + 2),
            decreases bytes.len() - j,
        {
            let b: u8 = bytes[j];
            if b == 0x6d || b == 0x47 || b == 0x4b || b == 0x48 || b == 0x4a {
                return Some(j + 1 - pos);
            }
            j += 1;
        }
        None
    } else if introducer == CLOSE_BRACKET {
        let mut j: usize = pos + 2;
        while j < bytes.len()
            invariant
                pos + 2 <= j <= bytes.len(),
                bytes[pos as int] == ESC,
                bytes[pos + 1] == CLOSE_BRACKET,
                osc_end(bytes@, j as int) == osc_end(bytes@, pos + 2),
            decreases bytes.len() - j,
        {
            if bytes[j] == BEL {
                return Some(j + 1 - pos);
            }
            if bytes[j] == ESC && j + 1 < bytes.len() && bytes[j + 1] == BACKSLASH {
                return Some(j + 2 - pos);
            }
            j += 1;
        }
        None
    } else {
        None
    }
}

/// Finds the first position at or after `pos` at which an escape sequence
/// starts.
pub fn next_ansi_start(bytes: &[u8], pos: usize) -> (r: Option<usize>)
    ensures
        match r {
            Some(p) => next_escape(bytes@, pos as int) == Some(p as int),
            None => next_escape(bytes@, pos as int) is None,
        },
{
    let mut p: usize = pos;
    while p < bytes.len()
        invariant
            pos <= p,
            next_escape(bytes@, p as int) == next_escape(bytes@, pos as int),
        decreases bytes.len() - p,
    {
        if bytes[p] == ESC && extract_ansi_code(bytes, p).is_some() {
            return Some(p);
        }
        p += 1;
    }
    None
}

} // verus!
