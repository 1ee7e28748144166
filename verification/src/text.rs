//! The text operations as a host calls them: on text that comes as a string
//! or as raw bytes that have to be valid UTF-8.

use crate::overlay::{
    after_part, after_window, before_part, extract_segments_impl, holds, ExtractSegmentsResult,
};
use crate::segment::{scan, total_width};
use crate::slice::{slice_with_width_impl, sliced, SliceResult};
use crate::truncate::{truncate_text, truncated};
use crate::unicode::{grapheme_ends, str_from_utf8};
use crate::width::clamped;
use vstd::prelude::*;
use vstd::string::*;
use vstd::utf8::*;

verus! {

broadcast use vstd::utf8::encode_utf8_valid_utf8;

/// Text handed in by the host: a string, or bytes that are meant to be
/// UTF-8.
#[derive(Debug)]
pub enum TextInput {
    Utf8(String),
    Bytes(Vec<u8>),
}

/// Why a text operation failed.
#[derive(Debug, PartialEq, Eq, Clone, Copy)]
pub enum TextError {
    /// The bytes handed in are not valid UTF-8.
    InvalidEncoding,
}

impl TextError {
    /// What went wrong, in words.
    pub fn message(&self) -> (text: String)
        ensures
            text@ == "Invalid UTF-8"@,
    {
        "Invalid UTF-8".to_owned()
    }
}

impl TextInput {
    /// The bytes of the text.
    pub open spec fn bytes(&self) -> Seq<u8> {
        match self {
            TextInput::Utf8(text) => encode_utf8(text@),
            TextInput::Bytes(bytes) => bytes@,
        }
    }

    /// Whether the text is valid UTF-8. A string always is.
    pub open spec fn is_valid(&self) -> bool {
        valid_utf8(self.bytes())
    }

    /// The text as a string slice, if it is valid UTF-8.
    pub fn as_str(&self) -> (text: Result<&str, TextError>)
        ensures
            text is Ok <==> self.is_valid(),
            text matches Ok(s) ==> s.spec_bytes() == self.bytes(),
    {
        match self {
            TextInput::Utf8(text) => Ok(text.as_str()),
            TextInput::Bytes(bytes) => match str_from_utf8(bytes.as_slice()) {
                Some(text) => Ok(text),
                None => Err(TextError::InvalidEncoding),
            },
        }
    }

    /// The text as bytes, valid or not.
    pub fn as_ref(&self) -> (bytes: &[u8])
        ensures
            bytes@ == self.bytes(),
    {
        match self {
            TextInput::Utf8(text) => text.as_str().as_bytes(),
            TextInput::Bytes(bytes) => bytes.as_slice(),
        }
    }
}

/// Truncates `text` to `max_width` columns, with `ellipsis` at the cut and,
/// if `pad` is set, spaces up to `max_width`.
///
/// Fails with `InvalidEncoding` if and only if the text or the ellipsis is
/// not valid UTF-8.
pub fn truncate_to_width(text: &TextInput, max_width: u32, ellipsis: &TextInput, pad: bool) -> (result:
    Result<String, TextError>)
    ensures
        result is Ok <==> text.is_valid() && ellipsis.is_valid(),
        result matches Ok(out) ==> encode_utf8(out@) == truncated(
            text.bytes(),
            scan(text.bytes()),
            max_width as nat,
            ellipsis.bytes(),
            scan(ellipsis.bytes()),
            grapheme_ends(ellipsis.bytes()),
            pad,
        ),
        result matches Ok(out) ==> (total_width(scan(text.bytes())) <= max_width && !pad
            ==> encode_utf8(out@) == text.bytes()),
{
    let text = match text.as_str() {
        Ok(text) => text,
        Err(e) => {
            return Err(e);
        },
    };
    let ellipsis = match ellipsis.as_str() {
        Ok(ellipsis) => ellipsis,
        Err(e) => {
            return Err(e);
        },
    };
    Ok(truncate_text(text, max_width, ellipsis, pad))
}

/// Slices `length` columns from column `start_col` on out of `line`.
///
/// Fails with `InvalidEncoding` if and only if the line is not valid UTF-8.
pub fn slice_with_width(line: &TextInput, start_col: u32, length: u32, strict: bool) -> (result:
    Result<SliceResult, TextError>)
    ensures
        result is Ok <==> line.is_valid(),
        result matches Ok(slice) ==> {
            let whole = sliced(
                line.bytes(),
                scan(line.bytes()),
                start_col as nat,
                (start_col + length) as nat,
                strict,
            );
            &&& encode_utf8(slice.text@) == whole.text
            &&& slice.width == clamped(whole.width)
            &&& strict ==> slice.width <= length
        },
{
    match line.as_str() {
        Ok(line) => Ok(slice_with_width_impl(line, start_col, length, strict)),
        Err(e) => Err(e),
    }
}

/// Extracts from `line` the part before an overlay, the columns below
/// `before_end`, and the part after it, `after_len` columns from
/// `after_start` on, which starts with the styling in effect there.
///
/// Fails with `InvalidEncoding` if and only if the line is not valid UTF-8.
pub fn extract_segments(
    line: &TextInput,
    before_end: u32,
    after_start: u32,
    after_len: u32,
    strict_after: bool,
) -> (result: Result<ExtractSegmentsResult, TextError>)
    ensures
        result is Ok <==> line.is_valid(),
        result matches Ok(parts) ==> holds(
            parts,
            before_part(line.bytes(), scan(line.bytes()), before_end as nat),
            after_part(
                line.bytes(),
                scan(line.bytes()),
                after_window(after_start, after_len, strict_after),
            ),
        ),
        result matches Ok(parts) ==> (after_len == 0 ==> parts.after@.len() == 0
            && parts.after_width == 0),
{
    match line.as_str() {
        Ok(line) => Ok(
            extract_segments_impl(line, before_end, after_start, after_len, strict_after),
        ),
        Err(e) => Err(e),
    }
}

} // verus!
