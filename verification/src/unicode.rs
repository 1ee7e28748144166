//! The Unicode capabilities that the text engine takes from outside:
//! grapheme-cluster segmentation, display width and UTF-8 validation.
//!
//! Nothing in this file is proved. Each function wraps one outside call and
//! states what that call is relied upon to do.

use bstr::ByteSlice;
use unicode_width::UnicodeWidthStr;
use vstd::prelude::*;
use vstd::string::*;
use vstd::utf8::*;

verus! {

/// The byte offsets at which the grapheme clusters of `bytes` end, in order,
/// as `bstr` segments them.
pub uninterp spec fn grapheme_ends(bytes: Seq<u8>) -> Seq<usize>;

/// The display width in columns of `text`, as `unicode-width` measures it.
pub uninterp spec fn unicode_width(text: Seq<char>) -> usize;

/// What is relied upon of a list of cluster ends: every cluster is non-empty
/// and lies inside the buffer, the clusters follow one another up to the end
/// of the buffer, and in well-formed UTF-8 no cluster ends inside a
/// character.
pub open spec fn cluster_ends_ok(bytes: Seq<u8>, ends: Seq<usize>) -> bool {
    &&& forall|k: int| 0 <= k < ends.len() ==> 0 < #[trigger] ends[k] <= bytes.len()
    &&& forall|j: int, k: int| 0 <= j < k < ends.len() ==> #[trigger] ends[j] < #[trigger] ends[k]
    &&& bytes.len() > 0 ==> ends.len() > 0 && ends[ends.len() - 1] == bytes.len()
    &&& valid_utf8(bytes) ==> forall|k: int|
        0 <= k < ends.len() ==> is_char_boundary(bytes, #[trigger] ends[k] as int)
}

/// `bstr::ByteSlice::grapheme_indices`, keeping the end offset of each item.
///
/// The iterator yields `(start, end, cluster)` with `start` equal to the
/// previous `end` (0 at first) and `end - start > 0` bytes consumed from the
/// front of what is left, and it goes on until nothing is left; given valid
/// UTF-8 each cluster is the `&str` at exactly those offsets.
#[verifier::external_body]
pub(crate) fn cluster_ends(bytes: &[u8]) -> (ends: Vec<usize>)
    ensures
        ends@ == grapheme_ends(bytes@),
        cluster_ends_ok(bytes@, ends@),
{
    bytes.grapheme_indices().map(|(_, end, _)| end).collect()
}

/// `unicode_width::UnicodeWidthStr::width`: the displayed width of a string
/// in columns, a function of its characters alone.
#[verifier::external_body]
pub(crate) fn display_width(text: &str) -> (width: usize)
    ensures
        width == unicode_width(text@),
{
    UnicodeWidthStr::width(text)
}

/// `core::str::from_utf8`: the string slice over `bytes` when they are valid
/// UTF-8, nothing otherwise.
#[verifier::external_body]
pub(crate) fn str_from_utf8(bytes: &[u8]) -> (text: Option<&str>)
    ensures
        text is Some <==> valid_utf8(bytes@),
        text matches Some(s) ==> s.spec_bytes() == bytes@,
{
    core::str::from_utf8(bytes).ok()
}

} // verus!
