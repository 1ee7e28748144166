//! Column slicer: the part of a line that lies in a range of columns.

use crate::segment::{
    boundary, column_at, lemma_pieces_are_prefix, pieces, scan, scan_line, segments_fit,
    segments_follow, total_width, Segment,
};
use crate::utf8::{push_text, str_piece};
use crate::width::{add_columns, clamp_u32, clamped, saturated};
use vstd::prelude::*;
use vstd::string::*;
use vstd::utf8::*;

verus! {

broadcast use vstd::utf8::encode_utf8_valid_utf8;

/// A slice of a line: its text, escape sequences included, and the columns
/// that it takes.
#[derive(Debug)]
pub struct SliceResult {
    pub text: String,
    pub width: u32,
}

/// What the slicer has put together after some segments of a line: the text
/// of the slice so far, the escape sequences met before the range and not
/// yet written, and the columns of the clusters taken.
pub struct Sliced {
    pub text: Seq<u8>,
    pub pending: Seq<u8>,
    pub width: nat,
}

/// Whether a cluster of `width` columns that starts at column `col` belongs
/// to the columns from `start` up to `end`: it starts inside the range and,
/// if `strict`, also ends inside it.
pub open spec fn cluster_taken(col: nat, width: nat, start: nat, end: nat, strict: bool) -> bool {
    start <= col < end && (!strict || col + width <= end)
}

/// What one segment that starts at column `col` adds to a slice of the
/// columns from `start` up to `end`.
///
/// An escape sequence inside the range is written at once; one before the
/// range is kept back. A cluster that is taken is written after everything
/// kept back until then.
pub open spec fn slice_step(
    line: Seq<u8>,
    state: Sliced,
    segment: Segment,
    col: nat,
    start: nat,
    end: nat,
    strict: bool,
) -> Sliced {
    if segment.escape {
        if start <= col < end {
            Sliced { text: state.text + segment.bytes(line), ..state }
        } else if col < start {
            Sliced { pending: state.pending + segment.bytes(line), ..state }
        } else {
            state
        }
    } else if cluster_taken(col, segment.width as nat, start, end, strict) {
        Sliced {
            text: state.text + state.pending + segment.bytes(line),
            pending: Seq::empty(),
            width: state.width + segment.width as nat,
        }
    } else {
        state
    }
}

/// The slice after the first `n` segments.
pub open spec fn sliced_upto(
    line: Seq<u8>,
    segments: Seq<Segment>,
    n: int,
    start: nat,
    end: nat,
    strict: bool,
) -> Sliced
    decreases n,
{
    if n <= 0 {
        Sliced { text: Seq::empty(), pending: Seq::empty(), width: 0 }
    } else {
        slice_step(
            line,
            sliced_upto(line, segments, n - 1, start, end, strict),
            segments[n - 1],
            column_at(segments, n - 1),
            start,
            end,
            strict,
        )
    }
}

/// The slice of the columns from `start` up to `end` of a line with the
/// given segments.
pub open spec fn sliced(
    line: Seq<u8>,
    segments: Seq<Segment>,
    start: nat,
    end: nat,
    strict: bool,
) -> Sliced {
    sliced_upto(line, segments, segments.len() as int, start, end, strict)
}

/// Slices the columns from `start_col` on, `length` of them, out of a line
/// whose segments are given.
pub fn slice_segments(
    line: &str,
    segments: &Vec<Segment>,
    start_col: u32,
    length: u32,
    strict: bool,
) -> (result: SliceResult)
    requires
        segments_fit(line.spec_bytes(), segments@),
    ensures
        encode_utf8(result.text@) == sliced(
            line.spec_bytes(),
            segments@,
            start_col as nat,
            (start_col + length) as nat,
            strict,
        ).text,
        result.width == clamped(
            sliced(
                line.spec_bytes(),
                segments@,
                start_col as nat,
                (start_col + length) as nat,
                strict,
            ).width,
        ),
        strict ==> result.width <= length,
{
    let start: u64 = start_col as u64;
    let end: u64 = start + length as u64;
    let mut text = String::new();
    let mut pending = String::new();
    let mut width: u64 = 0;
    let mut col: u64 = 0;
    let mut k: usize = 0;
    let ghost bytes = line.spec_bytes();
    assert(encode_utf8(text@) =~= Seq::<u8>::empty());
    while k < segments.len()
        invariant
            k <= segments.len(),
            bytes == line.spec_bytes(),
            segments_fit(bytes, segments@),
            start == start_col,
            end == start_col + length,
            col == saturated(column_at(segments@, k as int)),
            width == saturated(
                sliced_upto(bytes, segments@, k as int, start as nat, end as nat, strict).width,
            ),
            encode_utf8(text@) == sliced_upto(
                bytes,
                segments@,
                k as int,
                start as nat,
                end as nat,
                strict,
            ).text,
            encode_utf8(pending@) == sliced_upto(
                bytes,
                segments@,
                k as int,
                start as nat,
                end as nat,
                strict,
            ).pending,
        decreases segments.len() - k,
    {
        let segment = segments[k];
        assert(segment.fits(bytes));
        let piece = str_piece(line, segment.start, segment.end);
        let in_range = start <= col && col < end;
        if segment.escape {
            if in_range {
                push_text(&mut text, piece);
            } else if col < start {
                push_text(&mut pending, piece);
            }
        } else {
            let fits = !strict || add_columns(col, segment.width) <= end;
            if in_range && fits {
                push_text(&mut text, pending.as_str());
                pending = String::new();
                push_text(&mut text, piece);
                width = add_columns(width, segment.width);
                assert(encode_utf8(pending@) =~= Seq::<u8>::empty());
            }
            col = add_columns(col, segment.width);
        }
        k += 1;
    }
    proof {
        lemma_strict_slice_fits(
            bytes,
            segments@,
            segments.len() as int,
            start as nat,
            end as nat,
            strict,
        );
    }
    SliceResult { text, width: clamp_u32(width) }
}

/// Slices the columns from `start_col` on, `length` of them, out of `line`.
///
/// Escape sequences inside the range are copied where they stand. Those
/// before the range are kept back and written, in their order, before the
/// first cluster that is taken. A cluster is taken if it starts inside the
/// range; with `strict`, one that would reach beyond the range is left out.
pub fn slice_with_width_impl(line: &str, start_col: u32, length: u32, strict: bool) -> (result:
    SliceResult)
    ensures
        encode_utf8(result.text@) == sliced(
            line.spec_bytes(),
            scan(line.spec_bytes()),
            start_col as nat,
            (start_col + length) as nat,
            strict,
        ).text,
        result.width == clamped(
            sliced(
                line.spec_bytes(),
                scan(line.spec_bytes()),
                start_col as nat,
                (start_col + length) as nat,
                strict,
            ).width,
        ),
        strict ==> result.width <= length,
{
    let segments = scan_line(line);
    slice_segments(line, &segments, start_col, length, strict)
}

/// The columns of the clusters that a strict slice takes all lie inside the
/// range, so together they are no more than the range is long.
pub proof fn lemma_strict_slice_fits(
    line: Seq<u8>,
    segments: Seq<Segment>,
    n: int,
    start: nat,
    end: nat,
    strict: bool,
)
    requires
        0 <= n <= segments.len(),
        start <= end,
    ensures
        strict ==> sliced_upto(line, segments, n, start, end, strict).width <= end - start,
        strict && column_at(segments, n) <= end ==> start + sliced_upto(
            line,
            segments,
            n,
            start,
            end,
            strict,
        ).width <= if column_at(segments, n) < start {
            start
        } else {
            column_at(segments, n)
        },
    decreases n,
{
    if n > 0 {
        lemma_strict_slice_fits(line, segments, n - 1, start, end, strict);
    }
}

/// Columns only grow along a line.
pub proof fn lemma_columns_grow(segments: Seq<Segment>, j: int, k: int)
    requires
        0 <= j <= k,
    ensures
        column_at(segments, j) <= column_at(segments, k),
    decreases k - j,
{
    if j < k {
        lemma_columns_grow(segments, j, k - 1);
    }
}

/// The number of the first segment from `from` on that starts where the
/// line has reached its whole width, or the number of segments if there is
/// none: what follows takes no column.
pub open spec fn visible_end(segments: Seq<Segment>, from: int) -> int
    decreases segments.len() - from,
{
    if from < 0 || from >= segments.len() {
        segments.len() as int
    } else if column_at(segments, from) >= total_width(segments) {
        from
    } else {
        visible_end(segments, from + 1)
    }
}

/// Before the visible end every segment starts below the whole width.
pub proof fn lemma_visible_end(segments: Seq<Segment>, from: int)
    requires
        0 <= from <= segments.len(),
    ensures
        from <= visible_end(segments, from) <= segments.len(),
        forall|k: int|
            from <= k < visible_end(segments, from) ==> column_at(segments, k) < total_width(
                segments,
            ),
        column_at(segments, visible_end(segments, from)) == total_width(segments),
    decreases segments.len() - from,
{
    if from < segments.len() {
        lemma_columns_grow(segments, from, segments.len() as int);
        if column_at(segments, from) < total_width(segments) {
            lemma_visible_end(segments, from + 1);
        }
    }
}

proof fn lemma_full_slice_upto(line: Seq<u8>, segments: Seq<Segment>, n: int)
    requires
        0 <= n <= segments.len(),
    ensures
        ({
            let slice = sliced_upto(line, segments, n, 0, total_width(segments), true);
            let end = visible_end(segments, 0);
            let m = if n <= end {
                n
            } else {
                end
            };
            &&& slice.pending == Seq::<u8>::empty()
            &&& slice.text == pieces(line, segments, m)
            &&& slice.width == column_at(segments, m)
        }),
    decreases n,
{
    if n > 0 {
        let total = total_width(segments);
        let end = visible_end(segments, 0);
        let before = sliced_upto(line, segments, n - 1, 0, total, true);
        let after = sliced_upto(line, segments, n, 0, total, true);
        lemma_full_slice_upto(line, segments, n - 1);
        lemma_visible_end(segments, 0);
        lemma_columns_grow(segments, n, segments.len() as int);
        if n - 1 < end {
            assert(column_at(segments, n - 1) < total);
            assert(after.text =~= pieces(line, segments, n));
        } else {
            lemma_columns_grow(segments, end, n - 1);
        }
    }
}

/// A strict slice of all columns of a line, from the first on, holds all
/// that is visible of the line: every segment up to where the line has
/// reached its whole width, and so every cluster that takes a column. It is
/// as wide as the line.
pub proof fn lemma_full_slice(line: Seq<u8>, segments: Seq<Segment>)
    ensures
        sliced(line, segments, 0, total_width(segments), true).text == pieces(
            line,
            segments,
            visible_end(segments, 0),
        ),
        sliced(line, segments, 0, total_width(segments), true).width == total_width(segments),
        forall|k: int|
            0 <= k < segments.len() && segments[k].columns() > 0 ==> k < visible_end(segments, 0),
{
    lemma_full_slice_upto(line, segments, segments.len() as int);
    lemma_visible_end(segments, 0);
    assert forall|k: int|
        0 <= k < segments.len() && segments[k].columns() > 0 implies k < visible_end(
        segments,
        0,
    ) by {
        lemma_columns_grow(segments, k + 1, segments.len() as int);
        if k >= visible_end(segments, 0) {
            lemma_columns_grow(segments, visible_end(segments, 0), k);
        }
    }
}

/// Where the segments follow one another, a strict slice of all columns of
/// a line is the start of the line, up to where the line has reached its
/// whole width.
pub proof fn lemma_full_slice_is_prefix(line: Seq<u8>, segments: Seq<Segment>)
    requires
        segments_follow(segments),
        segments_fit(line, segments),
    ensures
        sliced(line, segments, 0, total_width(segments), true).text == line.take(
            boundary(segments, visible_end(segments, 0)),
        ),
{
    lemma_full_slice(line, segments);
    lemma_visible_end(segments, 0);
    lemma_pieces_are_prefix(line, segments, visible_end(segments, 0));
}

} // verus!
