//! Segment extractor: the parts of a line to the left and to the right of an
//! overlay, the right one with the styling in effect where it starts.
//!
//! The two parts are put together in one pass over the line, but neither
//! looks at the window of the other: the part before the overlay is made of
//! the columns below `before_end`, the part after it of `after_len` columns
//! from `after_start` on.

use crate::segment::{column_at, scan, scan_line, segments_fit, Segment};
use crate::slice::cluster_taken;
use crate::tracker::{active_codes, apply_sgr, default_style, AnsiCodeTracker, Style};
use crate::utf8::{lemma_empty_encoding, push_text, str_piece};
use crate::width::{add_columns, clamp_u32, clamped, saturated};
use vstd::prelude::*;
use vstd::string::*;
use vstd::utf8::*;

verus! {

broadcast use vstd::utf8::encode_utf8_valid_utf8;

/// The two parts of a line around an overlay, each with the columns it
/// takes.
#[derive(Debug)]
pub struct ExtractSegmentsResult {
    pub before: String,
    pub before_width: u32,
    pub after: String,
    pub after_width: u32,
}

/// What the extractor has put together of the part before the overlay after
/// some segments of a line: its text, the escape sequences met since its
/// last cluster, and the columns of its clusters.
pub struct BeforePart {
    pub text: Seq<u8>,
    pub pending: Seq<u8>,
    pub width: nat,
}

/// What one segment that starts at column `col` adds to the part before the
/// overlay, which is made of the columns below `before_end`.
///
/// Below `before_end` an escape sequence is kept back until the next
/// cluster, and a cluster is written after what was kept back. From
/// `before_end` on nothing is added.
pub open spec fn before_step(
    line: Seq<u8>,
    state: BeforePart,
    segment: Segment,
    col: nat,
    before_end: nat,
) -> BeforePart {
    if col >= before_end {
        state
    } else if segment.escape {
        BeforePart { pending: state.pending + segment.bytes(line), ..state }
    } else {
        BeforePart {
            text: state.text + state.pending + segment.bytes(line),
            pending: Seq::empty(),
            width: state.width + segment.width as nat,
        }
    }
}

/// The part before the overlay after the first `n` segments.
pub open spec fn before_upto(
    line: Seq<u8>,
    segments: Seq<Segment>,
    n: int,
    before_end: nat,
) -> BeforePart
    decreases n,
{
    if n <= 0 {
        BeforePart { text: Seq::empty(), pending: Seq::empty(), width: 0 }
    } else {
        before_step(
            line,
            before_upto(line, segments, n - 1, before_end),
            segments[n - 1],
            column_at(segments, n - 1),
            before_end,
        )
    }
}

/// The part before the overlay of a line with the given segments: the
/// columns below `before_end`.
pub open spec fn before_part(line: Seq<u8>, segments: Seq<Segment>, before_end: nat) -> BeforePart {
    before_upto(line, segments, segments.len() as int, before_end)
}

/// The columns of the part after the overlay: from `start` up to `end`,
/// and whether a cluster has to end inside them.
pub struct AfterWindow {
    pub start: nat,
    pub end: nat,
    pub strict: bool,
}

/// The window of `after_len` columns from `after_start` on.
pub open spec fn after_window(after_start: u32, after_len: u32, strict_after: bool) -> AfterWindow {
    AfterWindow {
        start: after_start as nat,
        end: (after_start + after_len) as nat,
        strict: strict_after,
    }
}

/// What the extractor has put together of the part after the overlay after
/// some segments of a line: its text, whether it has got its first cluster,
/// the columns of its clusters, and the styling after the escape sequences
/// met so far.
pub struct AfterPart {
    pub text: Seq<u8>,
    pub started: bool,
    pub width: nat,
    pub style: Style,
}

/// Whether the cluster `segment`, which starts at column `col`, goes to the
/// part after the overlay.
pub open spec fn goes_after(segment: Segment, col: nat, w: AfterWindow) -> bool {
    !segment.escape && cluster_taken(col, segment.width as nat, w.start, w.end, w.strict)
}

/// What one segment that starts at column `col` adds to the part after the
/// overlay.
///
/// Every escape sequence is replayed into the styling, wherever it stands;
/// one inside the window is copied once the part has started. A cluster
/// that the window takes is written, the first one after the sequence that
/// brings the styling back.
pub open spec fn after_step(
    line: Seq<u8>,
    state: AfterPart,
    segment: Segment,
    col: nat,
    w: AfterWindow,
) -> AfterPart {
    if segment.escape {
        let style = apply_sgr(state.style, segment.bytes(line));
        if w.start <= col < w.end && state.started {
            AfterPart { text: state.text + segment.bytes(line), style, ..state }
        } else {
            AfterPart { style, ..state }
        }
    } else if goes_after(segment, col, w) {
        AfterPart {
            text: state.text + (if state.started {
                Seq::empty()
            } else {
                active_codes(state.style)
            }) + segment.bytes(line),
            started: true,
            width: state.width + segment.width as nat,
            ..state
        }
    } else {
        state
    }
}

/// The part after the overlay after the first `n` segments.
pub open spec fn after_upto(line: Seq<u8>, segments: Seq<Segment>, n: int, w: AfterWindow) -> AfterPart
    decreases n,
{
    if n <= 0 {
        AfterPart { text: Seq::empty(), started: false, width: 0, style: default_style() }
    } else {
        after_step(
            line,
            after_upto(line, segments, n - 1, w),
            segments[n - 1],
            column_at(segments, n - 1),
            w,
        )
    }
}

/// The part after the overlay of a line with the given segments.
pub open spec fn after_part(line: Seq<u8>, segments: Seq<Segment>, w: AfterWindow) -> AfterPart {
    after_upto(line, segments, segments.len() as int, w)
}

/// Whether `result` holds the two parts.
pub open spec fn holds(result: ExtractSegmentsResult, before: BeforePart, after: AfterPart) -> bool {
    &&& encode_utf8(result.before@) == before.text
    &&& result.before_width == clamped(before.width)
    &&& encode_utf8(result.after@) == after.text
    &&& result.after_width == clamped(after.width)
}

/// Extracts the parts before and after an overlay from a line whose segments
/// are given.
pub fn extract_from_segments(
    line: &str,
    segments: &Vec<Segment>,
    before_end: u32,
    after_start: u32,
    after_len: u32,
    strict_after: bool,
) -> (result: ExtractSegmentsResult)
    requires
        segments_fit(line.spec_bytes(), segments@),
    ensures
        holds(
            result,
            before_part(line.spec_bytes(), segments@, before_end as nat),
            after_part(
                line.spec_bytes(),
                segments@,
                after_window(after_start, after_len, strict_after),
            ),
        ),
        after_len == 0 ==> result.after@.len() == 0 && result.after_width == 0,
{
    let before_limit: u64 = before_end as u64;
    let after_from: u64 = after_start as u64;
    let after_end: u64 = after_from + after_len as u64;
    let ghost w = after_window(after_start, after_len, strict_after);
    let ghost bytes = line.spec_bytes();
    let mut before = String::new();
    let mut pending = String::new();
    let mut before_width: u64 = 0;
    let mut after = String::new();
    let mut started = false;
    let mut after_width: u64 = 0;
    let mut tracker = AnsiCodeTracker::new();
    let mut col: u64 = 0;
    let mut k: usize = 0;
    assert(encode_utf8(before@) =~= Seq::<u8>::empty());
    while k < segments.len()
        invariant
            k <= segments.len(),
            bytes == line.spec_bytes(),
            segments_fit(bytes, segments@),
            w == after_window(after_start, after_len, strict_after),
            before_limit == before_end,
            after_from == w.start,
            after_end == w.end,
            col == saturated(column_at(segments@, k as int)),
            encode_utf8(before@) == before_upto(bytes, segments@, k as int, before_end as nat).text,
            encode_utf8(pending@) == before_upto(
                bytes,
                segments@,
                k as int,
                before_end as nat,
            ).pending,
            before_width == saturated(
                before_upto(bytes, segments@, k as int, before_end as nat).width,
            ),
            encode_utf8(after@) == after_upto(bytes, segments@, k as int, w).text,
            started == after_upto(bytes, segments@, k as int, w).started,
            after_width == saturated(after_upto(bytes, segments@, k as int, w).width),
            tracker@ == after_upto(bytes, segments@, k as int, w).style,
        decreases segments.len() - k,
    {
        let segment = segments[k];
        assert(segment.fits(bytes));
        let piece = str_piece(line, segment.start, segment.end);
        let in_before = col < before_limit;
        let in_after = after_from <= col && col < after_end;
        if segment.escape {
            tracker.process(piece);
            if in_before {
                push_text(&mut pending, piece);
            }
            if in_after && started {
                push_text(&mut after, piece);
            }
        } else {
            if in_before {
                push_text(&mut before, pending.as_str());
                pending = String::new();
                push_text(&mut before, piece);
                before_width = add_columns(before_width, segment.width);
                assert(encode_utf8(pending@) =~= Seq::<u8>::empty());
            }
            if in_after && (!strict_after || add_columns(col, segment.width) <= after_end) {
                if !started {
                    let preamble = tracker.get_active_codes();
                    push_text(&mut after, preamble.as_str());
                    started = true;
                } else {
                    assert(encode_utf8(after@) + Seq::<u8>::empty() =~= encode_utf8(after@));
                }
                push_text(&mut after, piece);
                after_width = add_columns(after_width, segment.width);
            }
            col = add_columns(col, segment.width);
        }
        k += 1;
    }
    proof {
        if after_len == 0 {
            lemma_no_after_without_length(bytes, segments@, segments.len() as int, w);
            lemma_empty_encoding(after@);
        }
    }
    ExtractSegmentsResult {
        before,
        before_width: clamp_u32(before_width),
        after,
        after_width: clamp_u32(after_width),
    }
}

/// Extracts from `line` the part before an overlay, the columns below
/// `before_end`, and the part after it, `after_len` columns from
/// `after_start` on.
///
/// The part before the overlay takes its escape sequences along: each is
/// written before the next cluster of the part. The part after the overlay
/// starts with the sequence for the styling in effect at its first cluster;
/// escape sequences inside its window follow where they stand. With
/// `strict_after` a cluster that would reach beyond the window is left out.
pub fn extract_segments_impl(
    line: &str,
    before_end: u32,
    after_start: u32,
    after_len: u32,
    strict_after: bool,
) -> (result: ExtractSegmentsResult)
    ensures
        holds(
            result,
            before_part(line.spec_bytes(), scan(line.spec_bytes()), before_end as nat),
            after_part(
                line.spec_bytes(),
                scan(line.spec_bytes()),
                after_window(after_start, after_len, strict_after),
            ),
        ),
        after_len == 0 ==> result.after@.len() == 0 && result.after_width == 0,
{
    let segments = scan_line(line);
    extract_from_segments(line, &segments, before_end, after_start, after_len, strict_after)
}

/// Where the window after the overlay is empty, the part after the overlay
/// stays empty.
pub proof fn lemma_no_after_without_length(
    line: Seq<u8>,
    segments: Seq<Segment>,
    n: int,
    w: AfterWindow,
)
    requires
        0 <= n <= segments.len(),
        w.end <= w.start,
    ensures
        after_upto(line, segments, n, w).text == Seq::<u8>::empty(),
        after_upto(line, segments, n, w).width == 0,
        !after_upto(line, segments, n, w).started,
    decreases n,
{
    if n > 0 {
        lemma_no_after_without_length(line, segments, n - 1, w);
    }
}

/// As long as the line has not gone beyond `before_end`, the part before
/// the overlay is as wide as the line so far.
pub proof fn lemma_before_part_takes_columns_below(
    line: Seq<u8>,
    segments: Seq<Segment>,
    n: int,
    before_end: nat,
)
    requires
        0 <= n <= segments.len(),
    ensures
        column_at(segments, n) <= before_end ==> before_upto(line, segments, n, before_end).width
            == column_at(segments, n),
    decreases n,
{
    if n > 0 {
        lemma_before_part_takes_columns_below(line, segments, n - 1, before_end);
    }
}

/// The styling after the escape sequences among the first `n` segments,
/// replayed from the start of the line with nothing else looked at.
pub open spec fn replayed(line: Seq<u8>, segments: Seq<Segment>, n: int) -> Style
    decreases n,
{
    if n <= 0 {
        default_style()
    } else if segments[n - 1].escape {
        apply_sgr(replayed(line, segments, n - 1), segments[n - 1].bytes(line))
    } else {
        replayed(line, segments, n - 1)
    }
}

/// The number of the first segment from `from` on that goes to the part
/// after the overlay, or the number of segments if none does.
pub open spec fn first_after(segments: Seq<Segment>, w: AfterWindow, from: int) -> int
    decreases segments.len() - from,
{
    if from < 0 || from >= segments.len() {
        segments.len() as int
    } else if goes_after(segments[from], column_at(segments, from), w) {
        from
    } else {
        first_after(segments, w, from + 1)
    }
}

/// `text` starts with `head`.
pub open spec fn starts_with(text: Seq<u8>, head: Seq<u8>) -> bool {
    head.len() <= text.len() && text.subrange(0, head.len() as int) == head
}

proof fn lemma_first_after(segments: Seq<Segment>, w: AfterWindow, from: int)
    requires
        0 <= from <= segments.len(),
    ensures
        from <= first_after(segments, w, from) <= segments.len(),
        forall|k: int|
            from <= k < first_after(segments, w, from) ==> !goes_after(
                segments[k],
                column_at(segments, k),
                w,
            ),
        first_after(segments, w, from) < segments.len() ==> goes_after(
            segments[first_after(segments, w, from)],
            column_at(segments, first_after(segments, w, from)),
            w,
        ),
    decreases segments.len() - from,
{
    if from < segments.len() && !goes_after(segments[from], column_at(segments, from), w) {
        lemma_first_after(segments, w, from + 1);
    }
}

/// The part after the overlay starts with the styling that a replay of all
/// escape sequences before its first cluster ends in.
///
/// The extractor keeps the styling up to date while it goes along the line;
/// `replayed` goes through the escape sequences alone. Both agree at every
/// segment, and the part after the overlay, once it has started, begins
/// with the sequence for the replayed styling and then its first cluster.
pub proof fn lemma_after_starts_with_style(
    line: Seq<u8>,
    segments: Seq<Segment>,
    w: AfterWindow,
    n: int,
)
    requires
        0 <= n <= segments.len(),
    ensures
        ({
            let state = after_upto(line, segments, n, w);
            let first = first_after(segments, w, 0);
            &&& state.style == replayed(line, segments, n)
            &&& n <= first ==> !state.started && state.text == Seq::<u8>::empty()
            &&& n > first ==> state.started && starts_with(
                state.text,
                active_codes(replayed(line, segments, first)) + segments[first].bytes(line),
            )
        }),
    decreases n,
{
    lemma_first_after(segments, w, 0);
    if n > 0 {
        let first = first_after(segments, w, 0);
        let before = after_upto(line, segments, n - 1, w);
        let state = after_upto(line, segments, n, w);
        lemma_after_starts_with_style(line, segments, w, n - 1);
        let head = active_codes(replayed(line, segments, first)) + segments[first].bytes(line);
        if n - 1 == first {
            assert(state.text =~= head);
            assert(state.text.subrange(0, head.len() as int) =~= head);
        } else if n - 1 > first {
            assert(before.text.subrange(0, head.len() as int) == head);
            assert(before.text.len() <= state.text.len());
            assert(state.text.subrange(0, head.len() as int) =~= before.text.subrange(
                0,
                head.len() as int,
            ));
        }
    }
}

} // verus!
