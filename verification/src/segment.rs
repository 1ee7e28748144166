//! Splitting a line into segments: escape sequences and grapheme clusters.
//!
//! A line is a run of bytes. Scanned from the left it falls into escape
//! sequences, which take no column, and runs of text between them, which
//! segmentation cuts into grapheme clusters, each with a display width.

use crate::ansi::{
    escape_end, extract_ansi_code, lemma_escape_end_bounds, lemma_next_escape_bounds,
    next_ansi_start, next_escape_or_end,
};
use crate::unicode::{cluster_ends, cluster_ends_ok, display_width, grapheme_ends, unicode_width};
use crate::utf8::{lemma_ascii_is_boundary, lemma_boundary_in_piece, lemma_piece_valid, str_piece};
use vstd::prelude::*;
use vstd::string::*;
use vstd::utf8::*;

verus! {

broadcast use vstd::utf8::encode_utf8_valid_utf8;

pub const TAB: u8 = 0x09;

/// A tab counts for three columns wherever it stands.
pub const TAB_WIDTH: usize = 3;

/// One piece of a line: the bytes from `start` up to `end`, either an escape
/// sequence or a grapheme cluster of `width` columns.
#[derive(Clone, Copy, Debug)]
pub struct Segment {
    pub start: usize,
    pub end: usize,
    pub width: usize,
    pub escape: bool,
}

impl Segment {
    /// The columns that the segment takes on screen.
    pub open spec fn columns(self) -> nat {
        if self.escape {
            0
        } else {
            self.width as nat
        }
    }

    /// The bytes of `line` that the segment covers.
    pub open spec fn bytes(self, line: Seq<u8>) -> Seq<u8> {
        line.subrange(self.start as int, self.end as int)
    }

    /// The segment lies inside `line` and starts and ends between characters.
    pub open spec fn fits(self, line: Seq<u8>) -> bool {
        &&& self.start <= self.end <= line.len()
        &&& is_char_boundary(line, self.start as int)
        &&& is_char_boundary(line, self.end as int)
    }
}

/// Every segment lies inside `line` and starts and ends between characters.
pub open spec fn segments_fit(line: Seq<u8>, segments: Seq<Segment>) -> bool {
    &&& valid_utf8(line)
    &&& forall|k: int| 0 <= k < segments.len() ==> (#[trigger] segments[k]).fits(line)
}

/// Where the first `n` segments end: at the end of the last of them, or at
/// the start of the line if there is none.
pub open spec fn boundary(segments: Seq<Segment>, n: int) -> int {
    if n <= 0 {
        0
    } else {
        segments[n - 1].end as int
    }
}

/// Segment number `k` starts where the segments before it end.
pub open spec fn follows_on(segments: Seq<Segment>, k: int) -> bool {
    segments[k].start == boundary(segments, k)
}

/// The segments follow one another from the start of the line.
pub open spec fn segments_follow(segments: Seq<Segment>) -> bool {
    forall|k: int| 0 <= k < segments.len() ==> #[trigger] follows_on(segments, k)
}

/// The segments follow one another from the start of the line to its end:
/// no byte of the line is outside them.
pub open spec fn segments_tile(line: Seq<u8>, segments: Seq<Segment>) -> bool {
    segments_follow(segments) && boundary(segments, segments.len() as int) == line.len()
}

/// A segment that starts where the others end can follow them.
pub proof fn lemma_follow_push(segments: Seq<Segment>, segment: Segment)
    requires
        segments_follow(segments),
        segment.start == boundary(segments, segments.len() as int),
    ensures
        segments_follow(segments.push(segment)),
        boundary(segments.push(segment), segments.len() as int + 1) == segment.end,
{
    let more = segments.push(segment);
    assert forall|k: int| 0 <= k < more.len() implies #[trigger] follows_on(more, k) by {
        if k < segments.len() {
            assert(follows_on(segments, k));
            assert(more[k] == segments[k]);
            if k > 0 {
                assert(more[k - 1] == segments[k - 1]);
            }
        } else if k > 0 {
            assert(more[k - 1] == segments[k - 1]);
        }
    }
}

/// The bytes of the first `n` of segments that follow one another are the
/// start of the line, up to where these segments end.
pub proof fn lemma_pieces_are_prefix(line: Seq<u8>, segments: Seq<Segment>, n: int)
    requires
        segments_follow(segments),
        segments_fit(line, segments),
        0 <= n <= segments.len(),
    ensures
        0 <= boundary(segments, n) <= line.len(),
        pieces(line, segments, n) == line.take(boundary(segments, n)),
    decreases n,
{
    if n > 0 {
        lemma_pieces_are_prefix(line, segments, n - 1);
        assert(follows_on(segments, n - 1));
        assert(segments[n - 1].fits(line));
        assert(pieces(line, segments, n) =~= line.take(boundary(segments, n)));
    } else {
        assert(pieces(line, segments, n) =~= line.take(0));
    }
}

/// The width of one grapheme cluster: three for a lone tab, else its
/// display width.
pub open spec fn cluster_width(cluster: Seq<u8>) -> usize {
    if cluster.len() == 1 && cluster[0] == TAB {
        TAB_WIDTH
    } else {
        unicode_width(decode_utf8(cluster))
    }
}

/// The segment of the escape sequence from `start` up to `end`.
pub open spec fn escape_segment(start: int, end: int) -> Segment {
    Segment { start: start as usize, end: end as usize, width: 0, escape: true }
}

/// The segment of cluster number `k` of a run of text that starts at `start`
/// in its line, where `ends` holds the ends of the run's clusters, counted
/// from the start of the run.
pub open spec fn cluster_segment(run: Seq<u8>, start: int, ends: Seq<usize>, k: int) -> Segment {
    let from = if k == 0 {
        0
    } else {
        ends[k - 1] as int
    };
    let to = ends[k] as int;
    Segment {
        start: (start + from) as usize,
        end: (start + to) as usize,
        width: cluster_width(run.subrange(from, to)),
        escape: false,
    }
}

/// The clusters of the run of text `run`, which starts at `start` in its
/// line.
pub open spec fn run_clusters(run: Seq<u8>, start: int) -> Seq<Segment> {
    let ends = grapheme_ends(run);
    Seq::new(ends.len(), |k: int| cluster_segment(run, start, ends, k))
}

/// The clusters of the run of text from `start` up to `end`.
pub open spec fn run_segments(line: Seq<u8>, start: int, end: int) -> Seq<Segment> {
    run_clusters(line.subrange(start, end), start)
}

/// Where the run of text that starts at `pos` ends: at the next escape
/// sequence after `pos`, or at the end of the line.
pub open spec fn run_end(line: Seq<u8>, pos: int) -> int {
    next_escape_or_end(line, pos + 1)
}

/// The segments of `line` from `pos` on, where `pos` is the start of an
/// escape sequence or of a run of text.
pub open spec fn scan_from(line: Seq<u8>, pos: int) -> Seq<Segment>
    decreases line.len() - pos,
{
    if pos < 0 || pos >= line.len() {
        Seq::empty()
    } else {
        match escape_end(line, pos) {
            Some(end) => if pos < end <= line.len() {
                seq![escape_segment(pos, end)] + scan_from(line, end)
            } else {
                Seq::empty()
            },
            None => if pos < run_end(line, pos) <= line.len() {
                run_segments(line, pos, run_end(line, pos)) + scan_from(line, run_end(line, pos))
            } else {
                Seq::empty()
            },
        }
    }
}

/// The segments of a line.
pub open spec fn scan(line: Seq<u8>) -> Seq<Segment> {
    scan_from(line, 0)
}

/// The column at which segment number `n` starts: the columns taken by the
/// segments before it.
pub open spec fn column_at(segments: Seq<Segment>, n: int) -> nat
    decreases n,
{
    if n <= 0 {
        0
    } else {
        column_at(segments, n - 1) + segments[n - 1].columns()
    }
}

/// The bytes of the first `n` segments, one after the other.
pub open spec fn pieces(line: Seq<u8>, segments: Seq<Segment>, n: int) -> Seq<u8>
    decreases n,
{
    if n <= 0 {
        Seq::empty()
    } else {
        pieces(line, segments, n - 1) + segments[n - 1].bytes(line)
    }
}

/// The columns that all segments take together.
pub open spec fn total_width(segments: Seq<Segment>) -> nat {
    column_at(segments, segments.len() as int)
}

/// The visible width of a line: the columns of its grapheme clusters, escape
/// sequences not counted.
pub open spec fn visible_width_of(line: Seq<u8>) -> nat {
    total_width(scan(line))
}

/// The width of one grapheme cluster: three columns for a lone tab, else the
/// display width of the cluster.
pub fn grapheme_width(grapheme: &str) -> (width: usize)
    ensures
        width == cluster_width(grapheme.spec_bytes()),
{
    let bytes = grapheme.as_bytes();
    if bytes.len() == 1 && bytes[0] == TAB {
        return TAB_WIDTH;
    }
    proof {
        encode_utf8_decode_utf8(grapheme@);
    }
    display_width(grapheme)
}

/// A run of text ends after it starts, inside the line, and where it ends a
/// character ends.
pub proof fn lemma_run_end(line: Seq<u8>, pos: int)
    requires
        valid_utf8(line),
        0 <= pos < line.len(),
    ensures
        pos < run_end(line, pos) <= line.len(),
        is_char_boundary(line, run_end(line, pos)),
{
    lemma_next_escape_bounds(line, pos + 1);
    let end = run_end(line, pos);
    if end < line.len() {
        lemma_escape_end_bounds(line, end);
        lemma_ascii_is_boundary(line, end);
    } else {
        is_char_boundary_start_end_of_seq(line);
    }
}

/// Splits a line into its segments.
pub fn scan_line(text: &str) -> (segments: Vec<Segment>)
    ensures
        segments@ == scan(text.spec_bytes()),
        segments_fit(text.spec_bytes(), segments@),
        segments_tile(text.spec_bytes(), segments@),
{
    let bytes = text.as_bytes();
    let n = bytes.len();
    let mut segments: Vec<Segment> = Vec::new();
    let mut i: usize = 0;
    proof {
        is_char_boundary_start_end_of_seq(bytes@);
    }
    while i < n
        invariant
            i <= n,
            n == bytes@.len(),
            bytes@ == text.spec_bytes(),
            valid_utf8(bytes@),
            is_char_boundary(bytes@, i as int),
            segments@ + scan_from(bytes@, i as int) == scan(bytes@),
            segments_fit(bytes@, segments@),
            segments_follow(segments@),
            boundary(segments@, segments@.len() as int) == i,
        decreases n - i,
    {
        match extract_ansi_code(bytes, i) {
            Some(len) => {
                proof {
                    lemma_escape_end_bounds(bytes@, i as int);
                    lemma_ascii_is_boundary(bytes@, i + len - 1);
                    lemma_follow_push(segments@, escape_segment(i as int, i + len));
                    assert(segments@.push(escape_segment(i as int, i + len)) + scan_from(
                        bytes@,
                        i + len,
                    ) =~= segments@ + scan_from(bytes@, i as int));
                }
                segments.push(Segment { start: i, end: i + len, width: 0, escape: true });
                i += len;
            },
            None => {
                let end = match next_ansi_start(bytes, i + 1) {
                    Some(p) => p,
                    None => n,
                };
                proof {
                    lemma_run_end(bytes@, i as int);
                    lemma_piece_valid(bytes@, i as int, end as int);
                }
                let run = &bytes[i..end];
                let ends = cluster_ends(run);
                let ghost before = segments@;
                let mut prev: usize = 0;
                let mut k: usize = 0;
                while k < ends.len()
                    invariant
                        i < end <= n,
                        n == bytes@.len(),
                        bytes@ == text.spec_bytes(),
                        valid_utf8(bytes@),
                        is_char_boundary(bytes@, i as int),
                        is_char_boundary(bytes@, end as int),
                        run@ == bytes@.subrange(i as int, end as int),
                        valid_utf8(run@),
                        ends@ == grapheme_ends(run@),
                        cluster_ends_ok(run@, ends@),
                        k <= ends.len(),
                        prev == if k == 0 {
                            0
                        } else {
                            ends[k - 1]
                        },
                        prev <= end - i,
                        segments@ == before + run_segments(bytes@, i as int, end as int).take(
                            k as int,
                        ),
                        segments_fit(bytes@, segments@),
                        segments_follow(segments@),
                        boundary(segments@, segments@.len() as int) == i + prev,
                    decreases ends.len() - k,
                {
                    let e = ends[k];
                    proof {
                        if k > 0 {
                            lemma_boundary_in_piece(bytes@, i as int, end as int, i + prev);
                        }
                        lemma_boundary_in_piece(bytes@, i as int, end as int, i + e);
                    }
                    let piece = str_piece(text, i + prev, i + e);
                    assert(piece.spec_bytes() =~= run@.subrange(prev as int, e as int));
                    let width = grapheme_width(piece);
                    let segment = Segment { start: i + prev, end: i + e, width, escape: false };
                    proof {
                        let all = run_segments(bytes@, i as int, end as int);
                        assert(segment == cluster_segment(run@, i as int, ends@, k as int));
                        lemma_follow_push(segments@, segment);
                        assert(all.take(k + 1) =~= all.take(k as int).push(all[k as int]));
                    }
                    segments.push(segment);
                    prev = e;
                    k += 1;
                }
                proof {
                    let all = run_segments(bytes@, i as int, end as int);
                    assert(all.take(ends.len() as int) =~= all);
                    assert(segments@ + scan_from(bytes@, end as int) =~= before + scan_from(
                        bytes@,
                        i as int,
                    ));
                }
                i = end;
            },
        }
    }
    proof {
        assert(scan_from(bytes@, i as int) =~= Seq::<Segment>::empty());
        assert(segments@ + Seq::<Segment>::empty() =~= segments@);
    }
    segments
}

} // verus!
