//! Truncator: cuts a line to a width, with an ellipsis and optional padding.

use crate::ansi::{escape_end, ESC, OPEN_BRACKET};
use crate::width_laws::{is_escape_sequence, keeps_escapes, lemma_width_with_escape_between};
use crate::segment::{
    boundary, cluster_width, column_at, lemma_pieces_are_prefix, pieces, scan, scan_line,
    segments_fit, total_width, visible_width_of, Segment,
};
use crate::tracker::LOWER_M;
use crate::unicode::{cluster_ends, cluster_ends_ok, grapheme_ends};
use crate::utf8::{push_text, str_piece};
use crate::width::{saturated, segments_width};
use vstd::prelude::*;
use vstd::string::*;
use vstd::utf8::*;

verus! {

broadcast use vstd::utf8::encode_utf8_valid_utf8;

pub const SPACE: u8 = 0x20;

/// `count` spaces.
pub open spec fn spaces(count: nat) -> Seq<u8> {
    Seq::new(count, |i: int| SPACE)
}

/// The sequence that resets all styling: `ESC [ 0 m`.
pub open spec fn reset_code() -> Seq<u8> {
    seq![ESC, OPEN_BRACKET, 0x30u8, LOWER_M]
}

/// Whether a cut at `target` columns keeps segment number `k`, given that it
/// kept all segments before it: an escape sequence as long as the target is
/// not reached, a cluster as long as the target is not exceeded with it.
pub open spec fn keeps(segments: Seq<Segment>, k: int, target: nat) -> bool {
    if segments[k].escape {
        column_at(segments, k) < target
    } else {
        column_at(segments, k) + segments[k].width <= target
    }
}

/// The number of the first segment from `from` on that a cut at `target`
/// columns does not keep, or the number of segments if it keeps them all.
pub open spec fn cut_index(segments: Seq<Segment>, target: nat, from: int) -> int
    decreases segments.len() - from,
{
    if from < 0 || from >= segments.len() {
        segments.len() as int
    } else if !keeps(segments, from, target) {
        from
    } else {
        cut_index(segments, target, from + 1)
    }
}

/// The first `max` clusters of the ellipsis, where `ends` holds the ends of
/// its clusters.
pub open spec fn ellipsis_head(ellipsis: Seq<u8>, ends: Seq<usize>, max: nat) -> Seq<u8> {
    let count = if max < ends.len() {
        max as int
    } else {
        ends.len() as int
    };
    if count == 0 {
        Seq::empty()
    } else {
        ellipsis.subrange(0, ends[count - 1] as int)
    }
}

/// `text` cut to `max` columns.
///
/// `segments` are the segments of the text, `ellipsis_segments` those of the
/// ellipsis and `ellipsis_ends` the ends of the clusters of the ellipsis,
/// escape sequences not told apart.
///
/// A text of at most `max` columns stays as it is, and `pad` fills it up to
/// `max` columns with spaces. Of a longer text the segments are kept that
/// leave room for the ellipsis; the reset sequence and the ellipsis follow,
/// and `pad` fills up what is missing to `max` columns. Where the ellipsis
/// leaves no room at all, the result is made of the first `max` clusters of
/// the ellipsis and nothing else.
pub open spec fn truncated(
    text: Seq<u8>,
    segments: Seq<Segment>,
    max: nat,
    ellipsis: Seq<u8>,
    ellipsis_segments: Seq<Segment>,
    ellipsis_ends: Seq<usize>,
    pad: bool,
) -> Seq<u8> {
    let width = total_width(segments);
    let ellipsis_width = total_width(ellipsis_segments);
    if width <= max {
        if pad {
            text + spaces((max - width) as nat)
        } else {
            text
        }
    } else if ellipsis_width >= max {
        ellipsis_head(ellipsis, ellipsis_ends, max)
    } else {
        let target = (max - ellipsis_width) as nat;
        let cut = cut_index(segments, target, 0);
        let used = column_at(segments, cut) + ellipsis_width;
        let body = pieces(text, segments, cut) + reset_code() + ellipsis;
        if pad && used < max {
            body + spaces((max - used) as nat)
        } else {
            body
        }
    }
}

/// Appends `count` spaces to `out`.
fn push_spaces(out: &mut String, count: u64)
    ensures
        encode_utf8(final(out)@) == encode_utf8(old(out)@) + spaces(count as nat),
{
    let mut done: u64 = 0;
    proof {
        reveal_strlit(" ");
        is_ascii_chars_encode_utf8(" "@);
        assert(" ".spec_bytes() =~= seq![SPACE]);
        assert(encode_utf8(out@) + spaces(0) =~= encode_utf8(out@));
    }
    while done < count
        invariant
            done <= count,
            " ".spec_bytes() == seq![SPACE],
            encode_utf8(out@) == encode_utf8(old(out)@) + spaces(done as nat),
        decreases count - done,
    {
        push_text(out, " ");
        done += 1;
        assert(spaces((done - 1) as nat) + seq![SPACE] =~= spaces(done as nat));
        assert(encode_utf8(out@) =~= encode_utf8(old(out)@) + spaces(done as nat));
    }
}

/// The first `max_width` clusters of the ellipsis.
fn take_ellipsis_head(ellipsis: &str, ends: &Vec<usize>, max_width: u32) -> (out: String)
    requires
        cluster_ends_ok(ellipsis.spec_bytes(), ends@),
    ensures
        encode_utf8(out@) == ellipsis_head(ellipsis.spec_bytes(), ends@, max_width as nat),
{
    let count: usize = if (max_width as usize) < ends.len() {
        max_width as usize
    } else {
        ends.len()
    };
    if count == 0 {
        let out = String::new();
        assert(encode_utf8(out@) =~= Seq::<u8>::empty());
        return out;
    }
    proof {
        is_char_boundary_start_end_of_seq(ellipsis.spec_bytes());
    }
    str_piece(ellipsis, 0, ends[count - 1]).to_owned()
}

/// Cuts `text` to `max_width` columns, given its segments, the segments of
/// the ellipsis and the ends of the clusters of the ellipsis.
pub fn truncate_segments(
    text: &str,
    segments: &Vec<Segment>,
    max_width: u32,
    ellipsis: &str,
    ellipsis_segments: &Vec<Segment>,
    ellipsis_ends: &Vec<usize>,
    pad: bool,
) -> (out: String)
    requires
        segments_fit(text.spec_bytes(), segments@),
        cluster_ends_ok(ellipsis.spec_bytes(), ellipsis_ends@),
    ensures
        encode_utf8(out@) == truncated(
            text.spec_bytes(),
            segments@,
            max_width as nat,
            ellipsis.spec_bytes(),
            ellipsis_segments@,
            ellipsis_ends@,
            pad,
        ),
        total_width(segments@) <= max_width && !pad ==> out@ == text@,
{
    let max: u64 = max_width as u64;
    let width = segments_width(segments);
    if width <= max {
        let mut out = text.to_owned();
        if pad {
            push_spaces(&mut out, max - width);
        }
        return out;
    }
    let ellipsis_width = segments_width(ellipsis_segments);
    if ellipsis_width >= max {
        return take_ellipsis_head(ellipsis, ellipsis_ends, max_width);
    }
    let target: u64 = max - ellipsis_width;
    let ghost bytes = text.spec_bytes();
    let mut out = String::new();
    let mut kept: u64 = 0;
    let mut k: usize = 0;
    let mut stopped = false;
    assert(encode_utf8(out@) =~= Seq::<u8>::empty());
    while k < segments.len() && !stopped
        invariant
            k <= segments.len(),
            bytes == text.spec_bytes(),
            segments_fit(bytes, segments@),
            0 < target,
            kept <= target,
            kept == column_at(segments@, k as int),
            encode_utf8(out@) == pieces(bytes, segments@, k as int),
            stopped ==> cut_index(segments@, target as nat, 0) == k,
            !stopped ==> cut_index(segments@, target as nat, k as int) == cut_index(
                segments@,
                target as nat,
                0,
            ),
        decreases segments.len() - k + if stopped { 0int } else { 1int },
    {
        let segment = segments[k];
        let keep = if segment.escape {
            kept < target
        } else {
            segment.width as u64 <= target - kept
        };
        if keep {
            assert(segment.fits(bytes));
            push_text(&mut out, str_piece(text, segment.start, segment.end));
            if !segment.escape {
                kept = kept + segment.width as u64;
            }
            k += 1;
        } else {
            stopped = true;
        }
    }
    proof {
        reveal_strlit("\x1b[0m");
        is_ascii_chars_encode_utf8("\x1b[0m"@);
        assert("\x1b[0m".spec_bytes() =~= reset_code());
    }
    push_text(&mut out, "\x1b[0m");
    push_text(&mut out, ellipsis);
    if pad {
        let used: u64 = kept + ellipsis_width;
        if used < max {
            push_spaces(&mut out, max - used);
        }
    }
    out
}

/// Cuts `text` to `max_width` columns.
///
/// A text that fits is handed back as it is, filled up with spaces to
/// `max_width` columns if `pad` is set. A longer text is cut so that the
/// ellipsis fits in as well: escape sequences and clusters are copied from
/// the start until the next cluster would not leave room for the ellipsis,
/// then follow the reset sequence and the ellipsis, and with `pad` the spaces
/// that are missing. No cluster is cut in two.
pub fn truncate_text(text: &str, max_width: u32, ellipsis: &str, pad: bool) -> (out: String)
    ensures
        encode_utf8(out@) == truncated(
            text.spec_bytes(),
            scan(text.spec_bytes()),
            max_width as nat,
            ellipsis.spec_bytes(),
            scan(ellipsis.spec_bytes()),
            grapheme_ends(ellipsis.spec_bytes()),
            pad,
        ),
        total_width(scan(text.spec_bytes())) <= max_width && !pad ==> out@ == text@,
        ({
            let parts = truncation(
                scan(text.spec_bytes()),
                max_width as nat,
                ellipsis.spec_bytes(),
                scan(ellipsis.spec_bytes()),
                grapheme_ends(ellipsis.spec_bytes()),
                pad,
            );
            parts.with_ellipsis ==> encode_utf8(out@) == text.spec_bytes().take(
                boundary(scan(text.spec_bytes()), parts.kept),
            ) + reset_code() + ellipsis.spec_bytes() + spaces(parts.padding)
        }),
{
    let segments = scan_line(text);
    let ellipsis_segments = scan_line(ellipsis);
    let ellipsis_ends = cluster_ends(ellipsis.as_bytes());
    proof {
        let parts = truncation(
            segments@,
            max_width as nat,
            ellipsis.spec_bytes(),
            ellipsis_segments@,
            ellipsis_ends@,
            pad,
        );
        lemma_truncated_parts(
            text.spec_bytes(),
            segments@,
            max_width as nat,
            ellipsis.spec_bytes(),
            ellipsis_segments@,
            ellipsis_ends@,
            pad,
        );
        if parts.with_ellipsis {
            lemma_cut_within_target(
                segments@,
                (max_width - total_width(ellipsis_segments@)) as nat,
                0,
            );
            lemma_pieces_are_prefix(text.spec_bytes(), segments@, parts.kept);
        }
    }
    truncate_segments(text, &segments, max_width, ellipsis, &ellipsis_segments, &ellipsis_ends, pad)
}

/// A cut never goes beyond its target: the clusters kept take at most
/// `target` columns.
pub proof fn lemma_cut_within_target(segments: Seq<Segment>, target: nat, from: int)
    requires
        0 <= from <= segments.len(),
        column_at(segments, from) <= target,
    ensures
        from <= cut_index(segments, target, from) <= segments.len(),
        column_at(segments, cut_index(segments, target, from)) <= target,
    decreases segments.len() - from,
{
    if from < segments.len() && keeps(segments, from, target) {
        lemma_cut_within_target(segments, target, from + 1);
    }
}

/// The columns of the first `count` clusters of the ellipsis, where `ends`
/// holds the ends of its clusters.
pub open spec fn head_columns(ellipsis: Seq<u8>, ends: Seq<usize>, count: int) -> nat
    decreases count,
{
    if count <= 0 {
        0
    } else {
        let from = if count == 1 {
            0
        } else {
            ends[count - 2] as int
        };
        head_columns(ellipsis, ends, count - 1) + cluster_width(
            ellipsis.subrange(from, ends[count - 1] as int),
        ) as nat
    }
}

/// The number of clusters of the ellipsis that are left when it is cut to
/// `max` clusters.
pub open spec fn head_count(ends: Seq<usize>, max: nat) -> int {
    if max < ends.len() {
        max as int
    } else {
        ends.len() as int
    }
}

/// What a truncated text is made of, and the columns that it takes by the
/// count of its parts: the segments kept, the ellipsis or what is left of
/// it, and the spaces.
pub struct Truncation {
    /// How many segments of the text are kept, from the first on.
    pub kept: int,
    /// Whether the reset sequence and the whole ellipsis follow.
    pub with_ellipsis: bool,
    /// How many clusters of the ellipsis stand alone, where nothing of the
    /// text is kept.
    pub ellipsis_clusters: int,
    /// How many spaces follow.
    pub padding: nat,
    /// The columns of all this together.
    pub columns: nat,
}

/// What `text` cut to `max` columns is made of.
pub open spec fn truncation(
    segments: Seq<Segment>,
    max: nat,
    ellipsis: Seq<u8>,
    ellipsis_segments: Seq<Segment>,
    ellipsis_ends: Seq<usize>,
    pad: bool,
) -> Truncation {
    let width = total_width(segments);
    let ellipsis_width = total_width(ellipsis_segments);
    if width <= max {
        let padding = if pad {
            (max - width) as nat
        } else {
            0
        };
        Truncation {
            kept: segments.len() as int,
            with_ellipsis: false,
            ellipsis_clusters: 0,
            padding,
            columns: width + padding,
        }
    } else if ellipsis_width >= max {
        let count = head_count(ellipsis_ends, max);
        Truncation {
            kept: 0,
            with_ellipsis: false,
            ellipsis_clusters: count,
            padding: 0,
            columns: head_columns(ellipsis, ellipsis_ends, count),
        }
    } else {
        let cut = cut_index(segments, (max - ellipsis_width) as nat, 0);
        let used = column_at(segments, cut) + ellipsis_width;
        let padding = if pad && used < max {
            (max - used) as nat
        } else {
            0
        };
        Truncation {
            kept: cut,
            with_ellipsis: true,
            ellipsis_clusters: 0,
            padding,
            columns: used + padding,
        }
    }
}

/// The truncated text is made of the parts that `truncation` names: the
/// text itself, or the segments kept, the reset sequence and the ellipsis,
/// each time with the spaces after it, or the first clusters of the
/// ellipsis alone.
pub proof fn lemma_truncated_parts(
    text: Seq<u8>,
    segments: Seq<Segment>,
    max: nat,
    ellipsis: Seq<u8>,
    ellipsis_segments: Seq<Segment>,
    ellipsis_ends: Seq<usize>,
    pad: bool,
)
    ensures
        ({
            let parts = truncation(segments, max, ellipsis, ellipsis_segments, ellipsis_ends, pad);
            let whole = truncated(
                text,
                segments,
                max,
                ellipsis,
                ellipsis_segments,
                ellipsis_ends,
                pad,
            );
            if parts.with_ellipsis {
                whole == pieces(text, segments, parts.kept) + reset_code() + ellipsis + spaces(
                    parts.padding,
                )
            } else if total_width(segments) <= max {
                whole == text + spaces(parts.padding)
            } else {
                whole == ellipsis_head(ellipsis, ellipsis_ends, max)
            }
        }),
{
    let parts = truncation(segments, max, ellipsis, ellipsis_segments, ellipsis_ends, pad);
    assert(spaces(0) =~= Seq::<u8>::empty());
    if parts.with_ellipsis {
        let body = pieces(text, segments, parts.kept) + reset_code() + ellipsis;
        assert(body + spaces(0) =~= body);
    } else {
        assert(text + spaces(0) =~= text);
    }
}

/// A text truncated without padding takes at most `max` columns, by the
/// count of its parts.
///
/// This holds of every text that fits and of every text that is cut before
/// the ellipsis. Where the ellipsis leaves no room and is itself cut to
/// `max` clusters, it holds if those clusters take no more than `max`
/// columns; clusters of two columns can take more.
pub proof fn lemma_truncated_columns_within_limit(
    segments: Seq<Segment>,
    max: nat,
    ellipsis: Seq<u8>,
    ellipsis_segments: Seq<Segment>,
    ellipsis_ends: Seq<usize>,
)
    requires
        total_width(segments) > max && total_width(ellipsis_segments) >= max ==> head_columns(
            ellipsis,
            ellipsis_ends,
            head_count(ellipsis_ends, max),
        ) <= max,
    ensures
        truncation(segments, max, ellipsis, ellipsis_segments, ellipsis_ends, false).columns
            <= max,
{
    let ellipsis_width = total_width(ellipsis_segments);
    if total_width(segments) > max && ellipsis_width < max {
        lemma_cut_within_target(segments, (max - ellipsis_width) as nat, 0);
    }
}

/// A text that is cut and padded takes exactly `max` columns, by the count
/// of its parts: the columns of the clusters kept, those of the ellipsis
/// and the spaces add up to `max`.
///
/// Where the ellipsis leaves no room and is itself cut to `max` clusters,
/// nothing is padded, and this holds only if those clusters take `max`
/// columns.
pub proof fn lemma_padded_columns_fill_limit(
    segments: Seq<Segment>,
    max: nat,
    ellipsis: Seq<u8>,
    ellipsis_segments: Seq<Segment>,
    ellipsis_ends: Seq<usize>,
)
    requires
        total_width(segments) > max,
        total_width(ellipsis_segments) >= max ==> head_columns(
            ellipsis,
            ellipsis_ends,
            head_count(ellipsis_ends, max),
        ) == max,
    ensures
        truncation(segments, max, ellipsis, ellipsis_segments, ellipsis_ends, true).columns
            == max,
{
    let ellipsis_width = total_width(ellipsis_segments);
    if ellipsis_width < max {
        lemma_cut_within_target(segments, (max - ellipsis_width) as nat, 0);
    }
}

/// A text that fits is not changed, unless padding is asked for.
pub proof fn lemma_fitting_text_unchanged(
    text: Seq<u8>,
    segments: Seq<Segment>,
    max: nat,
    ellipsis: Seq<u8>,
    ellipsis_segments: Seq<Segment>,
    ellipsis_ends: Seq<usize>,
)
    requires
        total_width(segments) <= max,
    ensures
        truncated(text, segments, max, ellipsis, ellipsis_segments, ellipsis_ends, false) == text,
{
}

/// The reset sequence is an escape sequence.
pub proof fn lemma_reset_is_escape()
    ensures
        is_escape_sequence(reset_code()),
{
    let code = reset_code();
    reveal_with_fuel(crate::ansi::csi_end, 3);
    assert(code[0] == ESC && code[1] == OPEN_BRACKET && code[2] == 0x30 && code[3] == LOWER_M);
    assert(escape_end(code, 0) == Some(4int));
}

/// Measured again, what is kept of a text, the reset sequence and the
/// ellipsis are as wide as what is kept and the ellipsis together, where the
/// reset sequence and the ellipsis change no escape sequence of what is
/// kept.
pub proof fn lemma_cut_text_measured_again(kept: Seq<u8>, ellipsis: Seq<u8>)
    requires
        keeps_escapes(kept, reset_code() + ellipsis),
    ensures
        visible_width_of(kept + reset_code() + ellipsis) == visible_width_of(kept)
            + visible_width_of(ellipsis),
{
    lemma_reset_is_escape();
    lemma_width_with_escape_between(kept, reset_code(), ellipsis);
}

} // verus!
