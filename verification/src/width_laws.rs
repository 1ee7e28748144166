//! What holds of the visible width when lines are put together.

use crate::ansi::{
    csi_end, escape_end, is_csi_final, lemma_escape_end_bounds, lemma_next_escape_bounds,
    next_escape, next_escape_or_end, osc_end, BACKSLASH, BEL, CLOSE_BRACKET, ESC, OPEN_BRACKET,
};
use crate::segment::{
    column_at, escape_segment, run_end, run_segments, scan, scan_from, total_width,
    visible_width_of, Segment,
};
use vstd::prelude::*;

verus! {

/// Two lists of segments take the same columns, segment by segment.
pub open spec fn same_columns(first: Seq<Segment>, second: Seq<Segment>) -> bool {
    &&& first.len() == second.len()
    &&& forall|k: int| 0 <= k < first.len() ==> first[k].columns() == second[k].columns()
}

/// `end`, moved `by` bytes to the right.
pub open spec fn moved_end(end: Option<int>, by: int) -> Option<int> {
    match end {
        Some(e) => Some(e + by),
        None => None,
    }
}

/// No escape sequence of `line` is left open: wherever ESC and `[` or `]`
/// stand, the sequence that they open ends inside `line`.
pub open spec fn no_open_escape(line: Seq<u8>) -> bool {
    forall|p: int|
        0 <= p && p + 1 < line.len() && #[trigger] line[p] == ESC && (line[p + 1] == OPEN_BRACKET
            || line[p + 1] == CLOSE_BRACKET) ==> escape_end(line, p) is Some
}

/// `code` is one whole escape sequence.
pub open spec fn is_escape_sequence(code: Seq<u8>) -> bool {
    escape_end(code, 0) == Some(code.len() as int)
}

proof fn lemma_csi_end_in_suffix(a: Seq<u8>, b: Seq<u8>, j: int)
    requires
        0 <= j,
    ensures
        csi_end(a + b, a.len() + j) == moved_end(csi_end(b, j), a.len() as int),
    decreases b.len() - j,
{
    if j < b.len() {
        assert((a + b)[a.len() + j] == b[j]);
        if !is_csi_final(b[j]) {
            lemma_csi_end_in_suffix(a, b, j + 1);
        }
    }
}

proof fn lemma_osc_end_in_suffix(a: Seq<u8>, b: Seq<u8>, j: int)
    requires
        0 <= j,
    ensures
        osc_end(a + b, a.len() + j) == moved_end(osc_end(b, j), a.len() as int),
    decreases b.len() - j,
{
    if j < b.len() {
        assert((a + b)[a.len() + j] == b[j]);
        if j + 1 < b.len() {
            assert((a + b)[a.len() + j + 1] == b[j + 1]);
        }
        if b[j] != BEL && !(b[j] == ESC && j + 1 < b.len() && b[j + 1] == BACKSLASH) {
            lemma_osc_end_in_suffix(a, b, j + 1);
        }
    }
}

/// Whether an escape sequence starts at a place, and where it ends, depends
/// on nothing before that place.
pub proof fn lemma_escape_end_in_suffix(a: Seq<u8>, b: Seq<u8>, p: int)
    requires
        0 <= p,
    ensures
        escape_end(a + b, a.len() + p) == moved_end(escape_end(b, p), a.len() as int),
{
    if p + 1 < b.len() {
        assert((a + b)[a.len() + p] == b[p]);
        assert((a + b)[a.len() + p + 1] == b[p + 1]);
        lemma_csi_end_in_suffix(a, b, p + 2);
        lemma_osc_end_in_suffix(a, b, p + 2);
    }
}

proof fn lemma_csi_end_in_prefix(a: Seq<u8>, b: Seq<u8>, j: int)
    requires
        0 <= j,
        csi_end(a, j) is Some,
    ensures
        csi_end(a + b, j) == csi_end(a, j),
    decreases a.len() - j,
{
    assert((a + b)[j] == a[j]);
    if !is_csi_final(a[j]) {
        lemma_csi_end_in_prefix(a, b, j + 1);
    }
}

proof fn lemma_osc_end_in_prefix(a: Seq<u8>, b: Seq<u8>, j: int)
    requires
        0 <= j,
        osc_end(a, j) is Some,
    ensures
        osc_end(a + b, j) == osc_end(a, j),
    decreases a.len() - j,
{
    assert((a + b)[j] == a[j]);
    if a[j] == BEL {
    } else if a[j] == ESC && j + 1 < a.len() && a[j + 1] == BACKSLASH {
        assert((a + b)[j + 1] == a[j + 1]);
    } else {
        if a[j] == ESC && j + 1 < a.len() {
            assert((a + b)[j + 1] == a[j + 1]);
        }
        if a[j] == ESC && j + 1 == a.len() {
            assert(osc_end(a, j + 1) is None);
        }
        lemma_osc_end_in_prefix(a, b, j + 1);
    }
}

/// An escape sequence stays what it is when text is written after it.
pub proof fn lemma_escape_end_in_prefix(a: Seq<u8>, b: Seq<u8>, p: int)
    requires
        escape_end(a, p) is Some,
    ensures
        escape_end(a + b, p) == escape_end(a, p),
{
    assert((a + b)[p] == a[p]);
    assert((a + b)[p + 1] == a[p + 1]);
    if a[p + 1] == OPEN_BRACKET {
        lemma_csi_end_in_prefix(a, b, p + 2);
    } else {
        lemma_osc_end_in_prefix(a, b, p + 2);
    }
}

/// Whether `b` can follow a line without opening an escape sequence with
/// the last byte of that line: `b` is empty or starts with neither `[` nor
/// `]`.
pub open spec fn starts_apart(b: Seq<u8>) -> bool {
    b.len() == 0 || (b[0] != OPEN_BRACKET && b[0] != CLOSE_BRACKET)
}

/// Writing `b` after `a` changes no escape sequence of `a`: at every place
/// of `a` the same escape sequence starts as before, or none as before.
pub open spec fn keeps_escapes(a: Seq<u8>, b: Seq<u8>) -> bool {
    forall|p: int| 0 <= p < a.len() ==> #[trigger] escape_end(a + b, p) == escape_end(a, p)
}

/// Where no escape sequence of `a` is left open, what is written after `a`
/// makes no escape sequence start in `a` that did not start there before.
pub proof fn lemma_escape_end_sealed(a: Seq<u8>, b: Seq<u8>, p: int)
    requires
        no_open_escape(a),
        starts_apart(b),
        0 <= p < a.len(),
    ensures
        escape_end(a + b, p) == escape_end(a, p),
{
    assert((a + b)[p] == a[p]);
    if escape_end(a, p) is Some {
        lemma_escape_end_in_prefix(a, b, p);
    } else if a[p] == ESC {
        if p + 1 < a.len() {
            assert((a + b)[p + 1] == a[p + 1]);
        } else if b.len() > 0 {
            assert((a + b)[p + 1] == b[0]);
        }
    }
}

/// Where no escape sequence of `a` is left open and `b` does not start with
/// a bracket, writing `b` after `a` changes no escape sequence of `a`.
pub proof fn lemma_closed_keeps_escapes(a: Seq<u8>, b: Seq<u8>)
    requires
        no_open_escape(a),
        starts_apart(b),
    ensures
        keeps_escapes(a, b),
{
    assert forall|p: int| 0 <= p < a.len() implies #[trigger] escape_end(a + b, p) == escape_end(
        a,
        p,
    ) by {
        lemma_escape_end_sealed(a, b, p);
    }
}

proof fn lemma_next_escape_sealed(a: Seq<u8>, b: Seq<u8>, from: int)
    requires
        keeps_escapes(a, b),
        escape_end(b, 0) is Some,
        0 <= from <= a.len(),
    ensures
        next_escape_or_end(a + b, from) == next_escape_or_end(a, from),
    decreases a.len() - from,
{
    if from < a.len() {
        assert(escape_end(a + b, from) == escape_end(a, from));
        if escape_end(a, from) is None {
            lemma_next_escape_sealed(a, b, from + 1);
        }
    } else {
        lemma_escape_end_in_suffix(a, b, 0);
    }
}

proof fn lemma_next_escape_in_suffix(a: Seq<u8>, b: Seq<u8>, from: int)
    requires
        0 <= from,
    ensures
        next_escape(a + b, a.len() + from) == moved_end(next_escape(b, from), a.len() as int),
    decreases b.len() - from,
{
    if from < b.len() {
        lemma_escape_end_in_suffix(a, b, from);
        if escape_end(b, from) is None {
            lemma_next_escape_in_suffix(a, b, from + 1);
        }
    }
}

/// The columns of the segments of a line from some place on depend on
/// nothing before that place.
pub proof fn lemma_scan_in_suffix(a: Seq<u8>, b: Seq<u8>, p: int)
    requires
        0 <= p,
    ensures
        same_columns(scan_from(a + b, a.len() + p), scan_from(b, p)),
    decreases b.len() - p,
{
    let n = a.len() as int;
    let whole = a + b;
    if p < b.len() {
        lemma_escape_end_in_suffix(a, b, p);
        lemma_escape_end_bounds(b, p);
        match escape_end(b, p) {
            Some(end) => {
                lemma_scan_in_suffix(a, b, end);
                lemma_same_columns_joined(
                    seq![escape_segment(n + p, n + end)],
                    scan_from(whole, n + end),
                    seq![escape_segment(p, end)],
                    scan_from(b, end),
                );
            },
            None => {
                lemma_next_escape_in_suffix(a, b, p + 1);
                lemma_next_escape_bounds(b, p + 1);
                let end = run_end(b, p);
                assert(run_end(whole, n + p) == n + end);
                assert(whole.subrange(n + p, n + end) =~= b.subrange(p, end));
                lemma_scan_in_suffix(a, b, end);
                lemma_same_columns_joined(
                    run_segments(whole, n + p, n + end),
                    scan_from(whole, n + end),
                    run_segments(b, p, end),
                    scan_from(b, end),
                );
            },
        }
    }
}

/// Lists that take the same columns still do so when each gets a tail and
/// the tails take the same columns.
pub proof fn lemma_same_columns_joined(
    first: Seq<Segment>,
    first_tail: Seq<Segment>,
    second: Seq<Segment>,
    second_tail: Seq<Segment>,
)
    requires
        same_columns(first, second),
        same_columns(first_tail, second_tail),
    ensures
        same_columns(first + first_tail, second + second_tail),
{
    let x = first + first_tail;
    let y = second + second_tail;
    assert forall|k: int| 0 <= k < x.len() implies x[k].columns() == y[k].columns() by {
        if k < first.len() {
            assert(x[k] == first[k] && y[k] == second[k]);
        } else {
            assert(x[k] == first_tail[k - first.len()] && y[k] == second_tail[k - first.len()]);
        }
    }
}

/// Where `b` starts with an escape sequence and changes no escape sequence
/// of `a`, the segments of `a` followed by `b` take the columns of those of
/// `a` and then of those of `b`.
pub proof fn lemma_scan_sealed(a: Seq<u8>, b: Seq<u8>, p: int)
    requires
        keeps_escapes(a, b),
        escape_end(b, 0) is Some,
        0 <= p <= a.len(),
    ensures
        same_columns(scan_from(a + b, p), scan_from(a, p) + scan(b)),
    decreases a.len() - p,
{
    let n = a.len() as int;
    let whole = a + b;
    if p < n {
        lemma_escape_end_bounds(b, 0);
        assert(escape_end(a + b, p) == escape_end(a, p));
        lemma_escape_end_bounds(a, p);
        match escape_end(a, p) {
            Some(end) => {
                lemma_scan_sealed(a, b, end);
                let head = seq![escape_segment(p, end)];
                lemma_same_columns_joined(
                    head,
                    scan_from(whole, end),
                    head,
                    scan_from(a, end) + scan(b),
                );
                assert(head + (scan_from(a, end) + scan(b)) =~= scan_from(a, p) + scan(b));
            },
            None => {
                lemma_next_escape_sealed(a, b, p + 1);
                lemma_next_escape_bounds(a, p + 1);
                let end = run_end(a, p);
                assert(run_end(whole, p) == end);
                assert(whole.subrange(p, end) =~= a.subrange(p, end));
                lemma_scan_sealed(a, b, end);
                let head = run_segments(a, p, end);
                lemma_same_columns_joined(
                    run_segments(whole, p, end),
                    scan_from(whole, end),
                    head,
                    scan_from(a, end) + scan(b),
                );
                assert(head + (scan_from(a, end) + scan(b)) =~= scan_from(a, p) + scan(b));
            },
        }
    } else {
        lemma_scan_in_suffix(a, b, 0);
        assert(scan_from(a, p) =~= Seq::<Segment>::empty());
        assert(scan_from(a, p) + scan(b) =~= scan(b));
    }
}

/// Lists that take the same columns, segment by segment, are equally wide.
pub proof fn lemma_same_columns_same_width(first: Seq<Segment>, second: Seq<Segment>, n: int)
    requires
        same_columns(first, second),
        0 <= n <= first.len(),
    ensures
        column_at(first, n) == column_at(second, n),
    decreases n,
{
    if n > 0 {
        lemma_same_columns_same_width(first, second, n - 1);
    }
}

/// The columns of two lists of segments, one after the other, add up.
pub proof fn lemma_columns_add(first: Seq<Segment>, second: Seq<Segment>, n: int)
    requires
        0 <= n <= second.len(),
    ensures
        column_at(first + second, first.len() + n) == total_width(first) + column_at(second, n),
    decreases n,
{
    if n > 0 {
        lemma_columns_add(first, second, n - 1);
        assert((first + second)[first.len() + n - 1] == second[n - 1]);
    } else {
        lemma_columns_of_prefix(first, first + second, first.len() as int);
    }
}

/// The column at which a segment starts depends on the segments before it
/// alone.
pub proof fn lemma_columns_of_prefix(first: Seq<Segment>, longer: Seq<Segment>, n: int)
    requires
        0 <= n <= first.len() <= longer.len(),
        forall|k: int| 0 <= k < first.len() ==> first[k] == longer[k],
    ensures
        column_at(longer, n) == column_at(first, n),
    decreases n,
{
    if n > 0 {
        lemma_columns_of_prefix(first, longer, n - 1);
    }
}

/// Where `b` starts with an escape sequence and changes no escape sequence
/// of `a`, `a` followed by `b` is as wide as `a` and `b` together.
pub proof fn lemma_width_sealed(a: Seq<u8>, b: Seq<u8>)
    requires
        keeps_escapes(a, b),
        escape_end(b, 0) is Some,
    ensures
        visible_width_of(a + b) == visible_width_of(a) + visible_width_of(b),
{
    lemma_scan_sealed(a, b, 0);
    let joined = scan(a) + scan(b);
    lemma_same_columns_same_width(scan(a + b), joined, joined.len() as int);
    lemma_columns_add(scan(a), scan(b), scan(b).len() as int);
}

/// An escape sequence at the start of a line adds nothing to its width.
pub proof fn lemma_width_after_escape(code: Seq<u8>, rest: Seq<u8>)
    requires
        is_escape_sequence(code),
    ensures
        visible_width_of(code + rest) == visible_width_of(rest),
{
    let n = code.len() as int;
    lemma_escape_end_bounds(code, 0);
    lemma_escape_end_in_prefix(code, rest, 0);
    lemma_scan_in_suffix(code, rest, 0);
    let first = seq![escape_segment(0, n)];
    let whole = scan(code + rest);
    assert(whole =~= first + scan_from(code + rest, n));
    lemma_same_columns_joined(first, scan_from(code + rest, n), first, scan(rest));
    let joined = first + scan(rest);
    lemma_same_columns_same_width(whole, joined, joined.len() as int);
    lemma_columns_add(first, scan(rest), scan(rest).len() as int);
    assert(total_width(first) == 0) by {
        assert(column_at(first, 0) == 0);
    }
}

/// A line with an escape sequence put between two parts of it is as wide
/// as the two parts together, where the sequence and what follows it change
/// no escape sequence of the part before it.
pub proof fn lemma_width_with_escape_between(head: Seq<u8>, code: Seq<u8>, tail: Seq<u8>)
    requires
        is_escape_sequence(code),
        keeps_escapes(head, code + tail),
    ensures
        visible_width_of(head + code + tail) == visible_width_of(head) + visible_width_of(tail),
{
    lemma_escape_end_bounds(code, 0);
    lemma_escape_end_in_prefix(code, tail, 0);
    lemma_width_sealed(head, code + tail);
    lemma_width_after_escape(code, tail);
    assert(head + code + tail =~= head + (code + tail));
}

/// Inserting an escape sequence leaves the visible width as it is.
///
/// This holds of a place `at` at which the line falls into two parts as far
/// as its width goes, where the inserted sequence and what follows it change
/// no escape sequence that starts before the place: an open `ESC [` or
/// `ESC ]` there could take a byte of the inserted sequence for its end.
pub proof fn lemma_insert_escape_keeps_width(line: Seq<u8>, code: Seq<u8>, at: int)
    requires
        0 <= at <= line.len(),
        is_escape_sequence(code),
        keeps_escapes(line.take(at), code + line.skip(at)),
        visible_width_of(line) == visible_width_of(line.take(at)) + visible_width_of(
            line.skip(at),
        ),
    ensures
        visible_width_of(line.take(at) + code + line.skip(at)) == visible_width_of(line),
{
    lemma_width_with_escape_between(line.take(at), code, line.skip(at));
}

/// A line falls into two parts, as far as its width goes, at its start, at
/// its end, and before each of its escape sequences that is not part of an
/// escape sequence that starts earlier.
pub proof fn lemma_width_splits(line: Seq<u8>, at: int)
    requires
        0 <= at <= line.len(),
        at == 0 || at == line.len() || (escape_end(line, at) is Some && keeps_escapes(
            line.take(at),
            line.skip(at),
        )),
    ensures
        visible_width_of(line) == visible_width_of(line.take(at)) + visible_width_of(
            line.skip(at),
        ),
{
    let head = line.take(at);
    let tail = line.skip(at);
    assert(head + tail =~= line);
    if at == 0 {
        assert(tail =~= line);
        assert(scan(head) =~= Seq::<Segment>::empty());
    } else if at == line.len() {
        assert(head =~= line);
        assert(scan(tail) =~= Seq::<Segment>::empty());
    } else {
        lemma_escape_end_in_suffix(head, tail, 0);
        lemma_width_sealed(head, tail);
    }
}

proof fn lemma_csi_end_cut(a: Seq<u8>, b: Seq<u8>, j: int)
    requires
        0 <= j <= a.len(),
        csi_end(a + b, j) is Some,
        csi_end(a + b, j).unwrap() <= a.len(),
    ensures
        csi_end(a, j) == csi_end(a + b, j),
    decreases a.len() - j,
{
    crate::ansi::lemma_csi_end_bounds(a + b, j);
    if j < a.len() {
        assert((a + b)[j] == a[j]);
        if !is_csi_final(a[j]) {
            lemma_csi_end_cut(a, b, j + 1);
        }
    }
}

proof fn lemma_osc_end_cut(a: Seq<u8>, b: Seq<u8>, j: int)
    requires
        0 <= j <= a.len(),
        osc_end(a + b, j) is Some,
        osc_end(a + b, j).unwrap() <= a.len(),
    ensures
        osc_end(a, j) == osc_end(a + b, j),
    decreases a.len() - j,
{
    crate::ansi::lemma_osc_end_bounds(a + b, j);
    if j < a.len() {
        assert((a + b)[j] == a[j]);
        if j + 1 < a.len() {
            assert((a + b)[j + 1] == a[j + 1]);
        }
        if a[j] == BEL {
        } else if a[j] == ESC && j + 1 < (a + b).len() && (a + b)[j + 1] == BACKSLASH {
        } else {
            lemma_osc_end_cut(a, b, j + 1);
        }
    }
}

/// An escape sequence cut out of its line is one whole escape sequence.
pub proof fn lemma_escape_cut_out(line: Seq<u8>, start: int, end: int)
    requires
        escape_end(line, start) == Some(end),
    ensures
        0 <= start <= end <= line.len(),
        is_escape_sequence(line.subrange(start, end)),
{
    lemma_escape_end_bounds(line, start);
    let head = line.take(start);
    let rest = line.skip(start);
    let code = line.subrange(start, end);
    let tail = line.skip(end);
    assert(line =~= head + rest);
    assert(rest =~= code + tail);
    lemma_escape_end_in_suffix(head, rest, 0);
    assert(escape_end(rest, 0) == Some(end - start));
    assert(rest[0] == code[0] && rest[1] == code[1]);
    if code[1] == OPEN_BRACKET {
        lemma_csi_end_cut(code, tail, 2);
    } else {
        lemma_osc_end_cut(code, tail, 2);
    }
}

/// What changes no escape sequence of `a` when all of it is written after
/// `a` changes none when only its start is written there.
pub proof fn lemma_keeps_escapes_shorter(a: Seq<u8>, b: Seq<u8>, c: Seq<u8>)
    requires
        keeps_escapes(a, b + c),
    ensures
        keeps_escapes(a, b),
{
    assert forall|p: int| 0 <= p < a.len() implies #[trigger] escape_end(a + b, p) == escape_end(
        a,
        p,
    ) by {
        assert((a + b) + c =~= a + (b + c));
        assert(escape_end(a + (b + c), p) == escape_end(a, p));
        if escape_end(a + b, p) is Some {
            lemma_escape_end_in_prefix(a + b, c, p);
        } else if escape_end(a, p) is Some {
            lemma_escape_end_in_prefix(a, b, p);
        }
    }
}

/// A line falls into two parts, as far as its width goes, after each of its
/// escape sequences that is not part of an escape sequence that starts
/// earlier.
pub proof fn lemma_width_splits_after_escape(line: Seq<u8>, start: int, at: int)
    requires
        escape_end(line, start) == Some(at),
        keeps_escapes(line.take(start), line.skip(start)),
    ensures
        0 <= at <= line.len(),
        visible_width_of(line) == visible_width_of(line.take(at)) + visible_width_of(
            line.skip(at),
        ),
{
    lemma_escape_cut_out(line, start, at);
    let head = line.take(start);
    let code = line.subrange(start, at);
    let tail = line.skip(at);
    let nothing = Seq::<u8>::empty();
    assert(line =~= head + (code + tail));
    assert(line.skip(start) =~= code + tail);
    assert(line.take(at) =~= head + code);
    lemma_escape_end_in_prefix(code, tail, 0);
    lemma_width_sealed(head, code + tail);
    lemma_width_after_escape(code, tail);
    lemma_keeps_escapes_shorter(head, code, tail);
    lemma_width_sealed(head, code);
    lemma_width_after_escape(code, nothing);
    assert(code + nothing =~= code);
    assert(scan(nothing) =~= Seq::<Segment>::empty());
}

} // verus!
