//! What holds of the SGR state tracker: the sequence that it writes brings
//! back the styling that it tracked.

use crate::ansi::{ESC, OPEN_BRACKET};
use crate::decimal::parse_u32;
use crate::tracker::{
    active_codes, apply_code, apply_color, apply_params, apply_sgr, decimal_digits,
    default_style, field_end, is_bg_code, is_fg_code, is_sgr, is_single, join_fields,
    split_fields, style_params, with_color, with_flag, Style, LOWER_M, SEMICOLON,
};
use vstd::prelude::*;

verus! {

/// No byte of `s` is a semicolon.
pub open spec fn no_semicolon(s: Seq<u8>) -> bool {
    forall|i: int| 0 <= i < s.len() ==> s[i] != SEMICOLON
}

/// No field holds a semicolon.
pub open spec fn plain_fields(fields: Seq<Seq<u8>>) -> bool {
    forall|k: int| 0 <= k < fields.len() ==> no_semicolon(#[trigger] fields[k])
}

/// The fields of `s` that semicolons separate.
pub open spec fn fields_of(s: Seq<u8>) -> Seq<Seq<u8>> {
    split_fields(s, 0, s.len() as int)
}

/// The number of the extended color parameter: 38 for the foreground, 48
/// for the background.
pub open spec fn extended_code(background: bool) -> u32 {
    if background {
        48
    } else {
        38
    }
}

/// `color` is the number of a basic color, written without leading zeros.
pub open spec fn is_basic_color(color: Seq<u8>, background: bool) -> bool {
    match parse_u32(color) {
        Some(n) => color == decimal_digits(n as nat) && if background {
            is_bg_code(n)
        } else {
            is_fg_code(n)
        },
        None => false,
    }
}

/// `color` is an extended color: `38` or `48`, then `5` and one more
/// parameter, or `2` and three more.
pub open spec fn is_extended_color(color: Seq<u8>, background: bool) -> bool {
    let fields = fields_of(color);
    &&& fields.len() == 3 || fields.len() == 5
    &&& parse_u32(fields[0]) == Some(extended_code(background))
    &&& fields.len() == 3 ==> is_single(fields[1], 0x35)
    &&& fields.len() == 5 ==> is_single(fields[1], 0x32)
}

/// A color is none, a basic color or an extended color.
pub open spec fn color_ok(color: Option<Seq<u8>>, background: bool) -> bool {
    match color {
        Some(c) => is_basic_color(c, background) || is_extended_color(c, background),
        None => true,
    }
}

/// The colors of a styling are such as a tracker sets them.
pub open spec fn style_ok(style: Style) -> bool {
    color_ok(style.fg, false) && color_ok(style.bg, true)
}

pub proof fn lemma_field_end(s: Seq<u8>, from: int, to: int)
    requires
        0 <= from <= to <= s.len(),
    ensures
        from <= field_end(s, from, to) <= to,
        forall|i: int| from <= i < field_end(s, from, to) ==> s[i] != SEMICOLON,
        field_end(s, from, to) < to ==> s[field_end(s, from, to)] == SEMICOLON,
    decreases to - from,
{
    if from < to && s[from] != SEMICOLON {
        lemma_field_end(s, from + 1, to);
    }
}

/// Where a stretch holds no semicolon, its field ends where it ends.
pub proof fn lemma_field_end_plain(s: Seq<u8>, from: int, to: int)
    requires
        0 <= from <= to <= s.len(),
        forall|i: int| from <= i < to ==> s[i] != SEMICOLON,
    ensures
        field_end(s, from, to) == to,
    decreases to - from,
{
    if from < to {
        lemma_field_end_plain(s, from + 1, to);
    }
}

/// The field that starts at `from` ends at the first semicolon.
pub proof fn lemma_field_end_at(s: Seq<u8>, from: int, p: int, to: int)
    requires
        0 <= from <= p < to <= s.len(),
        s[p] == SEMICOLON,
        forall|i: int| from <= i < p ==> s[i] != SEMICOLON,
    ensures
        field_end(s, from, to) == p,
    decreases p - from,
{
    if from < p {
        lemma_field_end_at(s, from + 1, p, to);
    }
}

/// The fields of a stretch depend on the bytes of the stretch alone.
pub proof fn lemma_split_local(s: Seq<u8>, from: int, to: int, t: Seq<u8>, start: int)
    requires
        0 <= from <= to <= s.len(),
        0 <= start,
        start + (to - from) <= t.len(),
        s.subrange(from, to) == t.subrange(start, start + (to - from)),
    ensures
        split_fields(s, from, to) == split_fields(t, start, start + (to - from)),
    decreases to - from,
{
    let end = start + (to - from);
    lemma_field_end(s, from, to);
    lemma_field_end(t, start, end);
    let e = field_end(s, from, to);
    assert forall|i: int| from <= i < to implies #[trigger] s[i] == t[start + (i - from)] by {
        assert(s[i] == s.subrange(from, to)[i - from]);
        assert(t[start + (i - from)] == t.subrange(start, end)[i - from]);
    }
    assert forall|j: int| start <= j < end implies #[trigger] t[j] == s[from + (j - start)] by {
        assert(t[j] == t.subrange(start, end)[j - start]);
        assert(s[from + (j - start)] == s.subrange(from, to)[j - start]);
    }
    if e < to {
        lemma_field_end_at(t, start, start + (e - from), end);
        assert(s.subrange(e + 1, to) =~= t.subrange(start + (e - from) + 1, end));
        lemma_split_local(s, e + 1, to, t, start + (e - from) + 1);
        assert(s.subrange(from, e) =~= t.subrange(start, start + (e - from)));
    } else {
        lemma_field_end_plain(t, start, end);
    }
}

/// A stretch without a semicolon is one field.
pub proof fn lemma_split_plain(s: Seq<u8>, from: int, to: int)
    requires
        0 <= from <= to <= s.len(),
        forall|i: int| from <= i < to ==> s[i] != SEMICOLON,
    ensures
        split_fields(s, from, to) == seq![s.subrange(from, to)],
{
    lemma_field_end_plain(s, from, to);
}

/// The fields of a stretch with a semicolon at `p` are the fields before
/// `p` and the fields after it.
pub proof fn lemma_split_at(s: Seq<u8>, from: int, p: int, to: int)
    requires
        0 <= from <= p < to <= s.len(),
        s[p] == SEMICOLON,
    ensures
        split_fields(s, from, to) == split_fields(s, from, p) + split_fields(s, p + 1, to),
    decreases p - from,
{
    lemma_field_end(s, from, to);
    lemma_field_end(s, from, p);
    let e = field_end(s, from, to);
    if e == p {
        lemma_field_end_plain(s, from, p);
        assert(split_fields(s, from, to) =~= split_fields(s, from, p) + split_fields(
            s,
            p + 1,
            to,
        ));
    } else {
        assert(e < p);
        lemma_field_end_at(s, from, e, p);
        lemma_split_at(s, e + 1, p, to);
        assert(split_fields(s, from, to) =~= split_fields(s, from, p) + split_fields(
            s,
            p + 1,
            to,
        ));
    }
}

/// No field holds a semicolon, and there is at least one field.
pub proof fn lemma_split_gives_plain_fields(s: Seq<u8>, from: int, to: int)
    requires
        0 <= from <= to <= s.len(),
    ensures
        plain_fields(split_fields(s, from, to)),
        split_fields(s, from, to).len() >= 1,
    decreases to - from,
{
    lemma_field_end(s, from, to);
    let e = field_end(s, from, to);
    let fields = split_fields(s, from, to);
    if e < to {
        lemma_split_gives_plain_fields(s, e + 1, to);
        let rest = split_fields(s, e + 1, to);
        assert(fields =~= seq![s.subrange(from, e)] + rest);
        assert forall|k: int| 0 <= k < fields.len() implies no_semicolon(
            #[trigger] fields[k],
        ) by {
            if k > 0 {
                assert(fields[k] == rest[k - 1]);
            }
        }
    } else {
        assert(fields =~= seq![s.subrange(from, to)]);
    }
}

/// Joined fields are never empty when there are two or more of them.
pub proof fn lemma_join_len(parts: Seq<Seq<u8>>, i: int, count: int)
    requires
        count >= 2,
    ensures
        join_fields(parts, i, count).len() >= count - 1,
    decreases count,
{
    if count > 2 {
        lemma_join_len(parts, i, count - 1);
    }
}

/// Joining fields looks at the fields that it joins alone.
pub proof fn lemma_join_local(
    parts: Seq<Seq<u8>>,
    i: int,
    other: Seq<Seq<u8>>,
    j: int,
    count: int,
)
    requires
        count >= 1,
        0 <= i,
        i + count <= parts.len(),
        0 <= j,
        j + count <= other.len(),
        parts.subrange(i, i + count) == other.subrange(j, j + count),
    ensures
        join_fields(parts, i, count) == join_fields(other, j, count),
    decreases count,
{
    let a = parts.subrange(i, i + count);
    let b = other.subrange(j, j + count);
    assert(parts[i + count - 1] == a[count - 1]);
    assert(other[j + count - 1] == b[count - 1]);
    if count > 1 {
        assert(parts.subrange(i, i + count - 1) =~= a.take(count - 1));
        assert(other.subrange(j, j + count - 1) =~= b.take(count - 1));
        lemma_join_local(parts, i, other, j, count - 1);
    }
}

/// The fields of joined fields are the fields that were joined.
pub proof fn lemma_split_join(parts: Seq<Seq<u8>>, i: int, count: int)
    requires
        0 <= i,
        1 <= count,
        i + count <= parts.len(),
        plain_fields(parts),
    ensures
        fields_of(join_fields(parts, i, count)) == parts.subrange(i, i + count),
    decreases count,
{
    let joined = join_fields(parts, i, count);
    if count == 1 {
        assert(no_semicolon(parts[i]));
        lemma_split_plain(joined, 0, joined.len() as int);
        assert(joined.subrange(0, joined.len() as int) =~= joined);
        assert(fields_of(joined) =~= parts.subrange(i, i + 1));
    } else {
        let head = join_fields(parts, i, count - 1);
        let last = parts[i + count - 1];
        let p = head.len() as int;
        assert(joined == head + seq![SEMICOLON] + last);
        assert(joined[p] == SEMICOLON);
        lemma_split_at(joined, 0, p, joined.len() as int);
        lemma_split_join(parts, i, count - 1);
        assert(joined.subrange(0, p) =~= head.subrange(0, p));
        lemma_split_local(joined, 0, p, head, 0);
        assert(no_semicolon(last));
        assert forall|k: int| p + 1 <= k < joined.len() implies joined[k] != SEMICOLON by {
            assert(joined[k] == last[k - p - 1]);
        }
        lemma_split_plain(joined, p + 1, joined.len() as int);
        assert(joined.subrange(p + 1, joined.len() as int) =~= last);
        assert(fields_of(joined) =~= parts.subrange(i, i + count));
    }
}

/// Joining the fields of a string gives the string back.
pub proof fn lemma_join_split(s: Seq<u8>, from: int, to: int)
    requires
        0 <= from <= to <= s.len(),
    ensures
        join_fields(split_fields(s, from, to), 0, split_fields(s, from, to).len() as int)
            == s.subrange(from, to),
    decreases to - from,
{
    lemma_field_end(s, from, to);
    let e = field_end(s, from, to);
    let fields = split_fields(s, from, to);
    if e < to {
        let rest = split_fields(s, e + 1, to);
        lemma_join_split(s, e + 1, to);
        lemma_split_gives_plain_fields(s, e + 1, to);
        assert(fields =~= seq![s.subrange(from, e)] + rest);
        lemma_join_front(s.subrange(from, e), rest, rest.len() as int);
        assert(s.subrange(from, e) + seq![SEMICOLON] + s.subrange(e + 1, to) =~= s.subrange(
            from,
            to,
        ));
    } else {
        assert(fields =~= seq![s.subrange(from, to)]);
    }
}

/// Joining a field and more fields puts the field, a semicolon and the
/// joined rest one after the other.
pub proof fn lemma_join_front(first: Seq<u8>, rest: Seq<Seq<u8>>, count: int)
    requires
        1 <= count <= rest.len(),
    ensures
        join_fields(seq![first] + rest, 0, count + 1) == first + seq![SEMICOLON] + join_fields(
            rest,
            0,
            count,
        ),
    decreases count,
{
    let all = seq![first] + rest;
    assert(all[count] == rest[count - 1]);
    if count == 1 {
        assert(all[0] == first);
        assert(join_fields(all, 0, 1) == first);
        assert(join_fields(all, 0, 2) == join_fields(all, 0, 1) + seq![SEMICOLON] + all[1]);
    } else {
        lemma_join_front(first, rest, count - 1);
        assert(join_fields(all, 0, count + 1) =~= first + seq![SEMICOLON] + join_fields(
            rest,
            0,
            count,
        ));
    }
}

/// Joining two lists of fields, one after the other, joins what each of
/// them joins to.
pub proof fn lemma_join_concat(a: Seq<Seq<u8>>, b: Seq<Seq<u8>>, count: int)
    requires
        a.len() >= 1,
        1 <= count <= b.len(),
    ensures
        join_fields(a + b, 0, a.len() + count) == join_fields(a, 0, a.len() as int) + seq![
            SEMICOLON,
        ] + join_fields(b, 0, count),
    decreases count,
{
    let all = a + b;
    let n = a.len() as int;
    assert(all[n + count - 1] == b[count - 1]);
    if count == 1 {
        assert(all.subrange(0, n) =~= a.subrange(0, n));
        lemma_join_local(all, 0, a, 0, n);
    } else {
        lemma_join_concat(a, b, count - 1);
        assert(join_fields(all, 0, n + count) =~= join_fields(a, 0, n) + seq![SEMICOLON]
            + join_fields(b, 0, count));
    }
}

/// The parameters for the attributes of a styling that are on.
pub open spec fn flag_params(style: Style) -> Seq<Seq<u8>> {
    let p0 = Seq::<Seq<u8>>::empty();
    let p1 = with_flag(p0, style.bold, 1);
    let p2 = with_flag(p1, style.dim, 2);
    let p3 = with_flag(p2, style.italic, 3);
    let p4 = with_flag(p3, style.underline, 4);
    let p5 = with_flag(p4, style.blink, 5);
    let p6 = with_flag(p5, style.inverse, 7);
    let p7 = with_flag(p6, style.hidden, 8);
    with_flag(p7, style.strikethrough, 9)
}

/// The fields of a color, if one is set.
pub open spec fn color_fields(color: Option<Seq<u8>>) -> Seq<Seq<u8>> {
    match color {
        Some(c) => fields_of(c),
        None => Seq::empty(),
    }
}

/// The fields of the sequence that brings a styling back.
pub open spec fn style_fields(style: Style) -> Seq<Seq<u8>> {
    flag_params(style) + color_fields(style.fg) + color_fields(style.bg)
}

/// `first` is the start of `all`.
pub open spec fn starts(all: Seq<Seq<u8>>, first: Seq<Seq<u8>>) -> bool {
    first.len() <= all.len() && all.subrange(0, first.len() as int) == first
}

/// `digit` is the parameter of an attribute.
pub open spec fn is_flag_digit(digit: u8) -> bool {
    1 <= digit <= 9 && digit != 6
}

proof fn lemma_starts_shorter(all: Seq<Seq<u8>>, prev: Seq<Seq<u8>>, on: bool, digit: u8)
    requires
        starts(all, with_flag(prev, on, digit)),
    ensures
        starts(all, prev),
        on ==> all[prev.len() as int] == seq![(0x30 + digit) as u8],
{
    let next = with_flag(prev, on, digit);
    assert(all.subrange(0, prev.len() as int) =~= next.subrange(0, prev.len() as int));
    assert(next.subrange(0, prev.len() as int) =~= prev);
    if on {
        assert(all[prev.len() as int] == all.subrange(0, next.len() as int)[prev.len() as int]);
    }
}

/// A parameter of one digit is read as that digit.
proof fn lemma_parse_digit(digit: u8)
    requires
        digit <= 9,
    ensures
        parse_u32(seq![(0x30 + digit) as u8]) == Some(digit as u32),
{
    let s = seq![(0x30 + digit) as u8];
    assert(s.drop_last() =~= Seq::<u8>::empty());
    assert(crate::decimal::digits_value(s.drop_last()) == 0);
    assert(crate::decimal::digits_value(s) == digit);
}

/// The parameter of an attribute that is on turns the attribute on.
proof fn lemma_flag_step(
    fields: Seq<Seq<u8>>,
    prev: Seq<Seq<u8>>,
    on: bool,
    digit: u8,
    style: Style,
)
    requires
        is_flag_digit(digit),
        starts(fields, with_flag(prev, on, digit)),
    ensures
        apply_params(style, fields, prev.len() as int) == apply_params(
            if on {
                apply_code(style, digit as u32)
            } else {
                style
            },
            fields,
            with_flag(prev, on, digit).len() as int,
        ),
{
    lemma_starts_shorter(fields, prev, on, digit);
    if on {
        lemma_parse_digit(digit);
    }
}

/// A string that reads as a number holds no semicolon.
proof fn lemma_number_is_plain(s: Seq<u8>)
    requires
        parse_u32(s) is Some,
    ensures
        no_semicolon(s),
        s.len() >= 1,
{
    let digits = if s.len() > 0 && s[0] == 0x2b {
        s.skip(1)
    } else {
        s
    };
    assert forall|i: int| 0 <= i < s.len() implies s[i] != SEMICOLON by {
        if s[0] == 0x2b {
            if i > 0 {
                assert(crate::decimal::is_digit(digits[i - 1]));
            }
        } else {
            assert(crate::decimal::is_digit(digits[i]));
        }
    }
}

/// The styling with one color set.
pub open spec fn with_color_set(style: Style, color: Option<Seq<u8>>, background: bool) -> Style {
    match color {
        Some(c) => if background {
            Style { bg: Some(c), ..style }
        } else {
            Style { fg: Some(c), ..style }
        },
        None => style,
    }
}

/// The fields of a color set the color.
proof fn lemma_color_step(
    fields: Seq<Seq<u8>>,
    at: int,
    color: Option<Seq<u8>>,
    background: bool,
    style: Style,
)
    requires
        color_ok(color, background),
        0 <= at,
        at + color_fields(color).len() <= fields.len(),
        fields.subrange(at, at + color_fields(color).len()) == color_fields(color),
    ensures
        apply_params(style, fields, at) == apply_params(
            with_color_set(style, color, background),
            fields,
            at + color_fields(color).len(),
        ),
{
    match color {
        Some(c) => {
            let own = fields_of(c);
            let part = fields.subrange(at, at + own.len());
            lemma_split_gives_plain_fields(c, 0, c.len() as int);
            assert(fields[at] == part[0]);
            if is_basic_color(c, background) {
                lemma_number_is_plain(c);
                lemma_split_plain(c, 0, c.len() as int);
                assert(c.subrange(0, c.len() as int) =~= c);
                assert(own.len() == 1);
                assert(fields[at] == c);
            } else {
                lemma_join_split(c, 0, c.len() as int);
                assert(c.subrange(0, c.len() as int) =~= c);
                assert(fields[at + 1] == part[1]);
                assert(own.subrange(0, own.len() as int) =~= own);
                lemma_join_local(fields, at, own, 0, own.len() as int);
                assert(!is_single(fields[at + 1], 0x35) || !is_single(fields[at + 1], 0x32));
            }
        },
        None => {},
    }
}

/// The parameters for the first four attributes that are on.
pub open spec fn low_flag_params(style: Style) -> Seq<Seq<u8>> {
    let p0 = Seq::<Seq<u8>>::empty();
    let p1 = with_flag(p0, style.bold, 1);
    let p2 = with_flag(p1, style.dim, 2);
    let p3 = with_flag(p2, style.italic, 3);
    with_flag(p3, style.underline, 4)
}

/// The attributes of a styling alone, with the default colors.
pub open spec fn flags_alone(style: Style) -> Style {
    Style { fg: None, bg: None, ..style }
}

/// The first four attributes of a styling alone.
pub open spec fn low_flags_alone(style: Style) -> Style {
    Style {
        bold: style.bold,
        dim: style.dim,
        italic: style.italic,
        underline: style.underline,
        ..default_style()
    }
}

proof fn lemma_low_flags(all: Seq<Seq<u8>>, style: Style)
    requires
        starts(all, low_flag_params(style)),
    ensures
        apply_params(default_style(), all, 0) == apply_params(
            low_flags_alone(style),
            all,
            low_flag_params(style).len() as int,
        ),
{
    let p0 = Seq::<Seq<u8>>::empty();
    let p1 = with_flag(p0, style.bold, 1);
    let p2 = with_flag(p1, style.dim, 2);
    let p3 = with_flag(p2, style.italic, 3);
    lemma_starts_shorter(all, p3, style.underline, 4);
    lemma_starts_shorter(all, p2, style.italic, 3);
    lemma_starts_shorter(all, p1, style.dim, 2);
    let s0 = default_style();
    let s1 = Style { bold: style.bold, ..s0 };
    let s2 = Style { dim: style.dim, ..s1 };
    let s3 = Style { italic: style.italic, ..s2 };
    lemma_flag_step(all, p0, style.bold, 1, s0);
    lemma_flag_step(all, p1, style.dim, 2, s1);
    lemma_flag_step(all, p2, style.italic, 3, s2);
    lemma_flag_step(all, p3, style.underline, 4, s3);
}

proof fn lemma_high_flags(all: Seq<Seq<u8>>, style: Style)
    requires
        starts(all, flag_params(style)),
    ensures
        starts(all, low_flag_params(style)),
        apply_params(low_flags_alone(style), all, low_flag_params(style).len() as int)
            == apply_params(flags_alone(style), all, flag_params(style).len() as int),
{
    let p4 = low_flag_params(style);
    let p5 = with_flag(p4, style.blink, 5);
    let p6 = with_flag(p5, style.inverse, 7);
    let p7 = with_flag(p6, style.hidden, 8);
    lemma_starts_shorter(all, p7, style.strikethrough, 9);
    lemma_starts_shorter(all, p6, style.hidden, 8);
    lemma_starts_shorter(all, p5, style.inverse, 7);
    lemma_starts_shorter(all, p4, style.blink, 5);
    let s4 = low_flags_alone(style);
    let s5 = Style { blink: style.blink, ..s4 };
    let s6 = Style { inverse: style.inverse, ..s5 };
    let s7 = Style { hidden: style.hidden, ..s6 };
    lemma_flag_step(all, p4, style.blink, 5, s4);
    lemma_flag_step(all, p5, style.inverse, 7, s5);
    lemma_flag_step(all, p6, style.hidden, 8, s6);
    lemma_flag_step(all, p7, style.strikethrough, 9, s7);
}

/// The fields of the sequence for a styling, applied to the default
/// styling, give the styling.
proof fn lemma_fields_bring_style_back(style: Style)
    requires
        style_ok(style),
    ensures
        apply_params(default_style(), style_fields(style), 0) == style,
{
    let all = style_fields(style);
    let p8 = flag_params(style);
    let fg = color_fields(style.fg);
    let bg = color_fields(style.bg);
    assert(all.subrange(0, p8.len() as int) =~= p8);
    lemma_high_flags(all, style);
    lemma_low_flags(all, style);
    let s8 = flags_alone(style);
    let n8 = p8.len() as int;
    let n9 = n8 + fg.len();
    assert(all.subrange(n8, n9) =~= fg);
    lemma_color_step(all, n8, style.fg, false, s8);
    let s9 = with_color_set(s8, style.fg, false);
    assert(all.subrange(n9, n9 + bg.len()) =~= bg);
    lemma_color_step(all, n9, style.bg, true, s9);
    let s10 = with_color_set(s9, style.bg, true);
    assert(apply_params(s10, all, all.len() as int) == s10);
    assert(s10 == style);
}

/// What two lists of parameters join to stays the same when a color is put
/// after the one and its fields after the other.
proof fn lemma_join_with_color(
    params: Seq<Seq<u8>>,
    fields: Seq<Seq<u8>>,
    color: Option<Seq<u8>>,
)
    requires
        params.len() == 0 <==> fields.len() == 0,
        params.len() > 0 ==> join_fields(params, 0, params.len() as int) == join_fields(
            fields,
            0,
            fields.len() as int,
        ),
    ensures
        ({
            let more_params = with_color(params, color);
            let more_fields = fields + color_fields(color);
            &&& more_params.len() == 0 <==> more_fields.len() == 0
            &&& more_params.len() > 0 ==> join_fields(more_params, 0, more_params.len() as int)
                == join_fields(more_fields, 0, more_fields.len() as int)
        }),
{
    match color {
        Some(c) => {
            let own = fields_of(c);
            let more_params = params.push(c);
            let more_fields = fields + own;
            lemma_split_gives_plain_fields(c, 0, c.len() as int);
            lemma_join_split(c, 0, c.len() as int);
            assert(c.subrange(0, c.len() as int) =~= c);
            if params.len() == 0 {
                assert(more_fields =~= own);
                assert(more_params[0] == c);
            } else {
                lemma_join_concat(fields, own, own.len() as int);
                assert(more_params.subrange(0, params.len() as int) =~= params.subrange(
                    0,
                    params.len() as int,
                ));
                lemma_join_local(more_params, 0, params, 0, params.len() as int);
                assert(more_params[params.len() as int] == c);
            }
        },
        None => {
            assert(fields + color_fields(color) =~= fields);
        },
    }
}

/// The parameters of an SGR sequence for a styling are the fields of the
/// styling.
proof fn lemma_active_codes_fields(style: Style)
    requires
        style_ok(style),
        style_params(style).len() > 0,
    ensures
        is_sgr(active_codes(style)),
        active_codes(style).len() > 3,
        split_fields(active_codes(style), 2, active_codes(style).len() - 1) == style_fields(
            style,
        ),
{
    let code = active_codes(style);
    let params = style_params(style);
    let flags = flag_params(style);
    let all = style_fields(style);
    let joined = join_fields(params, 0, params.len() as int);
    lemma_join_with_color(flags, flags, style.fg);
    lemma_join_with_color(with_color(flags, style.fg), flags + color_fields(style.fg), style.fg);
    lemma_join_with_color(with_color(flags, style.fg), flags + color_fields(style.fg), style.bg);
    assert(params == with_color(with_color(flags, style.fg), style.bg));
    assert(joined == join_fields(all, 0, all.len() as int));
    lemma_style_fields_plain(style);
    assert(all.subrange(0, all.len() as int) =~= all);
    lemma_split_join(all, 0, all.len() as int);
    assert(joined.len() >= 1) by {
        if all.len() >= 2 {
            lemma_join_len(all, 0, all.len() as int);
        }
    }
    assert(code == seq![ESC, OPEN_BRACKET] + joined + seq![LOWER_M]);
    assert(code.subrange(2, code.len() - 1) =~= joined.subrange(0, joined.len() as int));
    lemma_split_local(code, 2, code.len() - 1, joined, 0);
}

/// The fields of a styling hold no semicolon, and none of them is empty
/// where there is only one.
proof fn lemma_style_fields_plain(style: Style)
    requires
        style_ok(style),
    ensures
        plain_fields(style_fields(style)),
        style_fields(style).len() == 1 ==> style_fields(style)[0].len() >= 1,
{
    let flags = flag_params(style);
    let fg = color_fields(style.fg);
    let bg = color_fields(style.bg);
    let all = style_fields(style);
    lemma_color_fields_plain(style.fg, false);
    lemma_color_fields_plain(style.bg, true);
    lemma_flag_params_plain(style);
    assert forall|k: int| 0 <= k < all.len() implies no_semicolon(#[trigger] all[k]) by {
        if k < flags.len() {
            assert(all[k] == flags[k]);
        } else if k < flags.len() + fg.len() {
            assert(all[k] == fg[k - flags.len()]);
        } else {
            assert(all[k] == bg[k - flags.len() - fg.len()]);
        }
    }
    if all.len() == 1 {
        if flags.len() == 1 {
            assert(all[0] == flags[0]);
        } else if fg.len() == 1 {
            assert(all[0] == fg[0]);
        } else {
            assert(all[0] == bg[0]);
        }
    }
}

proof fn lemma_color_fields_plain(color: Option<Seq<u8>>, background: bool)
    requires
        color_ok(color, background),
    ensures
        plain_fields(color_fields(color)),
        color_fields(color).len() == 1 ==> color_fields(color)[0].len() >= 1,
{
    match color {
        Some(c) => {
            lemma_split_gives_plain_fields(c, 0, c.len() as int);
            if is_basic_color(c, background) {
                lemma_number_is_plain(c);
                lemma_split_plain(c, 0, c.len() as int);
                assert(c.subrange(0, c.len() as int) =~= c);
            }
        },
        None => {},
    }
}

proof fn lemma_flag_params_plain(style: Style)
    ensures
        plain_fields(flag_params(style)),
        forall|k: int| 0 <= k < flag_params(style).len() ==> (#[trigger] flag_params(style)[k]).len()
            == 1,
{
    let p0 = Seq::<Seq<u8>>::empty();
    let p1 = with_flag(p0, style.bold, 1);
    let p2 = with_flag(p1, style.dim, 2);
    let p3 = with_flag(p2, style.italic, 3);
    let p4 = with_flag(p3, style.underline, 4);
    let p5 = with_flag(p4, style.blink, 5);
    let p6 = with_flag(p5, style.inverse, 7);
    let p7 = with_flag(p6, style.hidden, 8);
    let p8 = with_flag(p7, style.strikethrough, 9);
    lemma_flag_plain(p0, style.bold, 1);
    lemma_flag_plain(p1, style.dim, 2);
    lemma_flag_plain(p2, style.italic, 3);
    lemma_flag_plain(p3, style.underline, 4);
    lemma_flag_plain(p4, style.blink, 5);
    lemma_flag_plain(p5, style.inverse, 7);
    lemma_flag_plain(p6, style.hidden, 8);
    lemma_flag_plain(p7, style.strikethrough, 9);
}

/// All parameters are single digits.
spec fn single_digits(params: Seq<Seq<u8>>) -> bool {
    forall|k: int|
        0 <= k < params.len() ==> (#[trigger] params[k]).len() == 1 && no_semicolon(params[k])
}

proof fn lemma_flag_plain(prev: Seq<Seq<u8>>, on: bool, digit: u8)
    requires
        single_digits(prev),
        digit <= 9,
    ensures
        single_digits(with_flag(prev, on, digit)),
{
    let next = with_flag(prev, on, digit);
    assert forall|k: int| 0 <= k < next.len() implies (#[trigger] next[k]).len() == 1
        && no_semicolon(next[k]) by {
        if k < prev.len() {
            assert(next[k] == prev[k]);
        }
    }
}

/// The sequence that a tracker writes brings the styling back: replayed
/// onto the default styling, it gives the styling that it was written for.
///
/// This holds of every styling whose colors are such as a tracker sets
/// them, and `lemma_replay_keeps_colors_ok` says that a tracker never holds
/// another.
pub proof fn lemma_active_codes_bring_style_back(style: Style)
    requires
        style_ok(style),
    ensures
        apply_sgr(default_style(), active_codes(style)) == style,
{
    if style_params(style).len() == 0 {
        assert(style.fg is None && style.bg is None);
        assert(!style.bold && !style.dim && !style.italic && !style.underline && !style.blink
            && !style.inverse && !style.hidden && !style.strikethrough);
        assert(style == default_style());
    } else {
        lemma_active_codes_fields(style);
        lemma_fields_bring_style_back(style);
    }
}

/// The decimal digits of a number are digits, and they denote the number.
pub proof fn lemma_decimal_digits(n: nat)
    ensures
        decimal_digits(n).len() >= 1,
        crate::decimal::all_digits(decimal_digits(n)),
        crate::decimal::digits_value(decimal_digits(n)) == n,
    decreases n,
{
    let digits = decimal_digits(n);
    if n >= 10 {
        lemma_decimal_digits(n / 10);
        let shorter = decimal_digits(n / 10);
        assert(digits.drop_last() =~= shorter);
        assert(digits.last() == (0x30 + n % 10) as u8);
        assert forall|i: int| 0 <= i < digits.len() implies crate::decimal::is_digit(
            #[trigger] digits[i],
        ) by {
            if i < shorter.len() {
                assert(digits[i] == shorter[i]);
            }
        }
    } else {
        assert(digits.drop_last() =~= Seq::<u8>::empty());
        assert(crate::decimal::digits_value(digits.drop_last()) == 0);
    }
}

/// A number written in decimal digits is read as that number.
pub proof fn lemma_parse_decimal_digits(n: u32)
    ensures
        parse_u32(decimal_digits(n as nat)) == Some(n),
{
    lemma_decimal_digits(n as nat);
    assert(crate::decimal::is_digit(decimal_digits(n as nat)[0]));
}

proof fn lemma_apply_code_keeps_colors_ok(style: Style, code: u32)
    requires
        style_ok(style),
    ensures
        style_ok(apply_code(style, code)),
{
    if is_fg_code(code) || is_bg_code(code) {
        lemma_parse_decimal_digits(code);
    }
}

proof fn lemma_apply_params_keeps_colors_ok(style: Style, parts: Seq<Seq<u8>>, i: int)
    requires
        style_ok(style),
        plain_fields(parts),
        0 <= i,
    ensures
        style_ok(apply_params(style, parts, i)),
    decreases parts.len() - i,
{
    if i < parts.len() {
        match parse_u32(parts[i]) {
            None => {
                lemma_apply_params_keeps_colors_ok(style, parts, i + 1);
            },
            Some(code) => {
                if (code == 38 || code == 48) && i + 2 < parts.len() && is_single(
                    parts[i + 1],
                    0x35,
                ) {
                    lemma_split_join(parts, i, 3);
                    let color = join_fields(parts, i, 3);
                    assert(fields_of(color)[0] == parts[i]);
                    assert(fields_of(color)[1] == parts[i + 1]);
                    assert(is_extended_color(color, code == 48));
                    lemma_apply_params_keeps_colors_ok(
                        apply_color(style, code, color),
                        parts,
                        i + 3,
                    );
                } else if (code == 38 || code == 48) && i + 4 < parts.len() && is_single(
                    parts[i + 1],
                    0x32,
                ) {
                    lemma_split_join(parts, i, 5);
                    let color = join_fields(parts, i, 5);
                    assert(fields_of(color)[0] == parts[i]);
                    assert(fields_of(color)[1] == parts[i + 1]);
                    assert(is_extended_color(color, code == 48));
                    lemma_apply_params_keeps_colors_ok(
                        apply_color(style, code, color),
                        parts,
                        i + 5,
                    );
                } else {
                    lemma_apply_code_keeps_colors_ok(style, code);
                    lemma_apply_params_keeps_colors_ok(apply_code(style, code), parts, i + 1);
                }
            },
        }
    }
}

/// Whatever is replayed, the colors of a tracker stay such as a tracker
/// sets them.
pub proof fn lemma_replay_keeps_colors_ok(style: Style, code: Seq<u8>)
    requires
        style_ok(style),
    ensures
        style_ok(apply_sgr(style, code)),
{
    if is_sgr(code) && code.len() - 1 > 2 {
        lemma_split_gives_plain_fields(code, 2, code.len() - 1);
        lemma_apply_params_keeps_colors_ok(style, split_fields(code, 2, code.len() - 1), 0);
    }
}

} // verus!
