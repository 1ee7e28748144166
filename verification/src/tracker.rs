//! SGR state tracker: replays Select-Graphic-Rendition sequences to know the
//! styling in effect, and writes the sequence that brings that styling back.

use crate::ansi::{ESC, OPEN_BRACKET};
use crate::decimal::{parse_decimal, parse_u32};
use crate::tracker_laws::{
    lemma_active_codes_bring_style_back, lemma_replay_keeps_colors_ok, style_ok,
};
use crate::utf8::{lemma_ascii_is_boundary, push_text, str_piece};
use vstd::prelude::*;
use vstd::string::*;
use vstd::utf8::*;

verus! {

broadcast use vstd::utf8::encode_utf8_valid_utf8;

pub const SEMICOLON: u8 = 0x3b;

pub const LOWER_M: u8 = 0x6d;

/// The styling in effect: eight attributes that are on or off and, for the
/// foreground and for the background, the parameters that select the color
/// (`31`, `38;5;196`, `48;2;1;2;3`), or nothing for the default color.
pub struct Style {
    pub bold: bool,
    pub dim: bool,
    pub italic: bool,
    pub underline: bool,
    pub blink: bool,
    pub inverse: bool,
    pub hidden: bool,
    pub strikethrough: bool,
    pub fg: Option<Seq<u8>>,
    pub bg: Option<Seq<u8>>,
}

/// Nothing on, default colors.
pub open spec fn default_style() -> Style {
    Style {
        bold: false,
        dim: false,
        italic: false,
        underline: false,
        blink: false,
        inverse: false,
        hidden: false,
        strikethrough: false,
        fg: None,
        bg: None,
    }
}

/// The decimal digits of `n`.
pub open spec fn decimal_digits(n: nat) -> Seq<u8>
    decreases n,
{
    if n < 10 {
        seq![(0x30 + n) as u8]
    } else {
        decimal_digits(n / 10).push((0x30 + n % 10) as u8)
    }
}

pub open spec fn is_fg_code(code: u32) -> bool {
    30 <= code <= 37 || 90 <= code <= 97
}

pub open spec fn is_bg_code(code: u32) -> bool {
    40 <= code <= 47 || 100 <= code <= 107
}

/// The effect of one plain SGR parameter.
pub open spec fn apply_code(style: Style, code: u32) -> Style {
    if code == 0 {
        default_style()
    } else if code == 1 {
        Style { bold: true, ..style }
    } else if code == 2 {
        Style { dim: true, ..style }
    } else if code == 3 {
        Style { italic: true, ..style }
    } else if code == 4 {
        Style { underline: true, ..style }
    } else if code == 5 {
        Style { blink: true, ..style }
    } else if code == 7 {
        Style { inverse: true, ..style }
    } else if code == 8 {
        Style { hidden: true, ..style }
    } else if code == 9 {
        Style { strikethrough: true, ..style }
    } else if code == 21 {
        Style { bold: false, ..style }
    } else if code == 22 {
        Style { bold: false, dim: false, ..style }
    } else if code == 23 {
        Style { italic: false, ..style }
    } else if code == 24 {
        Style { underline: false, ..style }
    } else if code == 25 {
        Style { blink: false, ..style }
    } else if code == 27 {
        Style { inverse: false, ..style }
    } else if code == 28 {
        Style { hidden: false, ..style }
    } else if code == 29 {
        Style { strikethrough: false, ..style }
    } else if code == 39 {
        Style { fg: None, ..style }
    } else if code == 49 {
        Style { bg: None, ..style }
    } else if is_fg_code(code) {
        Style { fg: Some(decimal_digits(code as nat)), ..style }
    } else if is_bg_code(code) {
        Style { bg: Some(decimal_digits(code as nat)), ..style }
    } else {
        style
    }
}

/// The effect of an extended color (`38` for the foreground, `48` for the
/// background) with the parameters `color` as they were written.
pub open spec fn apply_color(style: Style, code: u32, color: Seq<u8>) -> Style {
    if code == 38 {
        Style { fg: Some(color), ..style }
    } else {
        Style { bg: Some(color), ..style }
    }
}

/// Where the field that starts at `from` ends: at the first semicolon in
/// `s[from..to]`, or at `to`.
pub open spec fn field_end(s: Seq<u8>, from: int, to: int) -> int
    decreases to - from,
{
    if from >= to {
        to
    } else if s[from] == SEMICOLON {
        from
    } else {
        field_end(s, from + 1, to)
    }
}

/// The fields of `s[from..to]` that semicolons separate; there is at least
/// one, and fields may be empty.
pub open spec fn split_fields(s: Seq<u8>, from: int, to: int) -> Seq<Seq<u8>>
    decreases to - from,
{
    let end = field_end(s, from, to);
    if from <= end < to {
        seq![s.subrange(from, end)] + split_fields(s, end + 1, to)
    } else {
        seq![s.subrange(from, to)]
    }
}

/// The fields `parts[i..i + count]` as they were written, semicolons
/// between them.
pub open spec fn join_fields(parts: Seq<Seq<u8>>, i: int, count: int) -> Seq<u8>
    decreases count,
{
    if count <= 1 {
        parts[i]
    } else {
        join_fields(parts, i, count - 1) + seq![SEMICOLON] + parts[i + count - 1]
    }
}

pub open spec fn is_single(part: Seq<u8>, b: u8) -> bool {
    part.len() == 1 && part[0] == b
}

/// The effect of the parameters `parts[i..]`, taken from left to right.
///
/// A parameter that is no number is skipped. `38` or `48` followed by `5` and
/// one more parameter, or by `2` and three more, sets a color and uses up all
/// these parameters. Every other number has the effect of `apply_code`.
pub open spec fn apply_params(style: Style, parts: Seq<Seq<u8>>, i: int) -> Style
    decreases parts.len() - i,
{
    if i < 0 || i >= parts.len() {
        style
    } else {
        match parse_u32(parts[i]) {
            None => apply_params(style, parts, i + 1),
            Some(code) => if (code == 38 || code == 48) && i + 2 < parts.len() && is_single(
                parts[i + 1],
                0x35,
            ) {
                apply_params(apply_color(style, code, join_fields(parts, i, 3)), parts, i + 3)
            } else if (code == 38 || code == 48) && i + 4 < parts.len() && is_single(
                parts[i + 1],
                0x32,
            ) {
                apply_params(apply_color(style, code, join_fields(parts, i, 5)), parts, i + 5)
            } else {
                apply_params(apply_code(style, code), parts, i + 1)
            },
        }
    }
}

/// Whether `code` has the shape of an SGR sequence: `ESC [`, parameters, `m`.
pub open spec fn is_sgr(code: Seq<u8>) -> bool {
    code.len() >= 3 && code[0] == ESC && code[1] == OPEN_BRACKET && code.last() == LOWER_M
}

/// The styling after the escape sequence `code`.
///
/// Anything but an SGR sequence changes nothing. An SGR sequence without
/// parameters resets the styling. Otherwise the parameters apply in turn.
pub open spec fn apply_sgr(style: Style, code: Seq<u8>) -> Style {
    if is_sgr(code) {
        let to = code.len() - 1;
        if to == 2 {
            default_style()
        } else {
            apply_params(style, split_fields(code, 2, to), 0)
        }
    } else {
        style
    }
}

/// `params` and, if `on`, one more parameter: the digit `digit`.
pub open spec fn with_flag(params: Seq<Seq<u8>>, on: bool, digit: u8) -> Seq<Seq<u8>> {
    if on {
        params.push(seq![(0x30 + digit) as u8])
    } else {
        params
    }
}

/// `params` and, if a color is set, its parameters.
pub open spec fn with_color(params: Seq<Seq<u8>>, color: Option<Seq<u8>>) -> Seq<Seq<u8>> {
    match color {
        Some(color) => params.push(color),
        None => params,
    }
}

/// The parameters that bring `style` back, in the order in which they are
/// written: `1`, `2`, `3`, `4`, `5`, `7`, `8`, `9` for the attributes that
/// are on, then the foreground and the background color.
pub open spec fn style_params(style: Style) -> Seq<Seq<u8>> {
    let p0 = Seq::<Seq<u8>>::empty();
    let p1 = with_flag(p0, style.bold, 1);
    let p2 = with_flag(p1, style.dim, 2);
    let p3 = with_flag(p2, style.italic, 3);
    let p4 = with_flag(p3, style.underline, 4);
    let p5 = with_flag(p4, style.blink, 5);
    let p6 = with_flag(p5, style.inverse, 7);
    let p7 = with_flag(p6, style.hidden, 8);
    let p8 = with_flag(p7, style.strikethrough, 9);
    with_color(with_color(p8, style.fg), style.bg)
}

/// The escape sequence that, after a reset, brings `style` back: nothing for
/// the default styling, else `ESC [`, the parameters of `style_params` with
/// semicolons between them, and `m`.
pub open spec fn active_codes(style: Style) -> Seq<u8> {
    let params = style_params(style);
    if params.len() == 0 {
        Seq::empty()
    } else {
        seq![ESC, OPEN_BRACKET] + join_fields(params, 0, params.len() as int) + seq![LOWER_M]
    }
}

/// The styling in effect at some point of a line.
#[derive(Debug)]
pub struct AnsiCodeTracker {
    pub bold: bool,
    pub dim: bool,
    pub italic: bool,
    pub underline: bool,
    pub blink: bool,
    pub inverse: bool,
    pub hidden: bool,
    pub strikethrough: bool,
    pub fg_color: Option<String>,
    pub bg_color: Option<String>,
}

/// The bytes of a color, if one is set.
pub open spec fn color_bytes(color: Option<String>) -> Option<Seq<u8>> {
    match color {
        Some(text) => Some(encode_utf8(text@)),
        None => None,
    }
}

impl View for AnsiCodeTracker {
    type V = Style;

    open spec fn view(&self) -> Style {
        Style {
            bold: self.bold,
            dim: self.dim,
            italic: self.italic,
            underline: self.underline,
            blink: self.blink,
            inverse: self.inverse,
            hidden: self.hidden,
            strikethrough: self.strikethrough,
            fg: color_bytes(self.fg_color),
            bg: color_bytes(self.bg_color),
        }
    }
}

/// The text of one decimal digit.
fn digit_text(digit: u8) -> (text: &'static str)
    requires
        digit < 10,
    ensures
        text.spec_bytes() == seq![(0x30 + digit) as u8],
{
    proof {
        reveal_strlit("0");
        reveal_strlit("1");
        reveal_strlit("2");
        reveal_strlit("3");
        reveal_strlit("4");
        reveal_strlit("5");
        reveal_strlit("6");
        reveal_strlit("7");
        reveal_strlit("8");
        reveal_strlit("9");
    }
    let text = if digit == 0 {
        "0"
    } else if digit == 1 {
        "1"
    } else if digit == 2 {
        "2"
    } else if digit == 3 {
        "3"
    } else if digit == 4 {
        "4"
    } else if digit == 5 {
        "5"
    } else if digit == 6 {
        "6"
    } else if digit == 7 {
        "7"
    } else if digit == 8 {
        "8"
    } else {
        "9"
    };
    proof {
        is_ascii_chars_encode_utf8(text@);
        assert(text.spec_bytes() =~= seq![(0x30 + digit) as u8]);
    }
    text
}

/// Appends the decimal digits of `n` to `out`.
fn push_decimal(out: &mut String, n: u32)
    ensures
        encode_utf8(final(out)@) == encode_utf8(old(out)@) + decimal_digits(n as nat),
    decreases n,
{
    if n >= 10 {
        push_decimal(out, n / 10);
    }
    push_text(out, digit_text((n % 10) as u8));
}

/// The ranges of the fields of `bytes[from..to]` that semicolons separate.
fn field_ranges(bytes: &[u8], from: usize, to: usize) -> (ranges: Vec<(usize, usize)>)
    requires
        from <= to <= bytes.len(),
    ensures
        ranges_match(bytes@, ranges@, split_fields(bytes@, from as int, to as int), to as int),
        ranges.len() > 0,
        ranges[0].0 == from,
{
    let mut ranges: Vec<(usize, usize)> = Vec::new();
    let mut start: usize = from;
    let mut i: usize = from;
    let ghost all = split_fields(bytes@, from as int, to as int);
    let ghost mut done = Seq::<Seq<u8>>::empty();
    while i < to
        invariant
            from <= start <= i <= to <= bytes.len(),
            all == split_fields(bytes@, from as int, to as int),
            done + split_fields(bytes@, start as int, to as int) == all,
            field_end(bytes@, i as int, to as int) == field_end(bytes@, start as int, to as int),
            ranges_match(bytes@, ranges@, done, start - 1),
            ranges.len() == 0 ==> start == from,
            ranges.len() > 0 ==> ranges[0].0 == from && bytes[start - 1] == SEMICOLON,
        decreases to - i,
    {
        if bytes[i] == SEMICOLON {
            proof {
                assert(done.push(bytes@.subrange(start as int, i as int)) + split_fields(
                    bytes@,
                    i + 1,
                    to as int,
                ) =~= done + split_fields(bytes@, start as int, to as int));
                done = done.push(bytes@.subrange(start as int, i as int));
            }
            ranges.push((start, i));
            start = i + 1;
        }
        i += 1;
    }
    proof {
        assert(done.push(bytes@.subrange(start as int, to as int)) =~= done + split_fields(
            bytes@,
            start as int,
            to as int,
        ));
    }
    ranges.push((start, to));
    ranges
}

/// `ranges` holds the places of the fields `parts` in `s`: each field, a
/// semicolon after it, the next field, and the last field ends at `to`.
pub open spec fn ranges_match(
    s: Seq<u8>,
    ranges: Seq<(usize, usize)>,
    parts: Seq<Seq<u8>>,
    to: int,
) -> bool {
    &&& ranges.len() == parts.len()
    &&& forall|k: int|
        0 <= k < ranges.len() ==> {
            &&& (#[trigger] ranges[k]).0 <= ranges[k].1 <= s.len()
            &&& parts[k] == s.subrange(ranges[k].0 as int, ranges[k].1 as int)
        }
    &&& forall|k: int|
        0 <= k < ranges.len() - 1 ==> {
            &&& (#[trigger] ranges[k]).1 < s.len()
            &&& s[ranges[k].1 as int] == SEMICOLON
        }
    &&& forall|j: int, k: int|
        0 <= j && j + 1 == k && k < ranges.len() ==> (#[trigger] ranges[k]).0 == (
        #[trigger] ranges[j]).1 + 1
    &&& ranges.len() > 0 ==> ranges.last().1 == to
}

/// Fields that follow one another in `s` are, taken together, the stretch
/// of `s` from the start of the first to the end of the last.
proof fn lemma_join_is_stretch(
    s: Seq<u8>,
    ranges: Seq<(usize, usize)>,
    parts: Seq<Seq<u8>>,
    to: int,
    i: int,
    count: int,
)
    requires
        ranges_match(s, ranges, parts, to),
        0 <= i,
        1 <= count,
        i + count <= ranges.len(),
    ensures
        join_fields(parts, i, count) == s.subrange(
            ranges[i].0 as int,
            ranges[i + count - 1].1 as int,
        ),
        ranges[i].0 <= ranges[i + count - 1].1,
    decreases count,
{
    if count > 1 {
        lemma_join_is_stretch(s, ranges, parts, to, i, count - 1);
        let last = i + count - 1;
        assert(ranges[last - 1].1 < s.len());
        assert(ranges[last].0 <= ranges[last].1);
        assert(join_fields(parts, i, count) =~= s.subrange(
            ranges[i].0 as int,
            ranges[last].1 as int,
        ));
    } else {
        assert(ranges[i].0 <= ranges[i].1);
    }
}

impl AnsiCodeTracker {
    /// A tracker with nothing on and default colors.
    pub fn new() -> (tracker: Self)
        ensures
            tracker@ == default_style(),
            style_ok(tracker@),
    {
        AnsiCodeTracker {
            bold: false,
            dim: false,
            italic: false,
            underline: false,
            blink: false,
            inverse: false,
            hidden: false,
            strikethrough: false,
            fg_color: None,
            bg_color: None,
        }
    }

    /// Turns everything off and goes back to the default colors.
    pub fn reset(&mut self)
        ensures
            final(self)@ == default_style(),
    {
        self.bold = false;
        self.dim = false;
        self.italic = false;
        self.underline = false;
        self.blink = false;
        self.inverse = false;
        self.hidden = false;
        self.strikethrough = false;
        self.fg_color = None;
        self.bg_color = None;
    }

    /// The same as `reset`.
    pub fn clear(&mut self)
        ensures
            final(self)@ == default_style(),
    {
        self.reset();
    }

    /// Applies one plain SGR parameter.
    fn apply(&mut self, code: u32)
        ensures
            final(self)@ == apply_code(old(self)@, code),
    {
        if code == 0 {
            self.reset();
        } else if code == 1 {
            self.bold = true;
        } else if code == 2 {
            self.dim = true;
        } else if code == 3 {
            self.italic = true;
        } else if code == 4 {
            self.underline = true;
        } else if code == 5 {
            self.blink = true;
        } else if code == 7 {
            self.inverse = true;
        } else if code == 8 {
            self.hidden = true;
        } else if code == 9 {
            self.strikethrough = true;
        } else if code == 21 {
            self.bold = false;
        } else if code == 22 {
            self.bold = false;
            self.dim = false;
        } else if code == 23 {
            self.italic = false;
        } else if code == 24 {
            self.underline = false;
        } else if code == 25 {
            self.blink = false;
        } else if code == 27 {
            self.inverse = false;
        } else if code == 28 {
            self.hidden = false;
        } else if code == 29 {
            self.strikethrough = false;
        } else if code == 39 {
            self.fg_color = None;
        } else if code == 49 {
            self.bg_color = None;
        } else if (30 <= code && code <= 37) || (90 <= code && code <= 97) {
            let mut color = String::new();
            push_decimal(&mut color, code);
            assert(encode_utf8(color@) =~= decimal_digits(code as nat));
            self.fg_color = Some(color);
        } else if (40 <= code && code <= 47) || (100 <= code && code <= 107) {
            let mut color = String::new();
            push_decimal(&mut color, code);
            assert(encode_utf8(color@) =~= decimal_digits(code as nat));
            self.bg_color = Some(color);
        }
    }

    /// Sets the foreground (`code` 38) or the background color.
    fn set_color(&mut self, code: u32, color: String)
        ensures
            final(self)@ == apply_color(old(self)@, code, encode_utf8(color@)),
    {
        if code == 38 {
            self.fg_color = Some(color);
        } else {
            self.bg_color = Some(color);
        }
    }

    /// Replays one escape sequence.
    ///
    /// Only SGR sequences count: `ESC [`, parameters separated by semicolons,
    /// `m`. Whatever else is handed in leaves the styling as it is.
    pub fn process(&mut self, ansi_code: &str)
        ensures
            final(self)@ == apply_sgr(old(self)@, ansi_code.spec_bytes()),
            style_ok(old(self)@) ==> style_ok(final(self)@),
    {
        proof {
            if style_ok(self@) {
                lemma_replay_keeps_colors_ok(self@, ansi_code.spec_bytes());
            }
        }
        let bytes = ansi_code.as_bytes();
        let n = bytes.len();
        if n < 3 || bytes[0] != ESC || bytes[1] != OPEN_BRACKET || bytes[n - 1] != LOWER_M {
            return ;
        }
        let to: usize = n - 1;
        if to == 2 {
            self.reset();
            return ;
        }
        let ranges = field_ranges(bytes, 2, to);
        let ghost parts = split_fields(bytes@, 2, to as int);
        let mut i: usize = 0;
        while i < ranges.len()
            invariant
                i <= ranges.len(),
                bytes@ == ansi_code.spec_bytes(),
                valid_utf8(bytes@),
                to < bytes@.len(),
                bytes@[1] == OPEN_BRACKET,
                bytes@[to as int] == LOWER_M,
                ranges.len() > 0,
                ranges[0].0 == 2,
                ranges_match(bytes@, ranges@, parts, to as int),
                apply_params(self@, parts, i as int) == apply_params(old(self)@, parts, 0),
            decreases ranges.len() - i,
        {
            let (start, end) = ranges[i];
            let left: usize = ranges.len() - i;
            match parse_decimal(bytes, start, end) {
                None => {
                    i += 1;
                },
                Some(code) => {
                    let count: usize = if (code == 38 || code == 48) && left > 2 && holds_single(
                        bytes,
                        ranges[i + 1],
                        0x35,
                    ) {
                        3
                    } else if (code == 38 || code == 48) && left > 4 && holds_single(
                        bytes,
                        ranges[i + 1],
                        0x32,
                    ) {
                        5
                    } else {
                        1
                    };
                    if count == 1 {
                        self.apply(code);
                    } else {
                        let last = ranges[i + count - 1].1;
                        proof {
                            lemma_join_is_stretch(
                                bytes@,
                                ranges@,
                                parts,
                                to as int,
                                i as int,
                                count as int,
                            );
                            if i == 0 {
                                lemma_ascii_is_boundary(bytes@, 1);
                            } else {
                                assert(ranges[i - 1].1 + 1 == ranges[i as int].0);
                                lemma_ascii_is_boundary(bytes@, start - 1);
                            }
                            if i + count == ranges.len() {
                                assert(last == to);
                            } else {
                                assert(bytes@[ranges[i + count - 1].1 as int] == SEMICOLON);
                            }
                            lemma_ascii_is_boundary(bytes@, last as int);
                        }
                        let color = str_piece(ansi_code, start, last).to_owned();
                        self.set_color(code, color);
                    }
                    i += count;
                },
            }
        }
    }

    /// The escape sequence that, after a reset, brings the tracked styling
    /// back; empty when the styling is the default one.
    pub fn get_active_codes(&self) -> (codes: String)
        ensures
            encode_utf8(codes@) == active_codes(self@),
            style_ok(self@) ==> apply_sgr(default_style(), encode_utf8(codes@)) == self@,
    {
        proof {
            if style_ok(self@) {
                lemma_active_codes_bring_style_back(self@);
            }
        }
        self.write_active_codes()
    }

    /// Writes the sequence of `get_active_codes`.
    fn write_active_codes(&self) -> (codes: String)
        ensures
            encode_utf8(codes@) == active_codes(self@),
    {
        let mut out = String::new();
        assert(encode_utf8(out@) =~= Seq::<u8>::empty());
        let ghost p0 = Seq::<Seq<u8>>::empty();
        push_flag(&mut out, self.bold, 1, Ghost(p0));
        let ghost p1 = with_flag(p0, self.bold, 1);
        push_flag(&mut out, self.dim, 2, Ghost(p1));
        let ghost p2 = with_flag(p1, self.dim, 2);
        push_flag(&mut out, self.italic, 3, Ghost(p2));
        let ghost p3 = with_flag(p2, self.italic, 3);
        push_flag(&mut out, self.underline, 4, Ghost(p3));
        let ghost p4 = with_flag(p3, self.underline, 4);
        push_flag(&mut out, self.blink, 5, Ghost(p4));
        let ghost p5 = with_flag(p4, self.blink, 5);
        push_flag(&mut out, self.inverse, 7, Ghost(p5));
        let ghost p6 = with_flag(p5, self.inverse, 7);
        push_flag(&mut out, self.hidden, 8, Ghost(p6));
        let ghost p7 = with_flag(p6, self.hidden, 8);
        push_flag(&mut out, self.strikethrough, 9, Ghost(p7));
        let ghost p8 = with_flag(p7, self.strikethrough, 9);
        push_color(&mut out, &self.fg_color, Ghost(p8));
        let ghost p9 = with_color(p8, color_bytes(self.fg_color));
        push_color(&mut out, &self.bg_color, Ghost(p9));
        if out.as_str().as_bytes().len() > 0 {
            proof {
                reveal_strlit("m");
                is_ascii_chars_encode_utf8("m"@);
                assert("m".spec_bytes() =~= seq![LOWER_M]);
            }
            push_text(&mut out, "m");
        }
        out
    }
}

/// Appends the parameter of an attribute if the attribute is on.
fn push_flag(out: &mut String, on: bool, digit: u8, Ghost(params): Ghost<Seq<Seq<u8>>>)
    requires
        digit < 10,
        encode_utf8(old(out)@) == written_params(params),
    ensures
        encode_utf8(final(out)@) == written_params(with_flag(params, on, digit)),
{
    if on {
        push_param(out, digit_text(digit), Ghost(params));
    }
}

/// Appends the parameters of a color if one is set.
fn push_color(out: &mut String, color: &Option<String>, Ghost(params): Ghost<Seq<Seq<u8>>>)
    requires
        encode_utf8(old(out)@) == written_params(params),
    ensures
        encode_utf8(final(out)@) == written_params(with_color(params, color_bytes(*color))),
{
    match color {
        Some(text) => {
            push_param(out, text.as_str(), Ghost(params));
        },
        None => {},
    }
}

/// Whether the field at `range` is the single byte `b`.
fn holds_single(bytes: &[u8], range: (usize, usize), b: u8) -> (r: bool)
    requires
        range.0 <= range.1 <= bytes.len(),
    ensures
        r == is_single(bytes@.subrange(range.0 as int, range.1 as int), b),
{
    range.1 - range.0 == 1 && bytes[range.0] == b
}

/// What `get_active_codes` has written after the parameters `params`:
/// nothing yet, or `ESC [` and the parameters with semicolons between them.
pub open spec fn written_params(params: Seq<Seq<u8>>) -> Seq<u8> {
    if params.len() == 0 {
        Seq::empty()
    } else {
        seq![ESC, OPEN_BRACKET] + join_fields(params, 0, params.len() as int)
    }
}

/// Appends one more parameter to a sequence under construction.
fn push_param(out: &mut String, param: &str, Ghost(params): Ghost<Seq<Seq<u8>>>)
    requires
        encode_utf8(old(out)@) == written_params(params),
    ensures
        encode_utf8(final(out)@) == written_params(params.push(param.spec_bytes())),
{
    proof {
        reveal_strlit("\x1b[");
        is_ascii_chars_encode_utf8("\x1b["@);
        assert("\x1b[".spec_bytes() =~= seq![ESC, OPEN_BRACKET]);
        reveal_strlit(";");
        is_ascii_chars_encode_utf8(";"@);
        assert(";".spec_bytes() =~= seq![SEMICOLON]);
    }
    if out.as_str().as_bytes().len() == 0 {
        push_text(out, "\x1b[");
    } else {
        push_text(out, ";");
    }
    push_text(out, param);
    proof {
        let more = params.push(param.spec_bytes());
        let count = params.len() as int;
        lemma_join_prefix(params, more, count);
        assert(more[count] == param.spec_bytes());
        if count == 0 {
            assert(join_fields(more, 0, 1) == more[0]);
        } else {
            assert(join_fields(more, 0, count + 1) == join_fields(more, 0, count) + seq![SEMICOLON]
                + more[count]);
        }
        assert(encode_utf8(out@) =~= written_params(more));
    }
}

/// Joining the first `count` fields does not look at the fields after them.
proof fn lemma_join_prefix(parts: Seq<Seq<u8>>, more: Seq<Seq<u8>>, count: int)
    requires
        0 <= count <= parts.len() <= more.len(),
        forall|k: int| 0 <= k < parts.len() ==> parts[k] == more[k],
    ensures
        count >= 1 ==> join_fields(parts, 0, count) == join_fields(more, 0, count),
    decreases count,
{
    if count > 1 {
        lemma_join_prefix(parts, more, count - 1);
    }
}

} // verus!
