use pi_natives::segment::{grapheme_width, scan_line};
use pi_natives::width::{add_columns, clamp_u32, segments_width, visible_width};

#[test]
fn plain_text_counts_one_column_per_character() {
    assert_eq!(visible_width("hello"), 5);
    assert_eq!(visible_width(""), 0);
}

#[test]
fn escape_sequences_take_no_column() {
    assert_eq!(visible_width("\x1b[31mred\x1b[0m"), 3);
    assert_eq!(visible_width("\x1b[1m\x1b[4m"), 0);
    assert_eq!(visible_width("\x1b]8;;http://x\x07link\x1b]8;;\x07"), 4);
}

#[test]
fn wide_characters_take_two_columns() {
    assert_eq!(visible_width("世界"), 4);
    assert_eq!(visible_width("a世b"), 4);
}

#[test]
fn combining_marks_belong_to_their_cluster() {
    assert_eq!(visible_width("e\u{301}"), 1);
    assert_eq!(visible_width("e\u{301}x"), 2);
}

#[test]
fn tab_counts_three_columns_wherever_it_stands() {
    assert_eq!(visible_width("\t"), 3);
    assert_eq!(visible_width("a\tb"), 5);
    assert_eq!(visible_width("\t\t"), 6);
    assert_eq!(grapheme_width("\t"), 3);
}

#[test]
fn grapheme_width_of_clusters() {
    assert_eq!(grapheme_width("a"), 1);
    assert_eq!(grapheme_width("世"), 2);
    assert_eq!(grapheme_width("e\u{301}"), 1);
}

#[test]
fn unterminated_escape_is_measured_as_text() {
    assert_eq!(visible_width("\x1b[31"), visible_width("\x1b") + 3);
    assert_eq!(visible_width("\x1b[31"), visible_width("\x1bx") + 2);
}

#[test]
fn inserting_an_escape_sequence_keeps_the_width() {
    let text = "hello world";
    let code = "\x1b[1;38;5;196m";
    for at in 0..=text.len() {
        let mut with_code = String::new();
        with_code.push_str(&text[..at]);
        with_code.push_str(code);
        with_code.push_str(&text[at..]);
        assert_eq!(visible_width(&with_code), visible_width(text));
    }
}

#[test]
fn inserting_an_escape_sequence_next_to_another_keeps_the_width() {
    let text = "ab\x1b[31mcd世\x1b[0m";
    let code = "\x1b]8;;x\x07";
    for at in [0usize, 2, 7, text.len() - 4, text.len()] {
        let mut with_code = String::new();
        with_code.push_str(&text[..at]);
        with_code.push_str(code);
        with_code.push_str(&text[at..]);
        assert_eq!(visible_width(&with_code), visible_width(text));
    }
}

#[test]
fn an_open_sequence_swallows_an_inserted_one() {
    let open = "\x1b[12";
    let closed = "\x1b[12\x1b[0m";
    assert_eq!(visible_width(closed), 0);
    assert!(visible_width(open) >= 3);
}

#[test]
fn scan_line_tells_escapes_and_clusters_apart() {
    let segments = scan_line("a\x1b[1m世e\u{301}");
    assert_eq!(segments.len(), 4);
    assert_eq!((segments[0].start, segments[0].end, segments[0].width, segments[0].escape), (0, 1, 1, false));
    assert_eq!((segments[1].start, segments[1].end, segments[1].width, segments[1].escape), (1, 5, 0, true));
    assert_eq!((segments[2].start, segments[2].end, segments[2].width, segments[2].escape), (5, 8, 2, false));
    assert_eq!((segments[3].start, segments[3].end, segments[3].width, segments[3].escape), (8, 11, 1, false));
    assert_eq!(segments_width(&segments), 4);
}

#[test]
fn scan_line_of_nothing_is_empty() {
    assert_eq!(scan_line("").len(), 0);
}

#[test]
fn column_counts_saturate() {
    assert_eq!(add_columns(1, 2), 3);
    assert_eq!(add_columns(u64::MAX - 1, 5), u64::MAX);
    assert_eq!(clamp_u32(7), 7);
    assert_eq!(clamp_u32(u32::MAX as u64), u32::MAX);
    assert_eq!(clamp_u32(u32::MAX as u64 + 1), u32::MAX);
    assert_eq!(clamp_u32(u64::MAX), u32::MAX);
}
