use pi_natives::overlay::{extract_from_segments, extract_segments_impl};
use pi_natives::segment::scan_line;
use pi_natives::text::{extract_segments, TextInput};
use pi_natives::tracker::AnsiCodeTracker;

fn extract(line: &str, before_end: u32, after_start: u32, after_len: u32, strict: bool) -> (String, u32, String, u32) {
    let parts = extract_segments_impl(line, before_end, after_start, after_len, strict);
    (parts.before, parts.before_width, parts.after, parts.after_width)
}

#[test]
fn plain_line_around_an_overlay() {
    assert_eq!(
        extract("hello world", 3, 6, 5, true),
        ("hel".to_string(), 3, "world".to_string(), 5)
    );
}

#[test]
fn before_part_takes_its_escape_sequences_along() {
    assert_eq!(
        extract("\x1b[31mred\x1b[0mplain", 3, 3, 5, true),
        ("\x1b[31mred".to_string(), 3, "plain".to_string(), 5)
    );
}

#[test]
fn before_part_drops_escape_sequences_after_its_last_cluster() {
    assert_eq!(extract("ab\x1b[1m", 5, 9, 0, true), ("ab".to_string(), 2, "".to_string(), 0));
}

#[test]
fn after_part_starts_with_the_styling_in_effect() {
    assert_eq!(
        extract("\x1b[1;31mhello world", 0, 6, 5, true),
        ("".to_string(), 0, "\x1b[1;31mworld".to_string(), 5)
    );
    assert_eq!(
        extract("\x1b[38;5;196mab", 0, 1, 1, true),
        ("".to_string(), 0, "\x1b[38;5;196mb".to_string(), 1)
    );
}

#[test]
fn after_part_has_no_preamble_after_a_reset() {
    assert_eq!(
        extract("\x1b[31mred\x1b[0mplain", 0, 3, 5, true),
        ("".to_string(), 0, "plain".to_string(), 5)
    );
}

#[test]
fn after_part_copies_escape_sequences_once_it_has_started() {
    assert_eq!(
        extract("\x1b[1mab\x1b[4mcd\x1b[0mef", 0, 1, 4, true),
        ("".to_string(), 0, "\x1b[1mb\x1b[4mcd\x1b[0me".to_string(), 4)
    );
}

#[test]
fn preamble_equals_a_replay_of_all_sequences_before_the_part() {
    let line = "\x1b[1mab\x1b[31mcd\x1b[22mef\x1b[4mgh";
    let parts = extract_segments_impl(line, 0, 6, 2, true);
    let mut tracker = AnsiCodeTracker::new();
    tracker.process("\x1b[1m");
    tracker.process("\x1b[31m");
    tracker.process("\x1b[22m");
    tracker.process("\x1b[4m");
    let mut expected = tracker.get_active_codes();
    expected.push_str("gh");
    assert_eq!(parts.after, expected);
    assert_eq!(parts.after, "\x1b[4;31mgh");
}

#[test]
fn no_after_part_without_a_length() {
    for after_start in 0..12u32 {
        for strict in [false, true] {
            let parts = extract_segments_impl("\x1b[1mhello world", 4, after_start, 0, strict);
            assert_eq!(parts.after, "");
            assert_eq!(parts.after_width, 0);
            assert_eq!(parts.before, "\x1b[1mhell");
            assert_eq!(parts.before_width, 4);
        }
    }
}

#[test]
fn strict_after_part_leaves_out_a_cluster_that_reaches_beyond() {
    assert_eq!(extract("ab世", 0, 2, 1, true), ("".to_string(), 0, "".to_string(), 0));
    assert_eq!(extract("ab世", 0, 2, 1, false), ("".to_string(), 0, "世".to_string(), 2));
}

#[test]
fn a_cluster_inside_both_windows_goes_to_both_parts() {
    assert_eq!(extract("abcdef", 3, 1, 4, false), ("abc".to_string(), 3, "bcde".to_string(), 4));
    assert_eq!(
        extract("\x1b[1mab\x1b[4mcd", 3, 1, 2, true),
        ("\x1b[1mab\x1b[4mc".to_string(), 3, "\x1b[1mb\x1b[4mc".to_string(), 2)
    );
}

#[test]
fn the_before_part_does_not_depend_on_the_after_window() {
    assert_eq!(extract("abcdef", 5, 1, 2, false), ("abcde".to_string(), 5, "bc".to_string(), 2));
    assert_eq!(extract("abc", 3, 0, 1, false), ("abc".to_string(), 3, "a".to_string(), 1));
    let lines = ["abcdef", "\x1b[1mab\x1b[0mcd世e", "a\tb"];
    for line in lines {
        for before_end in 0..8u32 {
            let alone = extract_segments_impl(line, before_end, 0, 0, false);
            for after_start in 0..8u32 {
                for after_len in 0..4u32 {
                    let parts = extract_segments_impl(line, before_end, after_start, after_len, true);
                    assert_eq!(parts.before, alone.before);
                    assert_eq!(parts.before_width, alone.before_width);
                }
            }
        }
    }
}

#[test]
fn wide_cluster_at_the_end_of_the_before_part_is_taken() {
    assert_eq!(extract("a世b", 2, 3, 1, true), ("a世".to_string(), 3, "b".to_string(), 1));
}

#[test]
fn extract_from_given_segments() {
    let line = "\x1b[1mab";
    let segments = scan_line(line);
    let parts = extract_from_segments(line, &segments, 1, 1, 1, true);
    assert_eq!(parts.before, "\x1b[1ma");
    assert_eq!(parts.before_width, 1);
    assert_eq!(parts.after, "\x1b[1mb");
    assert_eq!(parts.after_width, 1);
}

#[test]
fn host_lines_are_extracted() {
    let line = TextInput::Utf8("hello world".to_string());
    let parts = extract_segments(&line, 5, 6, 5, true).unwrap();
    assert_eq!(parts.before, "hello");
    assert_eq!(parts.after, "world");
    let bad = TextInput::Bytes(vec![0xff]);
    assert!(extract_segments(&bad, 5, 6, 5, true).is_err());
}
