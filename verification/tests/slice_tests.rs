use pi_natives::segment::{scan_line, Segment};
use pi_natives::slice::{slice_segments, slice_with_width_impl};
use pi_natives::text::{slice_with_width, TextInput};
use pi_natives::width::visible_width;

fn slice(line: &str, start: u32, length: u32, strict: bool) -> (String, u32) {
    let result = slice_with_width_impl(line, start, length, strict);
    (result.text, result.width)
}

#[test]
fn plain_text_is_sliced_by_columns() {
    assert_eq!(slice("abcdef", 2, 3, true), ("cde".to_string(), 3));
    assert_eq!(slice("abcdef", 0, 6, true), ("abcdef".to_string(), 6));
    assert_eq!(slice("abcdef", 4, 10, true), ("ef".to_string(), 2));
    assert_eq!(slice("abcdef", 6, 3, true), ("".to_string(), 0));
    assert_eq!(slice("abcdef", 2, 0, true), ("".to_string(), 0));
    assert_eq!(slice("", 0, 5, false), ("".to_string(), 0));
}

#[test]
fn escape_sequences_inside_the_range_are_copied() {
    assert_eq!(slice("ab\x1b[1mcd\x1b[0mef", 2, 3, true), ("\x1b[1mcd\x1b[0me".to_string(), 3));
    assert_eq!(slice("\x1b[1mab", 0, 1, true), ("\x1b[1ma".to_string(), 1));
}

#[test]
fn escape_sequences_before_the_range_come_before_its_first_cluster() {
    assert_eq!(slice("\x1b[1mab\x1b[31mcdef", 3, 2, true), ("\x1b[1m\x1b[31mde".to_string(), 2));
}

#[test]
fn escape_sequences_at_the_start_of_the_range_come_first() {
    assert_eq!(slice("\x1b[1mab\x1b[2mcd", 2, 2, true), ("\x1b[2m\x1b[1mcd".to_string(), 2));
}

#[test]
fn escape_sequences_kept_back_are_dropped_without_a_cluster() {
    assert_eq!(slice("\x1b[1mab", 5, 2, true), ("".to_string(), 0));
    assert_eq!(slice("\x1b[1m", 0, 0, true), ("".to_string(), 0));
}

#[test]
fn escape_sequences_after_the_range_are_dropped() {
    assert_eq!(slice("ab\x1b[0m", 0, 2, true), ("ab".to_string(), 2));
    assert_eq!(slice("ab\x1b[0mcd", 0, 3, true), ("ab\x1b[0mc".to_string(), 3));
}

#[test]
fn strict_slices_leave_out_a_cluster_that_reaches_beyond() {
    assert_eq!(slice("a世b", 0, 2, true), ("a".to_string(), 1));
    assert_eq!(slice("a世b", 0, 3, true), ("a世".to_string(), 3));
}

#[test]
fn loose_slices_take_a_cluster_that_starts_inside() {
    assert_eq!(slice("a世b", 0, 2, false), ("a世".to_string(), 3));
    assert_eq!(slice("世世", 1, 2, false), ("世".to_string(), 2));
}

#[test]
fn a_cluster_that_starts_before_the_range_is_left_out() {
    assert_eq!(slice("世b", 1, 2, false), ("b".to_string(), 1));
    assert_eq!(slice("世b", 1, 2, true), ("b".to_string(), 1));
}

#[test]
fn strict_slices_are_never_wider_than_asked() {
    let lines = ["hello world", "世界世界", "a世b世c", "\x1b[1ma\t世\x1b[0mb"];
    for line in lines {
        for start in 0..8u32 {
            for length in 0..8u32 {
                assert!(slice(line, start, length, true).1 <= length);
            }
        }
    }
}

#[test]
fn a_full_strict_slice_holds_all_that_is_visible() {
    let lines = ["hello world", "世界世界", "\x1b[1ma\t世\x1b[0mb", "plain\x1b[0m"];
    for line in lines {
        let width = visible_width(line);
        let (text, sliced_width) = slice(line, 0, width, true);
        assert_eq!(sliced_width, width);
        assert_eq!(visible_width(&text), width);
    }
    assert_eq!(slice("\x1b[1ma\t世\x1b[0mb", 0, 7, true).0, "\x1b[1ma\t世\x1b[0mb");
    assert_eq!(slice("plain\x1b[0m", 0, 5, true).0, "plain");
}

#[test]
fn slice_from_given_segments() {
    let line = "a世b";
    let segments = vec![
        Segment { start: 0, end: 1, width: 1, escape: false },
        Segment { start: 1, end: 4, width: 2, escape: false },
        Segment { start: 4, end: 5, width: 1, escape: false },
    ];
    let result = slice_segments(line, &segments, 1, 3, true);
    assert_eq!(result.text, "世b");
    assert_eq!(result.width, 3);
    let scanned = scan_line(line);
    let result = slice_segments(line, &scanned, 1, 3, true);
    assert_eq!(result.text, "世b");
}

#[test]
fn large_ranges_do_not_overflow() {
    assert_eq!(slice("abc", u32::MAX, u32::MAX, true), ("".to_string(), 0));
    assert_eq!(slice("abc", 1, u32::MAX, false), ("bc".to_string(), 2));
}

#[test]
fn host_lines_are_sliced() {
    let line = TextInput::Bytes("abcdef".as_bytes().to_vec());
    let result = slice_with_width(&line, 2, 3, true).unwrap();
    assert_eq!(result.text, "cde");
    assert_eq!(result.width, 3);
    let bad = TextInput::Bytes(vec![0xc3, 0x28]);
    assert!(slice_with_width(&bad, 0, 3, true).is_err());
}
