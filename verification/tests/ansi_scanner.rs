use pi_natives::ansi::{extract_ansi_code, next_ansi_start};

#[test]
fn csi_sequence_is_measured_up_to_its_final_byte() {
    assert_eq!(extract_ansi_code(b"\x1b[31mred", 0), Some(5));
    assert_eq!(extract_ansi_code(b"\x1b[2K", 0), Some(4));
    assert_eq!(extract_ansi_code(b"\x1b[10G", 0), Some(5));
    assert_eq!(extract_ansi_code(b"\x1b[H", 0), Some(3));
    assert_eq!(extract_ansi_code(b"\x1b[2J", 0), Some(4));
}

#[test]
fn csi_sequence_ends_at_the_first_final_byte() {
    assert_eq!(extract_ansi_code(b"\x1b[1;2H3m", 0), Some(6));
}

#[test]
fn csi_sequence_in_the_middle_of_a_line() {
    assert_eq!(extract_ansi_code(b"ab\x1b[0mcd", 2), Some(4));
    assert_eq!(extract_ansi_code(b"ab\x1b[0mcd", 1), None);
}

#[test]
fn osc_sequence_ends_with_bel() {
    assert_eq!(extract_ansi_code(b"\x1b]0;title\x07rest", 0), Some(10));
}

#[test]
fn osc_sequence_ends_with_string_terminator() {
    assert_eq!(extract_ansi_code(b"\x1b]8;;\x1b\\x", 0), Some(7));
}

#[test]
fn unterminated_sequences_are_no_sequences() {
    assert_eq!(extract_ansi_code(b"\x1b[31", 0), None);
    assert_eq!(extract_ansi_code(b"\x1b]0;title", 0), None);
    assert_eq!(extract_ansi_code(b"\x1b]0;title\x1b", 0), None);
    assert_eq!(extract_ansi_code(b"\x1b[", 0), None);
    assert_eq!(extract_ansi_code(b"\x1b", 0), None);
}

#[test]
fn other_introducers_are_no_sequences() {
    assert_eq!(extract_ansi_code(b"\x1bXm", 0), None);
    assert_eq!(extract_ansi_code(b"\x1b\x1b[0m", 0), None);
}

#[test]
fn positions_without_esc_or_out_of_range_give_none() {
    assert_eq!(extract_ansi_code(b"abc", 0), None);
    assert_eq!(extract_ansi_code(b"abc", 3), None);
    assert_eq!(extract_ansi_code(b"abc", 100), None);
    assert_eq!(extract_ansi_code(b"", 0), None);
}

#[test]
fn next_start_finds_the_first_sequence() {
    assert_eq!(next_ansi_start(b"ab\x1b[0mcd", 0), Some(2));
    assert_eq!(next_ansi_start(b"ab\x1b[0mcd", 2), Some(2));
    assert_eq!(next_ansi_start(b"ab\x1b[0mcd", 3), None);
    assert_eq!(next_ansi_start(b"plain", 0), None);
    assert_eq!(next_ansi_start(b"plain", 99), None);
}

#[test]
fn next_start_passes_over_an_esc_that_opens_nothing() {
    assert_eq!(next_ansi_start(b"\x1bxx\x1b[0m", 0), Some(3));
}
