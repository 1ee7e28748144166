use pi_natives::keys::{
    matches_kitty_sequence, parse_arrow_sequence, parse_csi_u, parse_digits,
    parse_functional_sequence, parse_home_end_sequence, parse_kitty_sequence,
    parse_optional_digits, to_i32, ARROW_DOWN, ARROW_LEFT, ARROW_RIGHT, ARROW_UP, FUNC_DELETE,
    FUNC_END, FUNC_HOME, FUNC_INSERT, FUNC_PAGE_DOWN, FUNC_PAGE_UP,
};

fn fields(data: &str) -> Option<(i32, Option<i32>, u32)> {
    parse_kitty_sequence(data).map(|p| (p.codepoint, p.base_layout_key, p.modifier))
}

#[test]
fn matches_key_with_modifier() {
    assert!(matches_kitty_sequence("\x1b[65;5u".to_string(), 65, 4));
    assert!(!matches_kitty_sequence("\x1b[65;5u".to_string(), 66, 4));
    assert!(!matches_kitty_sequence("\x1b[65;5u".to_string(), 65, 0));
    assert!(matches_kitty_sequence("\x1b[97u".to_string(), 97, 0));
}

#[test]
fn matching_ignores_the_lock_keys() {
    assert!(matches_kitty_sequence("\x1b[97;65u".to_string(), 97, 0));
    assert!(matches_kitty_sequence("\x1b[97;129u".to_string(), 97, 0));
    assert!(matches_kitty_sequence("\x1b[97;5u".to_string(), 97, 4 + 64));
    assert!(!matches_kitty_sequence("\x1b[97;6u".to_string(), 97, 4 + 64));
}

#[test]
fn matches_the_base_layout_key() {
    assert!(matches_kitty_sequence("\x1b[1089::99;5u".to_string(), 99, 4));
    assert!(matches_kitty_sequence("\x1b[1089::99;5u".to_string(), 1089, 4));
    assert!(!matches_kitty_sequence("\x1b[1089::99;5u".to_string(), 100, 4));
}

#[test]
fn what_is_no_kitty_sequence_matches_nothing() {
    assert!(!matches_kitty_sequence("abc".to_string(), 97, 0));
    assert!(!matches_kitty_sequence("".to_string(), 0, 0));
    assert!(!matches_kitty_sequence("\x1b[u".to_string(), 0, 0));
    assert!(!matches_kitty_sequence("\x1b[65;0u".to_string(), 65, 0));
}

#[test]
fn csi_u_forms() {
    assert_eq!(fields("\x1b[97u"), Some((97, None, 0)));
    assert_eq!(fields("\x1b[97;5u"), Some((97, None, 4)));
    assert_eq!(fields("\x1b[97;5:1u"), Some((97, None, 4)));
    assert_eq!(fields("\x1b[97:65u"), Some((97, None, 0)));
    assert_eq!(fields("\x1b[97:65:98u"), Some((97, Some(98), 0)));
    assert_eq!(fields("\x1b[97::98;3u"), Some((97, Some(98), 2)));
    assert_eq!(fields("\x1b[97:;3u"), Some((97, None, 2)));
    assert_eq!(fields("\x1b[97:1u"), Some((97, None, 0)));
}

#[test]
fn csi_u_rejects_what_is_malformed() {
    assert!(parse_csi_u("\x1b[u").is_none());
    assert!(parse_csi_u("\x1b[97").is_none());
    assert!(parse_csi_u("\x1b[;5u").is_none());
    assert!(parse_csi_u("\x1b[97;u").is_none());
    assert!(parse_csi_u("\x1b[97;0u").is_none());
    assert!(parse_csi_u("\x1b[97;5:u").is_none());
    assert!(parse_csi_u("\x1b[97::u").is_none());
    assert!(parse_csi_u("\x1b[97;5;1u").is_none());
    assert!(parse_csi_u("\x1b[97xu").is_none());
    assert!(parse_csi_u("\x1b[4294967296u").is_none());
    assert!(parse_csi_u("\x1b[2147483648u").is_none());
    assert!(parse_csi_u("\x1b[97::2147483648u").is_none());
    assert!(parse_csi_u("x[97u").is_none());
    assert!(parse_csi_u("97u").is_none());
}

#[test]
fn csi_u_takes_the_largest_key_and_modifier() {
    let parsed = parse_csi_u("\x1b[2147483647;4294967295u").unwrap();
    assert_eq!(parsed.codepoint, i32::MAX);
    assert_eq!(parsed.modifier, u32::MAX - 1);
}

#[test]
fn arrow_sequences() {
    assert_eq!(fields("\x1b[1;5A"), Some((ARROW_UP, None, 4)));
    assert_eq!(fields("\x1b[1;2B"), Some((ARROW_DOWN, None, 1)));
    assert_eq!(fields("\x1b[1;1C"), Some((ARROW_RIGHT, None, 0)));
    assert_eq!(fields("\x1b[1;3:2D"), Some((ARROW_LEFT, None, 2)));
    assert_eq!((ARROW_UP, ARROW_DOWN, ARROW_RIGHT, ARROW_LEFT), (-1, -2, -3, -4));
    assert!(parse_arrow_sequence("\x1b[1;5E").is_none());
    assert!(parse_arrow_sequence("\x1b[1;0A").is_none());
    assert!(parse_arrow_sequence("\x1b[1;A").is_none());
    assert!(parse_arrow_sequence("\x1b[1;5").is_none());
    assert!(parse_arrow_sequence("\x1b[2;5A").is_none());
    assert!(parse_arrow_sequence("\x1b[1;5AA").is_none());
    assert!(parse_arrow_sequence("\x1b[A").is_none());
}

#[test]
fn functional_sequences() {
    assert_eq!(fields("\x1b[2~"), Some((FUNC_INSERT, None, 0)));
    assert_eq!(fields("\x1b[3~"), Some((FUNC_DELETE, None, 0)));
    assert_eq!(fields("\x1b[5~"), Some((FUNC_PAGE_UP, None, 0)));
    assert_eq!(fields("\x1b[6~"), Some((FUNC_PAGE_DOWN, None, 0)));
    assert_eq!(fields("\x1b[7~"), Some((FUNC_HOME, None, 0)));
    assert_eq!(fields("\x1b[8~"), Some((FUNC_END, None, 0)));
    assert_eq!(fields("\x1b[3;2~"), Some((FUNC_DELETE, None, 1)));
    assert_eq!(fields("\x1b[3;2:1~"), Some((FUNC_DELETE, None, 1)));
    assert_eq!(
        (FUNC_DELETE, FUNC_INSERT, FUNC_PAGE_UP, FUNC_PAGE_DOWN, FUNC_HOME, FUNC_END),
        (-10, -11, -12, -13, -14, -15)
    );
    assert!(parse_functional_sequence("\x1b[4~").is_none());
    assert!(parse_functional_sequence("\x1b[~").is_none());
    assert!(parse_functional_sequence("\x1b[3;0~").is_none());
    assert!(parse_functional_sequence("\x1b[3;~").is_none());
    assert!(parse_functional_sequence("\x1b[3").is_none());
}

#[test]
fn home_and_end_sequences() {
    assert_eq!(fields("\x1b[1;2H"), Some((FUNC_HOME, None, 1)));
    assert_eq!(fields("\x1b[1;1F"), Some((FUNC_END, None, 0)));
    assert!(parse_home_end_sequence("\x1b[1;2A").is_none());
    assert!(parse_home_end_sequence("\x1b[1;0H").is_none());
    assert!(parse_home_end_sequence("\x1b[H").is_none());
}

#[test]
fn digits_are_read_as_far_as_they_go() {
    assert_eq!(parse_digits(b"123;4", 0, 5), Some((123, 3)));
    assert_eq!(parse_digits(b"123;4", 0, 2), Some((12, 2)));
    assert_eq!(parse_digits(b"123;4", 4, 5), Some((4, 5)));
    assert_eq!(parse_digits(b"007", 0, 3), Some((7, 3)));
    assert_eq!(parse_digits(b"4294967295", 0, 10), Some((u32::MAX, 10)));
}

#[test]
fn digits_fail_without_a_digit_or_on_overflow() {
    assert_eq!(parse_digits(b"123;4", 3, 5), None);
    assert_eq!(parse_digits(b"123", 3, 3), None);
    assert_eq!(parse_digits(b"123", 5, 3), None);
    assert_eq!(parse_digits(b"", 0, 0), None);
    assert_eq!(parse_digits(b"4294967296", 0, 10), None);
    assert_eq!(parse_digits(b"99999999999", 0, 11), None);
}

#[test]
fn optional_digits_stay_where_no_number_is() {
    assert_eq!(parse_optional_digits(b"12:3", 0, 4), (Some(12), 2));
    assert_eq!(parse_optional_digits(b"12:3", 2, 4), (None, 2));
    assert_eq!(parse_optional_digits(b"12", 2, 2), (None, 2));
    assert_eq!(parse_optional_digits(b"99999999999", 0, 11), (None, 0));
}

#[test]
fn unsigned_to_signed() {
    assert_eq!(to_i32(0), Some(0));
    assert_eq!(to_i32(65), Some(65));
    assert_eq!(to_i32(i32::MAX as u32), Some(i32::MAX));
    assert_eq!(to_i32(i32::MAX as u32 + 1), None);
    assert_eq!(to_i32(u32::MAX), None);
}
