use pi_natives::tracker::AnsiCodeTracker;

fn after(codes: &[&str]) -> AnsiCodeTracker {
    let mut tracker = AnsiCodeTracker::new();
    for code in codes {
        tracker.process(code);
    }
    tracker
}

#[test]
fn a_new_tracker_has_nothing_to_restore() {
    assert_eq!(AnsiCodeTracker::new().get_active_codes(), "");
}

#[test]
fn attributes_are_turned_on() {
    assert_eq!(after(&["\x1b[1m"]).get_active_codes(), "\x1b[1m");
    assert_eq!(after(&["\x1b[2m"]).get_active_codes(), "\x1b[2m");
    assert_eq!(after(&["\x1b[3m"]).get_active_codes(), "\x1b[3m");
    assert_eq!(after(&["\x1b[4m"]).get_active_codes(), "\x1b[4m");
    assert_eq!(after(&["\x1b[5m"]).get_active_codes(), "\x1b[5m");
    assert_eq!(after(&["\x1b[7m"]).get_active_codes(), "\x1b[7m");
    assert_eq!(after(&["\x1b[8m"]).get_active_codes(), "\x1b[8m");
    assert_eq!(after(&["\x1b[9m"]).get_active_codes(), "\x1b[9m");
}

#[test]
fn attributes_are_written_in_a_fixed_order() {
    let tracker = after(&["\x1b[9;8;7;5;4;3;2;1m"]);
    assert_eq!(tracker.get_active_codes(), "\x1b[1;2;3;4;5;7;8;9m");
}

#[test]
fn attributes_are_turned_off() {
    let all = "\x1b[1;2;3;4;5;7;8;9m";
    assert_eq!(after(&[all, "\x1b[21m"]).get_active_codes(), "\x1b[2;3;4;5;7;8;9m");
    assert_eq!(after(&[all, "\x1b[22m"]).get_active_codes(), "\x1b[3;4;5;7;8;9m");
    assert_eq!(after(&[all, "\x1b[23m"]).get_active_codes(), "\x1b[1;2;4;5;7;8;9m");
    assert_eq!(after(&[all, "\x1b[24m"]).get_active_codes(), "\x1b[1;2;3;5;7;8;9m");
    assert_eq!(after(&[all, "\x1b[25m"]).get_active_codes(), "\x1b[1;2;3;4;7;8;9m");
    assert_eq!(after(&[all, "\x1b[27m"]).get_active_codes(), "\x1b[1;2;3;4;5;8;9m");
    assert_eq!(after(&[all, "\x1b[28m"]).get_active_codes(), "\x1b[1;2;3;4;5;7;9m");
    assert_eq!(after(&[all, "\x1b[29m"]).get_active_codes(), "\x1b[1;2;3;4;5;7;8m");
}

#[test]
fn reset_clears_everything() {
    assert_eq!(after(&["\x1b[1;31;42m", "\x1b[0m"]).get_active_codes(), "");
    assert_eq!(after(&["\x1b[1;31;42m", "\x1b[m"]).get_active_codes(), "");
    assert_eq!(after(&["\x1b[1;0;4m"]).get_active_codes(), "\x1b[4m");
    let mut tracker = after(&["\x1b[1;31;42m"]);
    tracker.reset();
    assert_eq!(tracker.get_active_codes(), "");
    let mut tracker = after(&["\x1b[1;31;42m"]);
    tracker.clear();
    assert_eq!(tracker.get_active_codes(), "");
}

#[test]
fn basic_colors_are_kept_by_their_number() {
    assert_eq!(after(&["\x1b[31m"]).get_active_codes(), "\x1b[31m");
    assert_eq!(after(&["\x1b[37m"]).get_active_codes(), "\x1b[37m");
    assert_eq!(after(&["\x1b[90m"]).get_active_codes(), "\x1b[90m");
    assert_eq!(after(&["\x1b[97m"]).get_active_codes(), "\x1b[97m");
    assert_eq!(after(&["\x1b[40m"]).get_active_codes(), "\x1b[40m");
    assert_eq!(after(&["\x1b[47m"]).get_active_codes(), "\x1b[47m");
    assert_eq!(after(&["\x1b[100m"]).get_active_codes(), "\x1b[100m");
    assert_eq!(after(&["\x1b[107m"]).get_active_codes(), "\x1b[107m");
    assert_eq!(after(&["\x1b[31m", "\x1b[44m"]).get_active_codes(), "\x1b[31;44m");
    assert_eq!(after(&["\x1b[44m", "\x1b[31m", "\x1b[32m"]).get_active_codes(), "\x1b[32;44m");
}

#[test]
fn default_color_codes_clear_the_color() {
    assert_eq!(after(&["\x1b[31;44m", "\x1b[39m"]).get_active_codes(), "\x1b[44m");
    assert_eq!(after(&["\x1b[31;44m", "\x1b[49m"]).get_active_codes(), "\x1b[31m");
}

#[test]
fn palette_and_rgb_colors_use_up_their_parameters() {
    assert_eq!(after(&["\x1b[38;5;196m"]).get_active_codes(), "\x1b[38;5;196m");
    assert_eq!(after(&["\x1b[48;5;21m"]).get_active_codes(), "\x1b[48;5;21m");
    assert_eq!(after(&["\x1b[38;2;1;2;3m"]).get_active_codes(), "\x1b[38;2;1;2;3m");
    assert_eq!(after(&["\x1b[48;2;10;20;30m"]).get_active_codes(), "\x1b[48;2;10;20;30m");
    assert_eq!(
        after(&["\x1b[1;38;5;196;48;2;1;2;3;4m"]).get_active_codes(),
        "\x1b[1;4;38;5;196;48;2;1;2;3m"
    );
}

#[test]
fn the_palette_index_is_not_taken_for_an_attribute() {
    assert_eq!(after(&["\x1b[38;5;1m"]).get_active_codes(), "\x1b[38;5;1m");
    assert_eq!(after(&["\x1b[38;2;1;3;4m"]).get_active_codes(), "\x1b[38;2;1;3;4m");
}

#[test]
fn incomplete_extended_colors_fall_back_to_plain_parameters() {
    assert_eq!(after(&["\x1b[38;5m"]).get_active_codes(), "\x1b[5m");
    assert_eq!(after(&["\x1b[38;2;1;2m"]).get_active_codes(), "\x1b[1;2m");
    assert_eq!(after(&["\x1b[38m"]).get_active_codes(), "");
}

#[test]
fn unknown_and_malformed_parameters_are_ignored() {
    assert_eq!(after(&["\x1b[99m"]).get_active_codes(), "");
    assert_eq!(after(&["\x1b[1;x;4m"]).get_active_codes(), "\x1b[1;4m");
    assert_eq!(after(&["\x1b[1;;4m"]).get_active_codes(), "\x1b[1;4m");
    assert_eq!(after(&["\x1b[99999999999;4m"]).get_active_codes(), "\x1b[4m");
    assert_eq!(after(&["\x1b[001m"]).get_active_codes(), "\x1b[1m");
}

#[test]
fn sequences_that_are_not_sgr_change_nothing() {
    assert_eq!(after(&["\x1b[1m", "\x1b[2K"]).get_active_codes(), "\x1b[1m");
    assert_eq!(after(&["\x1b[1m", "\x1b]0;m"]).get_active_codes(), "\x1b[1m");
    assert_eq!(after(&["\x1b[1m", "m"]).get_active_codes(), "\x1b[1m");
    assert_eq!(after(&["\x1b[1m", ""]).get_active_codes(), "\x1b[1m");
    assert_eq!(after(&["\x1b[1m", "4m"]).get_active_codes(), "\x1b[1m");
}

#[test]
fn active_codes_bring_the_styling_back() {
    let tracker = after(&["\x1b[1;3;9;38;5;196;48;2;1;2;3m", "\x1b[22m"]);
    let codes = tracker.get_active_codes();
    let replayed = after(&[codes.as_str()]);
    assert_eq!(replayed.get_active_codes(), codes);
    assert_eq!(replayed.bold, tracker.bold);
    assert_eq!(replayed.italic, tracker.italic);
    assert_eq!(replayed.strikethrough, tracker.strikethrough);
    assert_eq!(replayed.fg_color, tracker.fg_color);
    assert_eq!(replayed.bg_color, tracker.bg_color);
}

#[test]
fn a_plus_sign_before_a_parameter_is_accepted() {
    assert_eq!(after(&["\x1b[+1m"]).get_active_codes(), "\x1b[1m");
    assert_eq!(after(&["\x1b[+38;5;7m"]).get_active_codes(), "\x1b[+38;5;7m");
    assert_eq!(after(&["\x1b[+m"]).get_active_codes(), "");
    assert_eq!(after(&["\x1b[-1m"]).get_active_codes(), "");
}

#[test]
fn extended_colors_are_kept_as_written() {
    assert_eq!(after(&["\x1b[038;5;x yz"]).get_active_codes(), "");
    assert_eq!(after(&["\x1b[038;5;xyzm"]).get_active_codes(), "\x1b[038;5;xyzm");
    assert_eq!(after(&["\x1b[38;5;m"]).get_active_codes(), "\x1b[38;5;m");
    let tracker = after(&["\x1b[48;2;a;b;cm"]);
    assert_eq!(tracker.bg_color.as_deref(), Some("48;2;a;b;c"));
    assert_eq!(tracker.fg_color, None);
}
