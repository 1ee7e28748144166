use pi_natives::task::{aborted, heartbeat, wakes_waiters, AbortReason};

#[test]
fn flag_values_are_read_as_reasons() {
    assert_eq!(AbortReason::try_from(0), Err(()));
    assert_eq!(AbortReason::try_from(1), Ok(AbortReason::Unknown));
    assert_eq!(AbortReason::try_from(2), Ok(AbortReason::Timeout));
    assert_eq!(AbortReason::try_from(3), Ok(AbortReason::Signal));
    assert_eq!(AbortReason::try_from(4), Ok(AbortReason::User));
    assert_eq!(AbortReason::try_from(5), Ok(AbortReason::Unknown));
    assert_eq!(AbortReason::try_from(255), Ok(AbortReason::Unknown));
}

#[test]
fn reasons_are_written_as_flag_values() {
    for reason in [AbortReason::Unknown, AbortReason::Timeout, AbortReason::Signal, AbortReason::User] {
        assert_ne!(reason.code(), 0);
        assert_eq!(AbortReason::try_from(reason.code()), Ok(reason));
    }
    assert_eq!(AbortReason::Unknown.code(), 1);
    assert_eq!(AbortReason::Timeout.code(), 2);
    assert_eq!(AbortReason::Signal.code(), 3);
    assert_eq!(AbortReason::User.code(), 4);
}

#[test]
fn reasons_have_names_and_messages() {
    assert_eq!(AbortReason::Unknown.name(), "Unknown");
    assert_eq!(AbortReason::Timeout.message(), "Aborted: Timeout");
    assert_eq!(AbortReason::Signal.message(), "Aborted: Signal");
    assert_eq!(AbortReason::User.message(), "Aborted: User");
}

#[test]
fn heartbeat_lets_work_go_on_without_cause() {
    assert_eq!(heartbeat(None, false), Ok(()));
    assert!(!aborted(None, false));
}

#[test]
fn heartbeat_stops_work_for_the_cause() {
    assert_eq!(heartbeat(Some(AbortReason::Signal), false), Err(AbortReason::Signal));
    assert_eq!(heartbeat(Some(AbortReason::User), true), Err(AbortReason::User));
    assert!(aborted(Some(AbortReason::Unknown), false));
}

#[test]
fn heartbeat_stops_work_after_the_deadline() {
    assert_eq!(heartbeat(None, true), Err(AbortReason::Timeout));
    assert!(aborted(None, true));
}

#[test]
fn only_the_first_abort_wakes_the_waiters() {
    assert!(wakes_waiters(0));
    assert!(!wakes_waiters(1));
    assert!(!wakes_waiters(3));
}
