//! Cancellation of blocking work: why a task was aborted, and whether it
//! has to stop.
//!
//! The clock, the abort flag and the scheduling live with the host. What is
//! decided from them is decided here.

use vstd::prelude::*;
use vstd::string::*;

verus! {

/// Why a task was aborted.
#[derive(Debug, Clone, Copy, PartialEq, Eq)]
pub enum AbortReason {
    Unknown,
    Timeout,
    Signal,
    User,
}

/// The reason that a flag value stands for: none for 0, which means "not
/// aborted"; 2, 3 and 4 for a timeout, a signal and the user; any other
/// value for an unknown reason.
pub open spec fn reason_of(value: u8) -> Option<AbortReason> {
    if value == 0 {
        None
    } else if value == 2 {
        Some(AbortReason::Timeout)
    } else if value == 3 {
        Some(AbortReason::Signal)
    } else if value == 4 {
        Some(AbortReason::User)
    } else {
        Some(AbortReason::Unknown)
    }
}

/// The flag value of a reason.
pub open spec fn code_of(reason: AbortReason) -> u8 {
    match reason {
        AbortReason::Unknown => 1,
        AbortReason::Timeout => 2,
        AbortReason::Signal => 3,
        AbortReason::User => 4,
    }
}

/// Why the work has to stop, if it has to: for the reason that the flag
/// holds, else for a timeout once the deadline has passed.
pub open spec fn stop_reason(cause: Option<AbortReason>, deadline_passed: bool) -> Option<
    AbortReason,
> {
    match cause {
        Some(reason) => Some(reason),
        None => if deadline_passed {
            Some(AbortReason::Timeout)
        } else {
            None
        },
    }
}

/// The name of a reason.
pub open spec fn name_of(reason: AbortReason) -> Seq<char> {
    match reason {
        AbortReason::Unknown => "Unknown"@,
        AbortReason::Timeout => "Timeout"@,
        AbortReason::Signal => "Signal"@,
        AbortReason::User => "User"@,
    }
}

impl AbortReason {
    /// Reads a flag value.
    pub fn try_from(value: u8) -> (reason: Result<AbortReason, ()>)
        ensures
            match reason {
                Ok(r) => reason_of(value) == Some(r),
                Err(_) => reason_of(value) is None,
            },
    {
        if value == 0 {
            Err(())
        } else if value == 2 {
            Ok(AbortReason::Timeout)
        } else if value == 3 {
            Ok(AbortReason::Signal)
        } else if value == 4 {
            Ok(AbortReason::User)
        } else {
            Ok(AbortReason::Unknown)
        }
    }

    /// The flag value of the reason. It is never 0, and reading it back
    /// gives the reason.
    pub fn code(self) -> (value: u8)
        ensures
            value == code_of(self),
            reason_of(value) == Some(self),
    {
        match self {
            AbortReason::Unknown => 1,
            AbortReason::Timeout => 2,
            AbortReason::Signal => 3,
            AbortReason::User => 4,
        }
    }

    /// The name of the reason.
    pub fn name(self) -> (name: &'static str)
        ensures
            name@ == name_of(self),
    {
        match self {
            AbortReason::Unknown => "Unknown",
            AbortReason::Timeout => "Timeout",
            AbortReason::Signal => "Signal",
            AbortReason::User => "User",
        }
    }

    /// What an aborted task reports: `Aborted: ` and the name of the reason.
    pub fn message(self) -> (text: String)
        ensures
            text@ == "Aborted: "@ + name_of(self),
    {
        let mut text = "Aborted: ".to_owned();
        text.append(self.name());
        text
    }
}

/// Whether a waiter has to be woken when a flag is set: only the first
/// abort, which finds the flag at 0, wakes the waiters.
pub fn wakes_waiters(previous: u8) -> (wake: bool)
    ensures
        wake == (reason_of(previous) is None),
{
    previous == 0
}

/// Decides at a heartbeat whether the work goes on.
///
/// `cause` is what the abort flag holds, `deadline_passed` whether there is
/// a deadline and it lies in the past. The work goes on (`Ok`) if there is
/// no cause and the deadline has not passed. Else it stops with the cause,
/// or with a timeout where only the deadline has passed.
pub fn heartbeat(cause: Option<AbortReason>, deadline_passed: bool) -> (result: Result<
    (),
    AbortReason,
>)
    ensures
        match result {
            Ok(_) => stop_reason(cause, deadline_passed) is None,
            Err(reason) => stop_reason(cause, deadline_passed) == Some(reason),
        },
{
    match cause {
        Some(reason) => Err(reason),
        None => if deadline_passed {
            Err(AbortReason::Timeout)
        } else {
            Ok(())
        },
    }
}

/// Whether the work has been aborted already: by the flag or by the
/// deadline.
pub fn aborted(cause: Option<AbortReason>, deadline_passed: bool) -> (stop: bool)
    ensures
        stop == (stop_reason(cause, deadline_passed) is Some),
{
    cause.is_some() || deadline_passed
}

} // verus!
