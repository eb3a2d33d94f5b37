//! The command to launch, exit-status forwarding, and the decisions behind
//! detaching from the terminal. The process work itself (spawning, forking,
//! redirecting descriptors) stays with the caller; everything decided here
//! is checked.

use vstd::prelude::*;

use crate::strutil::{dec_seq, u64_to_dec};

verus! {

/// A program invocation: what to run, with which arguments, where, and
/// whether to detach it from the terminal.
#[derive(Clone, Debug)]
pub struct Command {
    pub program: String,
    pub args: Vec<String>,
    pub working_dir: Option<String>,
    pub detach: bool,
}

/// How the launcher saw its child end: with an exit code, or without one,
/// successfully or not.
#[derive(Copy, Clone, Debug, PartialEq, Eq, Structural)]
pub enum ChildStatus {
    Exited(i32),
    SignaledOrUnknown,
}

/// Forwards a child's termination status as the launcher's own exit code:
/// an explicit code is passed through truncated to a byte; success without a
/// code becomes 0; anything else (a signal) becomes the fixed failure code
/// 1, never the raw signal number.
pub fn forward_child_exit_status(code: Option<i32>, success: bool) -> (r: u8)
    ensures
        code matches Some(c) ==> r == c as u8,
        code is None && success ==> r == 0,
        code is None && !success ==> r == 1,
{
    match code {
        Some(c) =>
        #[verifier::truncate]
        (c as u8),
        None => if success {
            0
        } else {
            1
        },
    }
}

/// After the first fork of the detachment dance, the parent waits for the
/// intermediate child and exits with its code; a child lost to a signal
/// yields 1. An unexpected wait status carries no code: the caller treats
/// it as a fatal error.
pub fn detach_wait_exit_code(status: ChildStatus) -> (r: i32)
    ensures
        status matches ChildStatus::Exited(c) ==> r == c,
        status is SignaledOrUnknown ==> r == 1,
{
    match status {
        ChildStatus::Exited(c) => c,
        ChildStatus::SignaledOrUnknown => 1,
    }
}

/// How many logfile names the detachment may try before giving up: one per
/// minute of a day.
pub const LOGFILE_NAME_SPACE: u64 = 1440;

/// The view of `logfile_name(n)`.
pub open spec fn spec_logfile_name(n: int) -> Seq<char> {
    "skeld."@ + dec_seq(n) + ".log"@
}

/// The candidate logfile name with index `n`: `skeld.<n>.log`.
pub fn logfile_name(n: u64) -> (r: String)
    ensures
        r@ == spec_logfile_name(n as int),
{
    let mut r = String::from_str("skeld.");
    let num = u64_to_dec(n);
    r.append(num.as_str());
    r.append(".log");
    r
}

/// Whether an old logfile should be deleted before allocating a new one: it
/// must have the logfile extension and have gone unread for more than 24
/// hours (86400 seconds). An unreadable timestamp keeps the file.
pub fn should_remove_logfile(is_log_file: bool, elapsed: Option<(u64, u32)>) -> (r: bool)
    ensures
        r == (is_log_file && match elapsed {
            Some((secs, nanos)) => secs > 86400 || (secs == 86400 && nanos > 0),
            None => false,
        }),
{
    is_log_file && match elapsed {
        Some((secs, nanos)) => secs > 86400 || (secs == 86400 && nanos > 0),
        None => false,
    }
}

/// Whether a failed descriptor redirection should be retried: only when the
/// call was interrupted by a signal (`EINTR`, which Linux numbers 4).
pub fn should_retry_redirect(errno: i32) -> (r: bool)
    ensures
        r == (errno == 4),
{
    errno == 4
}

} // verus!
