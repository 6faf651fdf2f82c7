//! What is reported once the command of a job has run.
//!
//! No outcome of a job stops the run: the worker goes on to claim the next
//! index whatever happened.
use vstd::prelude::*;
use crate::text::{decimal, decimal_string};

verus! {

/// How the command of a job ended.
#[derive(Clone, Copy, Debug, PartialEq, Eq, Structural)]
pub enum JobOutcome {
    /// The shell exited with status zero.
    Succeeded,
    /// The shell exited with another status.
    Failed,
    /// The shell could not be started.
    NotLaunched,
}

/// Where the report of a job goes.
#[derive(Clone, Copy, Debug, PartialEq, Eq, Structural)]
pub enum Channel {
    /// The job's standard output, verbatim, to standard output.
    Output,
    /// The job's standard error, after the job's label, to standard error.
    Error,
    /// A warning naming the command and the cause.
    Warning,
}

/// The channel for a job that ended with `outcome`: output and errors of the
/// command are suppressed together when `silent`; a warning never is.
pub open spec fn channel_of(outcome: JobOutcome, silent: bool) -> Option<Channel> {
    match outcome {
        JobOutcome::Succeeded => if silent {
            None
        } else {
            Some(Channel::Output)
        },
        JobOutcome::Failed => if silent {
            None
        } else {
            Some(Channel::Error)
        },
        JobOutcome::NotLaunched => Some(Channel::Warning),
    }
}

/// Where to report a job that ended with `outcome`, if anywhere.
pub fn report_channel(outcome: JobOutcome, silent: bool) -> (r: Option<Channel>)
    ensures
        r == channel_of(outcome, silent),
{
    match outcome {
        JobOutcome::Succeeded => if silent {
            None
        } else {
            Some(Channel::Output)
        },
        JobOutcome::Failed => if silent {
            None
        } else {
            Some(Channel::Error)
        },
        JobOutcome::NotLaunched => Some(Channel::Warning),
    }
}

/// The label before the error output of job `idx`: `Error in <idx>:`.
pub fn error_label(idx: usize) -> (r: String)
    ensures
        r@ == "Error in "@ + decimal(idx as nat) + ":"@,
{
    let mut r = String::from_str("Error in ");
    let digits = decimal_string(idx);
    r.append(digits.as_str());
    r.append(":");
    r
}

} // verus!
