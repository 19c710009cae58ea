//! the coroutine protocol between the editor and whoever drives it.
//!
//! the entire editor runs inside one lua coroutine; its two blocking calls
//! -- `system.wait_event(timeout)` and `system.sleep(secs)` -- are
//! coroutine yields, and `os.exit` yields "exit". the driver (in the
//! companion crate) resumes the coroutine and reads what it yielded; this
//! module decides what the yield means.

use vstd::prelude::*;

verus! {

/// what to resume the editor coroutine with
#[derive(Copy, Clone, Debug, PartialEq, Eq, Structural)]
pub enum Resume {
    /// first resume, or waking from sleep: no values
    Start,
    /// waking from wait_event: whether an event is available
    EventAvailable(bool),
}

/// what the editor coroutine asked for when control came back
#[derive(Copy, Clone, Debug, PartialEq, Eq, Structural)]
pub enum YieldKind {
    /// wake me when an event arrives or the timeout elapses
    Wait,
    /// wake me after this long
    Sleep,
    /// the editor is done, with the yielded code
    Exit,
    /// the coroutine ran to its end: a clean exit
    Finished,
    /// a yield outside the protocol: the editor is broken, exit failing
    Invalid,
}

/// the meaning of a yield: a coroutine that can no longer be resumed has
/// finished; otherwise its first value must be one of the protocol's
/// words ("wait", "sleep", "exit"); anything else is outside the
/// protocol. `kind` is the first yielded value when it is a string
pub fn yield_kind(resumable: bool, kind: Option<&str>) -> (k: YieldKind)
    ensures
        k == (if !resumable {
            YieldKind::Finished
        } else {
            match kind {
                Some(word) => if word@ == "wait"@ {
                    YieldKind::Wait
                } else if word@ == "sleep"@ {
                    YieldKind::Sleep
                } else if word@ == "exit"@ {
                    YieldKind::Exit
                } else {
                    YieldKind::Invalid
                },
                None => YieldKind::Invalid,
            }
        }),
{
    if !resumable {
        return YieldKind::Finished;
    }
    match kind {
        Some(word) => {
            let word = word.to_owned();
            if word == "wait".to_owned() {
                YieldKind::Wait
            } else if word == "sleep".to_owned() {
                YieldKind::Sleep
            } else if word == "exit".to_owned() {
                YieldKind::Exit
            } else {
                YieldKind::Invalid
            }
        },
        None => YieldKind::Invalid,
    }
}

/// the exit code a yield decides without a value of its own: a finished
/// coroutine exits cleanly (0), a yield outside the protocol exits failing
/// (1); the protocol's words carry their own values
pub fn fixed_exit_code(kind: YieldKind) -> (code: Option<i32>)
    ensures
        code == match kind {
            YieldKind::Finished => Some(0i32),
            YieldKind::Invalid => Some(1i32),
            _ => None::<i32>,
        },
{
    match kind {
        YieldKind::Finished => Some(0),
        YieldKind::Invalid => Some(1),
        _ => None,
    }
}

/// what the editor coroutine is parked on between resumes, as far as the
/// decision to resume goes (its deadlines are the driver's clock)
#[derive(Copy, Clone, Debug, PartialEq, Eq, Structural)]
pub enum Parked {
    /// not resumed yet
    Start,
    /// waiting for an event or its deadline
    Wait,
    /// sleeping until its deadline
    Sleep,
    /// the editor finished with this exit code
    Done(i32),
}

/// what the driver does next
#[derive(Copy, Clone, Debug, PartialEq, Eq, Structural)]
pub enum DriverStep {
    /// resume the coroutine with this
    Resume(Resume),
    /// let the windowing system sleep until the deadline
    WaitForDeadline,
    /// stop, with this exit code
    Exit(i32),
}

/// the driver's decision: a finished editor exits with its code; a fresh
/// one starts; a waiting one resumes as soon as an event is queued (told
/// so), or once its deadline is `due` (told none came); a sleeping one
/// resumes once its deadline is due; otherwise the driver waits for the
/// deadline
pub fn driver_step(parked: Parked, has_event: bool, due: bool) -> (step: DriverStep)
    ensures
        step == match parked {
            Parked::Done(code) => DriverStep::Exit(code),
            Parked::Start => DriverStep::Resume(Resume::Start),
            Parked::Wait => if has_event {
                DriverStep::Resume(Resume::EventAvailable(true))
            } else if due {
                DriverStep::Resume(Resume::EventAvailable(false))
            } else {
                DriverStep::WaitForDeadline
            },
            Parked::Sleep => if due {
                DriverStep::Resume(Resume::Start)
            } else {
                DriverStep::WaitForDeadline
            },
        },
{
    match parked {
        Parked::Done(code) => DriverStep::Exit(code),
        Parked::Start => DriverStep::Resume(Resume::Start),
        Parked::Wait => {
            if has_event {
                DriverStep::Resume(Resume::EventAvailable(true))
            } else if due {
                DriverStep::Resume(Resume::EventAvailable(false))
            } else {
                DriverStep::WaitForDeadline
            }
        },
        Parked::Sleep => {
            if due {
                DriverStep::Resume(Resume::Start)
            } else {
                DriverStep::WaitForDeadline
            }
        },
    }
}

} // verus!
