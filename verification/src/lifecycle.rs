//! A pane's process from its reservation to its exit: the state the server
//! keeps, and how each report and request moves it.
use vstd::prelude::*;

verus! {

/// Where a pane's process stands.
#[derive(Clone, Copy, Debug, PartialEq, Eq, Structural)]
pub enum PaneState {
    /// Reserved; the spawn has not been reported yet. Never in a layout or a
    /// frame.
    Starting,
    /// Running as `pid`.
    Live { pid: u32 },
    /// Its terminal reached end of file, and its exit has not been seen yet.
    Eof { pid: u32 },
    /// Termination was asked for at `since_ms`; its exit is awaited.
    Terminating { pid: u32, since_ms: u64 },
    /// It exited with `code`.
    Exited { code: u32 },
}

/// What asking a pane to terminate does.
#[derive(Clone, Copy, Debug, PartialEq, Eq, Structural)]
pub enum Termination {
    /// The process is signalled and the pane waits for its exit.
    Signalled,
    /// The spawn has not been reported; its completion rolls the pane back.
    Pending,
    /// Termination was already asked for, or the process has exited.
    Nothing,
}

/// Whether a termination is over its deadline.
#[derive(Clone, Copy, Debug, PartialEq, Eq, Structural)]
pub enum Overdue {
    /// The pane is not terminating.
    NotTerminating,
    /// Its exit is still awaited until the time given.
    Until { due_ms: u64 },
    /// Its exit never came in time: the pane is dropped.
    Dropped,
}

impl PaneState {
    /// The process's id, while there is a process.
    pub fn pid(self) -> (r: Option<u32>)
        ensures
            r == match self {
                PaneState::Live { pid } => Some(pid),
                PaneState::Eof { pid } => Some(pid),
                PaneState::Terminating { pid, .. } => Some(pid),
                _ => None::<u32>,
            },
    {
        match self {
            PaneState::Live { pid } | PaneState::Eof { pid } | PaneState::Terminating { pid, .. } => Some(
                pid,
            ),
            PaneState::Starting | PaneState::Exited { .. } => None,
        }
    }

    /// The exit code, once the process has exited.
    pub fn exit_code(self) -> (r: Option<u32>)
        ensures
            r == match self {
                PaneState::Exited { code } => Some(code),
                _ => None::<u32>,
            },
    {
        match self {
            PaneState::Exited { code } => Some(code),
            _ => None,
        }
    }

    /// Whether input is written to the process: only while it runs.
    pub fn accepts_input(self) -> (r: bool)
        ensures
            r == (self is Live),
    {
        match self {
            PaneState::Live { .. } => true,
            _ => false,
        }
    }

    /// The state once the spawn of `pid` is reported: a reserved pane goes
    /// live; one whose exit was already reported stays exited.
    pub fn on_spawn(self, pid: u32) -> (s: PaneState)
        ensures
            s == spawned(self, pid),
    {
        match self {
            PaneState::Starting => PaneState::Live { pid },
            _ => self,
        }
    }

    /// The state once the terminal reports end of file: a live process
    /// becomes one whose exit is awaited.
    pub fn on_eof(self) -> (s: PaneState)
        ensures
            s == at_eof(self),
    {
        match self {
            PaneState::Live { pid } => PaneState::Eof { pid },
            _ => self,
        }
    }

    /// The state once the process's exit with `code` is reported, whatever
    /// it was: a short-lived process can exit before its spawn is applied.
    pub fn on_exit(self, code: u32) -> (s: PaneState)
        ensures
            s == (PaneState::Exited { code }),
    {
        PaneState::Exited { code }
    }

    /// Asks the process to terminate at `now_ms`: a running process (live,
    /// or past end of file) is signalled and the time noted; otherwise
    /// nothing changes.
    pub fn terminate(self, now_ms: u64) -> (r: (PaneState, Termination))
        ensures
            r == terminated(self, now_ms),
    {
        match self {
            PaneState::Live { pid } | PaneState::Eof { pid } => (
                PaneState::Terminating { pid, since_ms: now_ms },
                Termination::Signalled,
            ),
            PaneState::Starting => (self, Termination::Pending),
            PaneState::Terminating { .. } | PaneState::Exited { .. } => (self, Termination::Nothing),
        }
    }

    /// Whether a terminating pane's exit is overdue at `now_ms`, given
    /// `deadline_ms` to wait from the request (the sum held at the largest
    /// `u64`).
    pub fn overdue(self, now_ms: u64, deadline_ms: u64) -> (r: Overdue)
        ensures
            r == match self {
                PaneState::Terminating { since_ms, .. } => {
                    let due = if since_ms + deadline_ms <= u64::MAX {
                        (since_ms + deadline_ms) as u64
                    } else {
                        u64::MAX
                    };
                    if now_ms >= due {
                        Overdue::Dropped
                    } else {
                        Overdue::Until { due_ms: due }
                    }
                },
                _ => Overdue::NotTerminating,
            },
    {
        match self {
            PaneState::Terminating { since_ms, .. } => {
                let due = since_ms.saturating_add(deadline_ms);
                if now_ms >= due {
                    Overdue::Dropped
                } else {
                    Overdue::Until { due_ms: due }
                }
            },
            _ => Overdue::NotTerminating,
        }
    }
}

/// The state once the spawn of `pid` is reported: a reserved pane goes
/// live, and any other stays as it is.
pub open spec fn spawned(s: PaneState, pid: u32) -> PaneState {
    match s {
        PaneState::Starting => PaneState::Live { pid },
        _ => s,
    }
}

/// The state once the terminal reports end of file: a live process becomes
/// one whose exit is awaited, and any other stays as it is.
pub open spec fn at_eof(s: PaneState) -> PaneState {
    match s {
        PaneState::Live { pid } => PaneState::Eof { pid },
        _ => s,
    }
}

/// The state and effect of a request to terminate at `now_ms`: a running
/// process is signalled and the time noted, a reserved pane is left to its
/// spawn's completion, and any other is left as it is.
pub open spec fn terminated(s: PaneState, now_ms: u64) -> (PaneState, Termination) {
    match s {
        PaneState::Live { pid } => (PaneState::Terminating { pid, since_ms: now_ms }, Termination::Signalled),
        PaneState::Eof { pid } => (PaneState::Terminating { pid, since_ms: now_ms }, Termination::Signalled),
        PaneState::Starting => (s, Termination::Pending),
        _ => (s, Termination::Nothing),
    }
}

/// An exit is final: a spawn report, end of file or a request to terminate
/// leave an exited pane as it is, with its code; only another exit report
/// replaces the code.
pub proof fn lemma_exit_is_final(code: u32, pid: u32, now_ms: u64)
    ensures
        spawned(PaneState::Exited { code }, pid) == (PaneState::Exited { code }),
        at_eof(PaneState::Exited { code }) == (PaneState::Exited { code }),
        terminated(PaneState::Exited { code }, now_ms) == (
            PaneState::Exited { code },
            Termination::Nothing,
        ),
{
}

/// Asking twice to terminate is asking once: the second request changes
/// nothing, keeps the time of the first, and signals nothing where the
/// first did.
pub proof fn lemma_terminate_once(s: PaneState, first_ms: u64, second_ms: u64)
    ensures
        terminated(terminated(s, first_ms).0, second_ms).0 == terminated(s, first_ms).0,
        terminated(s, first_ms).1 == Termination::Signalled ==> terminated(
            terminated(s, first_ms).0,
            second_ms,
        ).1 == Termination::Nothing,
{
}

} // verus!
