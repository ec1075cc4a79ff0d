//! The rules around an observer child: the command line it is started
//! with, the environment it does not inherit, and which of its output lines
//! are read as reports.
use vstd::prelude::*;
use crate::pty::private_key;
use crate::text::{digits, push_decimal, string_of};

verus! {

/// An environment variable an observer does not inherit: fux's own and its
/// session layer's (`FUX_`, `KOH_`), and `ZOR_PID`.
pub open spec fn withheld_key(key: Seq<char>) -> bool {
    private_key(key) || key == "ZOR_PID"@
}

/// Whether an observer is kept from the environment variable `key`.
pub fn withheld_from_observer(key: &str) -> (r: bool)
    ensures
        r == withheld_key(key@),
{
    crate::pty::is_private_env_key(key) || crate::cli::same_text(key, "ZOR_PID")
}

/// The arguments an observer is started with, for `pane`, whose process
/// is `pid`, reporting to the server at `socket`.
pub open spec fn observer_args_of(socket: Seq<char>, pane: u32, pid: u32) -> Seq<Seq<char>> {
    seq!["observe"@, "--socket"@, socket, "--pane"@, digits(pane as nat), "--pid"@, digits(pid as nat)]
}

/// The arguments an observer is started with.
pub fn observer_args(socket: &str, pane: u32, pid: u32) -> (args: Vec<String>)
    ensures
        args@.map_values(|a: String| a@) == observer_args_of(socket@, pane, pid),
{
    let mut pane_text = String::new();
    push_decimal(&mut pane_text, pane as u64);
    let mut pid_text = String::new();
    push_decimal(&mut pid_text, pid as u64);
    let mut args: Vec<String> = Vec::new();
    args.push(string_of("observe"));
    args.push(string_of("--socket"));
    args.push(string_of(socket));
    args.push(string_of("--pane"));
    args.push(pane_text);
    args.push(string_of("--pid"));
    args.push(pid_text);
    assert(args@.map_values(|a: String| a@) =~= observer_args_of(socket@, pane, pid));
    args
}

/// The report a line read from an observer holds: the line without its
/// newline, where it ends in one and holds at most `max` bytes besides;
/// otherwise the observer is stopped.
pub open spec fn report_of(line: Seq<u8>, max: usize) -> Option<Seq<u8>> {
    if line.len() >= 1 && line.last() == 10 && line.len() - 1 <= max {
        Some(line.drop_last())
    } else {
        None
    }
}

/// The report a line read from an observer holds, if it is one.
pub fn report_line(line: Vec<u8>, max: usize) -> (r: Option<Vec<u8>>)
    ensures
        match r {
            Some(b) => report_of(line@, max) == Some(b@),
            None => report_of(line@, max) is None,
        },
{
    let mut line = line;
    match line.pop() {
        Some(last) => {
            if last == 10 && line.len() <= max {
                Some(line)
            } else {
                None
            }
        },
        None => None,
    }
}

} // verus!
