//! fux: a terminal multiplexer. One server holds workspaces, tabs and split
//! panes; clients attach to show them in a terminal. This library holds the
//! multiplexer's logic: layouts, key names and encodings, input routing,
//! pane input and modes, and the host's rules.
use vstd::prelude::*;

pub mod cli;
pub mod encode;
pub mod host;
pub mod ids;
pub mod json;
pub mod keys;
pub mod layout;
pub mod lifecycle;
pub mod model;
pub mod local;
pub mod numbers;
pub mod observer;
pub mod overlay;
pub mod pane;
pub mod pty;
pub mod text;

verus! {

/// `wait` milliseconds after `from`. A time too far off to hold is taken as
/// `from`, so that a deadline fires at once rather than never.
pub fn after(from: u64, wait: u64) -> (t: u64)
    ensures
        t == (if from + wait <= u64::MAX {
            (from + wait) as u64
        } else {
            from
        }),
{
    match from.checked_add(wait) {
        Some(t) => t,
        None => from,
    }
}

}
