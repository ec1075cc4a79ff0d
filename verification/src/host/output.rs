//! What a pane's new output changes in the workspace's shared metadata: the
//! window title while the pane is focused, the clipboard it set, the bells it
//! rang, and the generation that tells viewers something changed.
use vstd::prelude::*;
use crate::cli::same_text;

verus! {

/// What the pane's terminal shows after the output.
#[derive(Clone, Debug, PartialEq, Eq)]
pub struct Screen {
    pub title: String,
    pub clipboard: String,
    pub bell_count: u64,
}

/// What the host last took from the pane's terminal.
#[derive(Clone, Debug, PartialEq, Eq)]
pub struct Taken {
    pub clipboard: String,
    pub bell_count: u64,
}

/// The workspace metadata that output changes.
#[derive(Clone, Debug, PartialEq, Eq)]
pub struct Metadata {
    pub window_title: String,
    pub clipboard_base64: String,
    pub bell_count: u64,
    pub generation: u64,
}

/// `a + b`, or the largest `u64` where that is larger.
pub open spec fn sat_add(a: u64, b: u64) -> u64 {
    if a + b <= u64::MAX {
        (a + b) as u64
    } else {
        u64::MAX
    }
}

/// The bells rung since the host last looked.
pub open spec fn new_bells(screen: Screen, taken: Taken) -> u64 {
    if screen.bell_count >= taken.bell_count {
        (screen.bell_count - taken.bell_count) as u64
    } else {
        0
    }
}

/// What output proposes for the metadata: the title when the pane is the
/// focused one, the clipboard when the terminal's differs from the one last
/// taken, the new bells added, and the generation one further.
pub open spec fn proposed(meta: Metadata, screen: Screen, taken: Taken, focused: bool) -> (Seq<char>, Seq<
    char,
>, u64, u64) {
    (
        if focused {
            screen.title@
        } else {
            meta.window_title@
        },
        if screen.clipboard@ != taken.clipboard@ {
            screen.clipboard@
        } else {
            meta.clipboard_base64@
        },
        sat_add(meta.bell_count, new_bells(screen, taken)),
        sat_add(meta.generation, 1),
    )
}

/// The metadata that output proposes; the host keeps it only if the
/// workspace stays within its budget.
pub fn propose_metadata(meta: &Metadata, screen: &Screen, taken: &Taken, focused: bool) -> (m: Metadata)
    ensures
        (m.window_title@, m.clipboard_base64@, m.bell_count, m.generation) == proposed(*meta, *screen, *taken, focused),
{
    let bells = screen.bell_count.saturating_sub(taken.bell_count);
    Metadata {
        window_title: if focused {
            screen.title.clone()
        } else {
            meta.window_title.clone()
        },
        clipboard_base64: if !same_text(screen.clipboard.as_str(), taken.clipboard.as_str()) {
            screen.clipboard.clone()
        } else {
            meta.clipboard_base64.clone()
        },
        bell_count: meta.bell_count.saturating_add(bells),
        generation: meta.generation.saturating_add(1),
    }
}

/// Once proposed metadata is kept, the host has taken the terminal's bells
/// and clipboard; otherwise it has taken nothing, so the next output
/// proposes them again.
pub fn take_output(taken: &mut Taken, screen: &Screen, kept: bool)
    ensures
        kept ==> final(taken).bell_count == sat_add(old(taken).bell_count, new_bells(*screen, *old(taken))),
        kept ==> final(taken).clipboard@ == screen.clipboard@,
        !kept ==> *final(taken) == *old(taken),
{
    if kept {
        let bells = screen.bell_count.saturating_sub(taken.bell_count);
        taken.bell_count = taken.bell_count.saturating_add(bells);
        taken.clipboard = screen.clipboard.clone();
    }
}

/// Whether a title event is announced: the metadata was kept and the title
/// differs from the pane's last one.
pub fn title_announced(kept: bool, last_title: &str, title: &str) -> (r: bool)
    ensures
        r == (kept && last_title@ != title@),
{
    kept && !same_text(last_title, title)
}

} // verus!
