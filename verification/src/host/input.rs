//! What the host does with a client's routed input: each run of bytes for
//! the pane is written in one piece, before whatever comes after it, and
//! each command or mouse event becomes one operation on the workspace.
use vstd::prelude::*;
use crate::host::router::{action_views, coalesce, coalesced, Action, ActionView, Command, CommandView, MouseEvent, word_views};
use crate::host::tabs::TabStep;
use crate::keys::Direction;
use crate::layout::Axis;
use crate::text::string_of;

verus! {

/// One thing the host does for routed input.
#[derive(Clone, Debug, PartialEq, Eq)]
pub enum HostOp {
    /// Write the bytes to the focused pane.
    Write(Vec<u8>),
    /// Open a pane beside the focused one, along the axis.
    AddPane(Axis),
    /// Move the focus.
    Focus(Direction),
    /// Close the focused pane (or the popup on top).
    Close,
    /// Open a tab.
    NewTab,
    /// Move to another tab.
    SelectTab(TabStep),
    /// Zoom the focused pane, or stop zooming it.
    Zoom,
    /// Enter copy mode on the focused pane.
    CopyMode,
    /// Run an external command.
    External(Vec<String>),
    /// Show a short status in a segment of the status line.
    Status { segment: String, text: String },
    /// Route a mouse event to the pane it reaches.
    Mouse(MouseEvent),
}

/// An operation, its texts as characters.
pub ghost enum HostOpView {
    Write(Seq<u8>),
    AddPane(Axis),
    Focus(Direction),
    Close,
    NewTab,
    SelectTab(TabStep),
    Zoom,
    CopyMode,
    External(Seq<Seq<char>>),
    Status { segment: Seq<char>, text: Seq<char> },
    Mouse(MouseEvent),
}

impl View for HostOp {
    type V = HostOpView;

    open spec fn view(&self) -> HostOpView {
        match self {
            HostOp::Write(b) => HostOpView::Write(b@),
            HostOp::AddPane(a) => HostOpView::AddPane(*a),
            HostOp::Focus(d) => HostOpView::Focus(*d),
            HostOp::Close => HostOpView::Close,
            HostOp::NewTab => HostOpView::NewTab,
            HostOp::SelectTab(s) => HostOpView::SelectTab(*s),
            HostOp::Zoom => HostOpView::Zoom,
            HostOp::CopyMode => HostOpView::CopyMode,
            HostOp::External(w) => HostOpView::External(word_views(w@)),
            HostOp::Status { segment, text } => HostOpView::Status { segment: segment@, text: text@ },
            HostOp::Mouse(m) => HostOpView::Mouse(*m),
        }
    }
}

/// The help the host shows for the help command.
pub open spec fn help_text() -> Seq<char> {
    "prefix: |/- split, hjkl focus, t/n/p tabs, x close, z zoom, [ copy"@
}

/// What one routed action asks of the host. A split and a new pane open a
/// pane beside the focused one (a new pane side by side); the workspace
/// picker, help and detach, which this host does not run itself, show a
/// status instead.
pub open spec fn op_of(a: ActionView) -> HostOpView {
    match a {
        ActionView::Forward(b) => HostOpView::Write(b),
        ActionView::Mouse(m) => HostOpView::Mouse(m),
        ActionView::Command(c) => match c {
            CommandView::SplitHorizontal => HostOpView::AddPane(Axis::Horizontal),
            CommandView::SplitVertical => HostOpView::AddPane(Axis::Vertical),
            CommandView::NewPane => HostOpView::AddPane(Axis::Horizontal),
            CommandView::Focus(d) => HostOpView::Focus(d),
            CommandView::Close => HostOpView::Close,
            CommandView::NewTab => HostOpView::NewTab,
            CommandView::NextTab => HostOpView::SelectTab(TabStep::Next),
            CommandView::PreviousTab => HostOpView::SelectTab(TabStep::Previous),
            CommandView::Zoom => HostOpView::Zoom,
            CommandView::CopyMode => HostOpView::CopyMode,
            CommandView::External(w) => HostOpView::External(w),
            CommandView::WorkspacePicker => HostOpView::Status {
                segment: "picker"@,
                text: "workspace picker requires a named manager attachment"@,
            },
            CommandView::Help => HostOpView::Status { segment: "help"@, text: help_text() },
            CommandView::Detach => HostOpView::Status {
                segment: "error"@,
                text: "detach is handled by the client escape sequence"@,
            },
        },
    }
}

/// What one routed action asks of the host.
pub fn host_op(a: Action) -> (op: HostOp)
    ensures
        op@ == op_of(a@),
{
    match a {
        Action::Forward(b) => HostOp::Write(b),
        Action::Mouse(m) => HostOp::Mouse(m),
        Action::Command(c) => match c {
            Command::SplitHorizontal => HostOp::AddPane(Axis::Horizontal),
            Command::SplitVertical => HostOp::AddPane(Axis::Vertical),
            Command::NewPane => HostOp::AddPane(Axis::Horizontal),
            Command::Focus(d) => HostOp::Focus(d),
            Command::Close => HostOp::Close,
            Command::NewTab => HostOp::NewTab,
            Command::NextTab => HostOp::SelectTab(TabStep::Next),
            Command::PreviousTab => HostOp::SelectTab(TabStep::Previous),
            Command::Zoom => HostOp::Zoom,
            Command::CopyMode => HostOp::CopyMode,
            Command::External(w) => HostOp::External(w),
            Command::WorkspacePicker => HostOp::Status {
                segment: string_of("picker"),
                text: string_of("workspace picker requires a named manager attachment"),
            },
            Command::Help => HostOp::Status {
                segment: string_of("help"),
                text: string_of("prefix: |/- split, hjkl focus, t/n/p tabs, x close, z zoom, [ copy"),
            },
            Command::Detach => HostOp::Status {
                segment: string_of("error"),
                text: string_of("detach is handled by the client escape sequence"),
            },
        },
    }
}

/// The operations for some routed actions, in order, with each run of
/// bytes for the pane written in one piece before what follows it.
pub open spec fn ops_of(actions: Seq<ActionView>) -> Seq<HostOpView> {
    coalesced(actions).map_values(|a: ActionView| op_of(a))
}

/// The operations for some routed actions.
pub fn host_ops(actions: Vec<Action>) -> (ops: Vec<HostOp>)
    ensures
        ops@.map_values(|o: HostOp| o@) == ops_of(action_views(actions@)),
{
    let joined = coalesce(actions);
    let ghost target = ops_of(action_views(actions@));
    let ghost views = action_views(joined@);
    let mut rest = joined;
    let mut ops: Vec<HostOp> = Vec::new();
    let ghost mut n: int = 0;
    assert(views.skip(0) =~= views);
    assert(ops@.map_values(|o: HostOp| o@) =~= target.take(0));
    while rest.len() > 0
        invariant
            0 <= n,
            n + rest.len() == views.len(),
            action_views(rest@) == views.skip(n),
            views == action_views(joined@),
            views == coalesced(action_views(actions@)),
            target == ops_of(action_views(actions@)),
            target.len() == views.len(),
            ops@.map_values(|o: HostOp| o@) == target.take(n),
        decreases rest.len(),
    {
        let ghost before = ops@;
        let ghost old_rest = rest@;
        let a = rest.remove(0);
        proof {
            assert(action_views(old_rest)[0] == views.skip(n)[0]);
            assert(a@ == views[n]);
            assert(rest@ =~= old_rest.subrange(1, old_rest.len() as int));
            assert forall|i: int| 0 <= i < rest@.len() implies action_views(rest@)[i] == views.skip(n + 1)[i] by {
                assert(rest@[i] == old_rest[i + 1]);
                assert(action_views(old_rest)[i + 1] == views.skip(n)[i + 1]);
            }
            assert(action_views(rest@) =~= views.skip(n + 1));
        }
        let op = host_op(a);
        ops.push(op);
        proof {
            assert(ops@.map_values(|o: HostOp| o@) =~= before.map_values(|o: HostOp| o@).push(op@));
            assert(target[n] == op_of(views[n]));
            assert(target.take(n + 1) =~= target.take(n).push(target[n]));
            n = n + 1;
        }
    }
    assert(target.take(n) =~= target);
    ops
}

} // verus!
