use fux::host::input::{host_op, host_ops, HostOp};
use fux::host::router::{Action, Command, MouseEvent};
use fux::host::tabs::TabStep;
use fux::keys::Direction;
use fux::layout::Axis;

#[test]
fn bytes_for_the_pane_are_written_in_one_piece_before_the_next_command() {
    let mouse = MouseEvent {
        code: 0,
        column: 3,
        row: 4,
        release: false,
    };
    let ops = host_ops(vec![
        Action::Forward(b"ab".to_vec()),
        Action::Forward(b"c".to_vec()),
        Action::Command(Command::Focus(Direction::Left)),
        Action::Forward(b"d".to_vec()),
        Action::Mouse(mouse),
    ]);
    assert_eq!(
        ops,
        vec![
            HostOp::Write(b"abc".to_vec()),
            HostOp::Focus(Direction::Left),
            HostOp::Write(b"d".to_vec()),
            HostOp::Mouse(mouse),
        ]
    );
    assert_eq!(host_ops(Vec::new()), Vec::new());
}

#[test]
fn each_command_becomes_its_operation() {
    let op = |c| host_op(Action::Command(c));
    assert_eq!(op(Command::SplitHorizontal), HostOp::AddPane(Axis::Horizontal));
    assert_eq!(op(Command::SplitVertical), HostOp::AddPane(Axis::Vertical));
    assert_eq!(op(Command::NewPane), HostOp::AddPane(Axis::Horizontal));
    assert_eq!(op(Command::Close), HostOp::Close);
    assert_eq!(op(Command::NewTab), HostOp::NewTab);
    assert_eq!(op(Command::NextTab), HostOp::SelectTab(TabStep::Next));
    assert_eq!(op(Command::PreviousTab), HostOp::SelectTab(TabStep::Previous));
    assert_eq!(op(Command::Zoom), HostOp::Zoom);
    assert_eq!(op(Command::CopyMode), HostOp::CopyMode);
    assert_eq!(
        op(Command::External(vec!["lazygit".to_string()])),
        HostOp::External(vec!["lazygit".to_string()])
    );
    assert_eq!(
        op(Command::Help),
        HostOp::Status {
            segment: "help".into(),
            text: "prefix: |/- split, hjkl focus, t/n/p tabs, x close, z zoom, [ copy".into()
        }
    );
    assert_eq!(
        op(Command::WorkspacePicker),
        HostOp::Status {
            segment: "picker".into(),
            text: "workspace picker requires a named manager attachment".into()
        }
    );
    assert_eq!(
        op(Command::Detach),
        HostOp::Status {
            segment: "error".into(),
            text: "detach is handled by the client escape sequence".into()
        }
    );
}
