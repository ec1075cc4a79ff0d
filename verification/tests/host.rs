use fux::host::router::{coalesce, parse_mouse, Action, Command, InputRouter, MouseEvent};
use fux::host::{
    binding_byte, builtin_command, contextual_command, control_agent_state, encode_mouse,
    output_event_due, wrapped_command, AgentState, AgentStatus, BuiltinAction, MouseEncoding,
    MouseMode, PaneModes,
};
use fux::keys::Direction;

#[test]
fn pane_output_clock_is_independently_rate_limited() {
    let mut first = None;
    let mut second = None;
    assert!(output_event_due(&mut first, 1_000));
    assert!(!output_event_due(&mut first, 1_249));
    assert!(output_event_due(&mut second, 1_001));
    assert!(output_event_due(&mut first, 1_250));
}

fn modes(mouse_mode: MouseMode, mouse_encoding: MouseEncoding) -> PaneModes {
    PaneModes {
        mouse_mode,
        mouse_encoding,
    }
}

#[test]
fn mouse_mode_and_encoding_matrix_is_explicit() {
    let event = |code, release| MouseEvent {
        code,
        column: 99,
        row: 99,
        release,
    };
    let press = event(0, false);
    let release = event(0, true);
    let drag = event(32, false);
    let hover = event(35, false);
    let wheel = event(64, false);

    for (mode, expected) in [
        (MouseMode::Off, [false, false, false, false, false]),
        (MouseMode::Press, [true, false, false, false, true]),
        (MouseMode::PressRelease, [true, true, false, false, true]),
        (MouseMode::ButtonMotion, [true, true, true, false, true]),
        (MouseMode::AnyMotion, [true, true, true, true, true]),
    ] {
        let observed = [press, release, drag, hover, wheel]
            .map(|event| encode_mouse(event, 9, 7, modes(mode, MouseEncoding::Sgr)).is_some());
        assert_eq!(observed, expected, "unexpected filtering for {mode:?}");
    }

    let sgr = modes(MouseMode::AnyMotion, MouseEncoding::Sgr);
    assert_eq!(encode_mouse(press, 9, 7, sgr), Some(b"\x1b[<0;9;7M".to_vec()));
    assert_eq!(encode_mouse(release, 9, 7, sgr), Some(b"\x1b[<0;9;7m".to_vec()));
    assert_eq!(encode_mouse(drag, 9, 7, sgr), Some(b"\x1b[<32;9;7M".to_vec()));
    assert_eq!(encode_mouse(wheel, 9, 7, sgr), Some(b"\x1b[<64;9;7M".to_vec()));

    let default = modes(MouseMode::AnyMotion, MouseEncoding::Default);
    assert_eq!(
        encode_mouse(press, 9, 7, default),
        Some(vec![0x1b, b'[', b'M', 32, 41, 39])
    );
    assert!(encode_mouse(press, 224, 7, default).is_none());

    let utf8 = modes(MouseMode::AnyMotion, MouseEncoding::Utf8);
    assert_eq!(
        encode_mouse(press, 224, 7, utf8),
        Some(b"\x1b[M \xc4\x80'".to_vec())
    );
}

#[test]
fn mouse_protocols_are_filtered_by_mode() {
    let event = MouseEvent {
        code: 32,
        column: 9,
        row: 7,
        release: false,
    };
    let mut pane = modes(MouseMode::PressRelease, MouseEncoding::Sgr);
    assert!(encode_mouse(event, 9, 7, pane).is_none());
    pane.mouse_mode = MouseMode::AnyMotion;
    assert_eq!(encode_mouse(event, 9, 7, pane), Some(b"\x1b[<32;9;7M".to_vec()));
    pane.mouse_encoding = MouseEncoding::Default;
    assert_eq!(
        encode_mouse(MouseEvent { code: 0, ..event }, 9, 7, pane),
        Some(vec![0x1b, b'[', b'M', 32, 41, 39])
    );
    pane.mouse_encoding = MouseEncoding::Utf8;
    assert!(encode_mouse(MouseEvent { code: 0, ..event }, 300, 7, pane).is_some());
}

#[test]
fn the_prefix_runs_a_binding_or_sends_itself() {
    let mut router = InputRouter::new(0x02, 50);
    assert_eq!(router.feed(b"a\x02|", 0), vec![Action::Forward(b"a".to_vec()), Action::Command(Command::SplitHorizontal)]);
    assert_eq!(router.feed(b"\x02\x02", 0), vec![Action::Forward(vec![0x02])]);
    assert_eq!(router.feed(b"\x02Q", 0), vec![Action::Forward(vec![0x02, b'Q'])]);
    assert_eq!(router.feed(b"\x02h", 0), vec![Action::Command(Command::Focus(Direction::Left))]);
    assert!(!router.has_pending_timeout());
}

#[test]
fn an_escape_waits_for_its_sequence_or_the_time_out() {
    let mut router = InputRouter::new(0x02, 50);
    assert_eq!(router.feed(b"\x1b", 100), Vec::new());
    assert!(router.has_pending_timeout());
    assert_eq!(router.flush_timeout(120), Vec::new());
    assert_eq!(router.flush_timeout(150), vec![Action::Forward(vec![0x1b])]);
    assert!(!router.has_pending_timeout());
    assert_eq!(router.feed(b"\x1b[A", 200), vec![Action::Forward(b"\x1b[A".to_vec())]);
    let mouse = router.feed(b"\x1b[<0;9;7M", 300);
    assert_eq!(
        mouse,
        vec![Action::Mouse(MouseEvent { code: 0, column: 9, row: 7, release: false })]
    );
    assert_eq!(router.feed(b"\x1b[<", 400), Vec::new());
    assert_eq!(router.feed(b"0;0;1m", 400), vec![Action::Forward(b"\x1b[<0;0;1m".to_vec())]);
}

#[test]
fn a_bracketed_paste_passes_through_whole() {
    let mut router = InputRouter::new(0x02, 50);
    let actions = router.feed(b"\x1b[200~a\x02b\x1b[201~c", 0);
    assert_eq!(actions, vec![Action::Forward(b"\x1b[200~a\x02b\x1b[201~c".to_vec())]);
    let mut split = InputRouter::new(0x02, 50);
    let mut out = split.feed(b"\x1b[200~a\x1b[20", 0);
    out.extend(split.feed(b"1~\x02|", 0));
    assert_eq!(
        coalesce(out),
        vec![
            Action::Forward(b"\x1b[200~a\x1b[201~".to_vec()),
            Action::Command(Command::SplitHorizontal)
        ]
    );
}

#[test]
fn mouse_reports_parse_three_numbers() {
    assert_eq!(
        parse_mouse(&b"\x1b[<64;12;+3m".to_vec()),
        Some(MouseEvent { code: 64, column: 12, row: 3, release: true })
    );
    assert_eq!(parse_mouse(&b"\x1b[<1;2M".to_vec()), None);
    assert_eq!(parse_mouse(&b"\x1b[<1;2;3;4M".to_vec()), None);
    assert_eq!(parse_mouse(&b"\x1b[<1;2;70000M".to_vec()), None);
    let shifted = MouseEvent { code: 4 | 64, column: 1, row: 1, release: false };
    assert!(shifted.shift() && shifted.wheel());
    assert_eq!(shifted.translated(5, 6), b"\x1b[<68;5;6M".to_vec());
}

#[test]
fn bindings_name_a_byte_and_actions_map_to_commands() {
    assert_eq!(binding_byte("C-b"), Some(0x02));
    assert_eq!(binding_byte("C-["), Some(0x1b));
    assert_eq!(binding_byte("x"), Some(b'x'));
    assert_eq!(binding_byte("xy"), None);
    assert_eq!(binding_byte("界"), None);
    assert_eq!(builtin_command(BuiltinAction::FocusUp), Command::Focus(Direction::Up));
    assert_eq!(builtin_command(BuiltinAction::Help), Command::Help);
    assert_eq!(control_agent_state(AgentState::Blocked), AgentStatus::Blocked);
}

#[test]
fn a_command_in_another_directory_runs_through_sh_and_env() {
    let default = vec!["/bin/sh".to_string()];
    let plain = contextual_command(vec![], None, vec![], &default, "/bin/env".into(), "/bin/sh".into());
    assert_eq!(plain, vec!["/bin/sh"]);
    let with_env = contextual_command(
        vec!["top".into()],
        None,
        vec![("A".into(), "1".into())],
        &default,
        "/bin/env".into(),
        "/bin/sh".into(),
    );
    assert_eq!(with_env, vec!["/bin/env", "A=1", "top"]);
    let elsewhere = contextual_command(vec!["ls".into()], Some("/tmp"), vec![], &default, "/bin/env".into(), "/bin/sh".into());
    assert_eq!(
        elsewhere,
        vec!["/bin/sh", "-c", "cd -- \"$1\" && shift && exec \"$@\"", "fux", "/tmp", "/bin/env", "ls"]
    );
}

#[test]
fn a_pane_command_runs_behind_zor_when_it_was_found() {
    let command = vec!["/bin/sh".to_string(), "-l".to_string()];
    assert_eq!(wrapped_command(&command, None), command);
    assert_eq!(
        wrapped_command(&command, Some("/usr/bin/zor")),
        vec!["/usr/bin/zor", "--title", "never", "--", "/bin/sh", "-l"]
    );
    assert_eq!(
        wrapped_command(&Vec::new(), Some("zor")),
        vec!["zor", "--title", "never", "--"]
    );
}

#[test]
fn a_plain_run_passes_as_one_forward() {
    let mut router = InputRouter::new(0x02, 50);
    assert_eq!(router.feed(b"ls -la\r", 0), vec![Action::Forward(b"ls -la\r".to_vec())]);
    assert_eq!(router.feed(b"x", 1), vec![Action::Forward(b"x".to_vec())]);
}
