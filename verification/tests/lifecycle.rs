use fux::lifecycle::{Overdue, PaneState, Termination};

#[test]
fn a_pane_goes_live_reaches_eof_and_exits() {
    let s = PaneState::Starting;
    assert_eq!(s.pid(), None);
    assert!(!s.accepts_input());
    let s = s.on_spawn(42);
    assert_eq!(s, PaneState::Live { pid: 42 });
    assert_eq!(s.pid(), Some(42));
    assert!(s.accepts_input());
    assert_eq!(s.on_spawn(7), s);
    let s = s.on_eof();
    assert_eq!(s, PaneState::Eof { pid: 42 });
    assert!(!s.accepts_input());
    assert_eq!(s.on_eof(), s);
    let s = s.on_exit(3);
    assert_eq!(s, PaneState::Exited { code: 3 });
    assert_eq!((s.pid(), s.exit_code()), (None, Some(3)));
}

#[test]
fn an_early_exit_is_kept_when_the_spawn_is_applied() {
    let s = PaneState::Starting.on_exit(0);
    assert_eq!(s.on_spawn(9), PaneState::Exited { code: 0 });
    assert_eq!(s.on_eof(), PaneState::Exited { code: 0 });
    assert_eq!(s.terminate(5), (s, Termination::Nothing));
}

#[test]
fn termination_is_asked_once_and_dropped_when_overdue() {
    let (s, effect) = PaneState::Live { pid: 5 }.terminate(1_000);
    assert_eq!(effect, Termination::Signalled);
    assert_eq!(s, PaneState::Terminating { pid: 5, since_ms: 1_000 });
    assert_eq!(s.terminate(2_000), (s, Termination::Nothing));
    assert_eq!(
        PaneState::Eof { pid: 6 }.terminate(10).0,
        PaneState::Terminating { pid: 6, since_ms: 10 }
    );
    assert_eq!(
        PaneState::Starting.terminate(10),
        (PaneState::Starting, Termination::Pending)
    );
    assert_eq!(s.overdue(5_000, 10_000), Overdue::Until { due_ms: 11_000 });
    assert_eq!(s.overdue(11_000, 10_000), Overdue::Dropped);
    assert_eq!(
        PaneState::Live { pid: 5 }.overdue(u64::MAX, 0),
        Overdue::NotTerminating
    );
    let late = PaneState::Terminating {
        pid: 1,
        since_ms: u64::MAX - 1,
    };
    assert_eq!(late.overdue(0, 10), Overdue::Until { due_ms: u64::MAX });
    assert_eq!(s.on_exit(143).exit_code(), Some(143));
}
