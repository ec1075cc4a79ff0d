use fux::observer::{observer_args, report_line, withheld_from_observer};

#[test]
fn observers_are_kept_from_session_credentials() {
    assert!(withheld_from_observer("KOH_KEY_PASSPHRASE"));
    assert!(withheld_from_observer("FUX_SOCKET"));
    assert!(withheld_from_observer("ZOR_PID"));
    assert!(!withheld_from_observer("ZOR_PIDS"));
    assert!(!withheld_from_observer("PATH"));
    assert!(!withheld_from_observer("FUX"));
}

#[test]
fn an_observer_is_told_its_socket_pane_and_process() {
    assert_eq!(
        observer_args("/run/fux/server.sock", 12, 4021),
        vec!["observe", "--socket", "/run/fux/server.sock", "--pane", "12", "--pid", "4021"]
    );
}

#[test]
fn only_whole_lines_within_the_limit_are_reports() {
    assert_eq!(report_line(b"{\"state\":1}\n".to_vec(), 64), Some(b"{\"state\":1}".to_vec()));
    assert_eq!(report_line(b"abc\n".to_vec(), 3), Some(b"abc".to_vec()));
    assert_eq!(report_line(b"abcd\n".to_vec(), 3), None);
    assert_eq!(report_line(b"abc".to_vec(), 64), None);
    assert_eq!(report_line(Vec::new(), 64), None);
    assert_eq!(report_line(b"\n".to_vec(), 0), Some(Vec::new()));
}
