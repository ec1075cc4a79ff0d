use fux::pty::{
    after_flush, after_write, completion, input_budget_after, Completion, Delivery, InputState,
    WriteOutcome, MAX_PENDING_INPUT_BYTES,
};

/// A writer that is interrupted once, then takes two bytes, then fails,
/// driven through the delivery rules as the PTY writer drives them.
#[test]
fn tracked_writes_report_partial_failure_and_retry_only_interruptions() {
    let bytes = b"abcd";
    let mut step = 0;
    let mut received: Vec<u8> = Vec::new();
    let mut written = 0;
    let mut error = None;
    while written < bytes.len() {
        step += 1;
        let outcome = match step {
            1 => WriteOutcome::Interrupted,
            2 => {
                received.extend_from_slice(&bytes[written..written + 2]);
                WriteOutcome::Wrote(2)
            }
            _ => WriteOutcome::Failed("Broken pipe".to_string()),
        };
        match after_write(written, bytes.len(), outcome) {
            Delivery::Continue(n) => written = n,
            Delivery::Stop(n, message) => {
                written = n;
                error = Some(message);
                break;
            }
        }
    }
    assert_eq!(written, 2);
    assert!(error.is_some());
    assert_eq!(received, b"ab");
    assert_eq!(step, 3);
    let mut complete = Vec::new();
    let mut written = 0;
    while written < bytes.len() {
        let rest = &bytes[written..];
        complete.extend_from_slice(rest);
        match after_write(written, bytes.len(), WriteOutcome::Wrote(rest.len())) {
            Delivery::Continue(n) => written = n,
            Delivery::Stop(..) => break,
        }
    }
    assert_eq!((written, after_flush(None)), (4, None));
    assert_eq!(complete, b"abcd");
}

#[test]
fn zero_and_oversized_counts_stop_the_delivery() {
    assert_eq!(
        after_write(1, 4, WriteOutcome::Wrote(0)),
        Delivery::Stop(1, "PTY input write returned zero".to_string())
    );
    assert_eq!(
        after_write(1, 4, WriteOutcome::Wrote(4)),
        Delivery::Stop(1, "invalid PTY write count".to_string())
    );
    let long = "e".repeat(300);
    match after_write(0, 1, WriteOutcome::Failed(long)) {
        Delivery::Stop(0, message) => assert_eq!(message.chars().count(), 256),
        other => panic!("{other:?}"),
    }
    assert_eq!(after_flush(Some("x".to_string())), Some("x".to_string()));
    assert_eq!(fux::after(u64::MAX, 1), u64::MAX);
    assert_eq!(fux::after(10, 5), 15);
}

#[test]
fn private_environment_keys_are_recognized() {
    assert!(fux::pty::is_private_env_key("KOH_KEY_PASSPHRASE"));
    assert!(fux::pty::is_private_env_key("FUX_SOCKET"));
    assert!(!fux::pty::is_private_env_key("PATH"));
    assert!(!fux::pty::is_private_env_key("FUX"));
    assert!(!fux::pty::is_private_env_key("fux_socket"));
}

#[test]
fn the_input_budget_refuses_what_would_exceed_it() {
    assert_eq!(input_budget_after(3, 4), Some(7));
    assert_eq!(input_budget_after(MAX_PENDING_INPUT_BYTES, 0), Some(MAX_PENDING_INPUT_BYTES));
    assert_eq!(input_budget_after(MAX_PENDING_INPUT_BYTES, 1), None);
    assert_eq!(input_budget_after(usize::MAX, 1), None);
}

#[test]
fn a_tracked_write_is_delivered_only_when_whole_and_without_error() {
    let done = completion(5, 5, None);
    assert_eq!(
        done,
        Completion {
            bytes_written: 5,
            state: InputState::Delivered,
            error: None
        }
    );
    let short = completion(5, 3, None);
    assert_eq!(short.bytes_written, 3);
    assert_eq!(short.state, InputState::Failed);
    assert_eq!(short.error.as_deref(), Some("incomplete PTY write"));
    let erred = completion(5, 5, Some("x".repeat(300)));
    assert_eq!(erred.state, InputState::Failed);
    assert_eq!(erred.error.map(|e| e.len()), Some(256));
    let over = completion(5, 9, None);
    assert_eq!((over.bytes_written, over.state), (5, InputState::Failed));
}
