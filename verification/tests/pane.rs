use fux::pane::{InputQueue, Modes, Typed, MAX_INPUT};

#[test]
fn the_queue_is_bounded_by_bytes_not_pieces() {
    let mut queue = InputQueue::default();
    // Thousands of one-byte keys fit: the bound is cost, not count.
    for _ in 0..3000 {
        assert!(queue.push(vec![b'k']).is_ok());
    }
    let mut big = InputQueue::default();
    let mut pushed = 0;
    while big.push(vec![0; MAX_INPUT]).is_ok() {
        pushed += 1;
    }
    assert_eq!(pushed, 15);
    big.advance(MAX_INPUT);
    assert!(
        big.push(vec![0; MAX_INPUT]).is_ok(),
        "space is freed as it is written"
    );
    let mut partial = InputQueue::default();
    assert!(partial.push(b"abc".to_vec()).is_ok());
    partial.advance(1);
    assert_eq!(partial.front(), Some(&b"bc"[..]));
    assert_eq!(partial.drain_all(), b"bc");
    assert!(partial.is_empty());
}

/// Once input is refused, nothing more is queued until the program
/// reads, as the notice says: accepting a later key would deliver it
/// with a hole where the refused input was.
#[test]
fn after_a_refusal_nothing_is_queued_until_the_program_reads() {
    let mut queue = InputQueue::default();
    while queue.push(vec![b'p'; MAX_INPUT]).is_ok() {}
    let refusal = queue.push(vec![b'k']).err().unwrap_or_default();
    assert!(
        refusal.contains("not reading"),
        "a key after a refused paste: {refusal:?}"
    );
    // Writing some of the front is the program reading: input is taken
    // again.
    queue.advance(1);
    assert!(queue.push(vec![b'k']).is_ok());
}

#[test]
fn modes_follow_output_split_anywhere() {
    let stream = b"x\x1b[?1004;2004hy\x1b[5 qz\x1b[?25l";
    for split in 0..stream.len() {
        let (a, b) = stream.split_at_checked(split).unwrap_or((stream, &[]));
        let mut modes = Modes::default();
        modes.feed(a);
        modes.feed(b);
        assert!(modes.focus_reporting, "split {split}");
        assert_eq!(modes.cursor_shape, 5, "split {split}");
    }
    let mut modes = Modes::default();
    modes.feed(b"\x1b[?1004h\x1b[?1004l\x1b[2 q\x1b[ q");
    assert!(!modes.focus_reporting);
    assert_eq!(modes.cursor_shape, 0);
    modes.feed(b"\x1b[?1004h\x1bc");
    assert!(!modes.focus_reporting);
}

#[test]
fn a_typed_line_waits_for_quiet_output_or_the_deadline() {
    let t0: u64 = 5_000;
    let ms = |n: u64| n;
    let mut typed = Typed {
        line: b"echo hi\r".to_vec(),
        deadline: t0 + ms(1000),
        last_output: None,
    };
    // Nothing written yet: only the deadline.
    assert_eq!(typed.due_at(), t0 + ms(1000));
    // Output keeps pushing it back while it keeps coming within QUIET.
    typed.last_output = Some(t0 + ms(100));
    assert_eq!(typed.due_at(), t0 + ms(150));
    typed.last_output = Some(t0 + ms(140));
    assert_eq!(typed.due_at(), t0 + ms(190));
    // Never past the deadline, however long the output lasts.
    typed.last_output = Some(t0 + ms(990));
    assert_eq!(typed.due_at(), t0 + ms(1000));
    assert_eq!(typed.line, b"echo hi\r");
}

#[test]
fn a_written_front_past_its_end_drains_nothing_more() {
    let mut queue = InputQueue::new();
    queue.advance(5);
    assert!(queue.push(b"abc".to_vec()).is_ok());
    assert_eq!(queue.front(), None);
    assert_eq!(queue.drain_all(), b"");
    assert!(!queue.is_empty());
    let mut empty = InputQueue::new();
    assert!(empty.push(Vec::new()).is_ok());
    assert!(empty.is_empty());
}

#[test]
fn cursor_shapes_overflowing_a_u16_read_as_the_default() {
    let mut modes = Modes::new();
    modes.feed(b"\x1b[70000 q");
    assert_eq!(modes.cursor_shape, 0);
    modes.feed(b"\x1b[3;9 q");
    assert_eq!(modes.cursor_shape, 3);
    modes.feed(b"\x1b[?2004;1004h");
    assert!(modes.focus_reporting);
}

#[test]
fn draining_gives_the_rest_of_the_front_then_every_piece_and_lifts_a_refusal() {
    let mut queue = InputQueue::new();
    assert!(queue.push(b"abc".to_vec()).is_ok());
    assert!(queue.push(b"de".to_vec()).is_ok());
    queue.advance(1);
    assert_eq!(queue.drain_all(), b"bcde");
    assert!(queue.is_empty());
    let mut full = InputQueue::new();
    while full.push(vec![b'p'; MAX_INPUT]).is_ok() {}
    assert!(full.push(vec![b'k']).is_err());
    assert_eq!(full.drain_all().len(), 15 * MAX_INPUT);
    assert!(full.is_empty());
    assert!(full.push(vec![b'k']).is_ok());
}

#[test]
fn the_tracked_modes_read_as_their_fields() {
    let mut modes = Modes::new();
    assert!(!modes.focus_reporting());
    assert_eq!(modes.cursor_shape(), 0);
    modes.feed(b"\x1b[?1004h\x1b[6 q");
    assert!(modes.focus_reporting());
    assert_eq!(modes.cursor_shape(), 6);
    assert_eq!(modes.focus_reporting(), modes.focus_reporting);
}
