use fux::host::router::MouseEvent;
use fux::local::{
    after_change, frame, frame_length, handshake, hello_answer, incompatible_message,
    invalid_message, viewer_action, ClientMessage, CopyViewReply, FrameError, ServerMessage,
    ViewerAction, MAX_CLIENT_FRAME, VERSION,
};

fn header(bytes: &[u8]) -> [u8; 4] {
    [bytes[0], bytes[1], bytes[2], bytes[3]]
}

#[test]
fn a_frame_reads_back_and_an_oversized_header_is_refused() {
    let payload = br#"{"type":"input","bytes":[0,27,255]}"#.to_vec();
    let sent = frame(&payload, MAX_CLIENT_FRAME).unwrap();
    assert_eq!(&sent[..4], &[0, 0, 0, payload.len() as u8]);
    assert_eq!(frame_length(header(&sent), MAX_CLIENT_FRAME), Ok(payload.len()));
    assert_eq!(&sent[4..], &payload[..]);
    assert_eq!(
        frame_length(u32::MAX.to_be_bytes(), MAX_CLIENT_FRAME),
        Err(FrameError::InvalidLength)
    );
    assert_eq!(
        frame_length([0, 0, 0, 0], MAX_CLIENT_FRAME),
        Err(FrameError::InvalidLength)
    );
    assert_eq!(frame_length([0, 1, 0, 0], MAX_CLIENT_FRAME), Ok(65536));
    assert_eq!(
        frame_length([0, 1, 0, 1], MAX_CLIENT_FRAME),
        Err(FrameError::InvalidLength)
    );
    assert_eq!(frame_length([1, 2, 3, 4], usize::MAX), Ok(0x0102_0304));
}

#[test]
fn the_size_cap_is_enforced_before_writing() {
    assert_eq!(frame(&vec![42_u8; 1024], 16), Err(FrameError::ExceedsLimit));
    assert_eq!(frame(&vec![42_u8; 16], 16).map(|f| f.len()), Ok(20));
    let long = vec![7_u8; 70_000];
    let sent = frame(&long, usize::MAX).unwrap();
    assert_eq!(&sent[..4], &70_000_u32.to_be_bytes());
    assert_eq!(frame_length(header(&sent), usize::MAX), Ok(70_000));
    assert_eq!(FrameError::InvalidLength.message(), "invalid local frame length");
    assert_eq!(FrameError::ExceedsLimit.message(), "local frame exceeds limit");
    assert_eq!(
        FrameError::LengthOverflow.message(),
        u32::try_from(u64::MAX).unwrap_err().to_string()
    );
}

#[test]
fn only_a_hello_of_this_version_opens_a_session() {
    let hello = ClientMessage::<()>::Hello {
        version: VERSION,
        rows: 24,
        columns: 80,
    };
    assert_eq!(handshake(&hello), Some((24, 80)));
    let older = ClientMessage::<()>::Hello {
        version: 1,
        rows: 24,
        columns: 80,
    };
    assert_eq!(handshake(&older), None);
    assert_eq!(handshake(&ClientMessage::<()>::Detach), None);
    assert!(incompatible_message().starts_with("incompatible local attachment protocol"));
}

#[test]
fn attached_messages_are_checked_before_they_act() {
    let input = ClientMessage::<u8>::from(vec![0, 27, 255]);
    assert_eq!(
        input,
        ClientMessage::Input {
            bytes: vec![0, 27, 255]
        }
    );
    assert_eq!(
        viewer_action(input),
        ViewerAction::PaneInput {
            bytes: vec![0, 27, 255]
        }
    );
    assert_eq!(
        viewer_action(ClientMessage::<u8>::PaneInput {
            bytes: vec![1; 4096]
        }),
        ViewerAction::PaneInput {
            bytes: vec![1; 4096]
        }
    );
    assert_eq!(
        viewer_action(ClientMessage::<u8>::Input {
            bytes: vec![1; 4097]
        }),
        ViewerAction::Invalid
    );
    let at = |column, row| MouseEvent {
        code: 0,
        column,
        row,
        release: false,
    };
    assert_eq!(
        viewer_action(ClientMessage::<u8>::Mouse { event: at(1, 1) }),
        ViewerAction::Mouse { event: at(1, 1) }
    );
    assert_eq!(
        viewer_action(ClientMessage::<u8>::Mouse { event: at(0, 1) }),
        ViewerAction::Invalid
    );
    assert_eq!(
        viewer_action(ClientMessage::<u8>::Control { request: 9 }),
        ViewerAction::Control { request: 9 }
    );
    assert_eq!(
        viewer_action(ClientMessage::<u8>::Resize {
            rows: 30,
            columns: 100
        }),
        ViewerAction::Resize {
            rows: 30,
            columns: 100
        }
    );
    assert_eq!(
        viewer_action(ClientMessage::<u8>::Hello {
            version: VERSION,
            rows: 1,
            columns: 1
        }),
        ViewerAction::Invalid
    );
    assert_eq!(
        viewer_action(ClientMessage::<u8>::Detach),
        ViewerAction::Detach
    );
    assert_eq!(invalid_message(), "invalid local client message");
}

type Message = ServerMessage<String, u8, u16>;

#[test]
fn the_server_answers_a_hello_or_turns_the_client_away() {
    let hello = ClientMessage::<()>::Hello {
        version: VERSION,
        rows: 24,
        columns: 80,
    };
    assert_eq!(
        hello_answer::<(), String, u8, u16>(&hello),
        Message::Hello { version: VERSION }
    );
    assert_eq!(
        hello_answer::<(), String, u8, u16>(&ClientMessage::Resize {
            rows: 1,
            columns: 1
        }),
        Message::Error {
            message: incompatible_message()
        }
    );
}

#[test]
fn the_state_precedes_the_reply_and_the_exit_comes_last() {
    let only: Vec<Message> = after_change("s".to_string(), None, true, None);
    assert_eq!(
        only,
        vec![Message::State {
            state: Box::new("s".to_string())
        }]
    );
    let all: Vec<Message> = after_change("s".to_string(), Some(7), false, Some(2));
    assert_eq!(
        all,
        vec![
            Message::State {
                state: Box::new("s".to_string())
            },
            Message::Reply { reply: 7 },
            Message::Exited { code: Some(2) },
        ]
    );
    let view = Message::CopyView {
        reply: CopyViewReply {
            request: 1,
            pane: 2,
            view: Some(Box::new(3)),
        },
    };
    assert_ne!(view, all[0]);
}
