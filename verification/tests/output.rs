use fux::host::output::{propose_metadata, take_output, title_announced, Metadata, Screen, Taken};

fn meta() -> Metadata {
    Metadata {
        window_title: "old".into(),
        clipboard_base64: "YQ==".into(),
        bell_count: 5,
        generation: 9,
    }
}

#[test]
fn output_proposes_title_clipboard_bells_and_a_new_generation() {
    let screen = Screen {
        title: "vim".into(),
        clipboard: "Yg==".into(),
        bell_count: 7,
    };
    let taken = Taken {
        clipboard: "YQ==".into(),
        bell_count: 4,
    };
    assert_eq!(
        propose_metadata(&meta(), &screen, &taken, true),
        Metadata {
            window_title: "vim".into(),
            clipboard_base64: "Yg==".into(),
            bell_count: 8,
            generation: 10
        }
    );
    let same = Taken {
        clipboard: "Yg==".into(),
        bell_count: 9,
    };
    assert_eq!(
        propose_metadata(&meta(), &screen, &same, false),
        Metadata {
            window_title: "old".into(),
            clipboard_base64: "YQ==".into(),
            bell_count: 5,
            generation: 10
        }
    );
}

#[test]
fn what_was_taken_moves_only_when_the_metadata_is_kept() {
    let screen = Screen {
        title: "t".into(),
        clipboard: "Yw==".into(),
        bell_count: 12,
    };
    let mut taken = Taken {
        clipboard: String::new(),
        bell_count: 10,
    };
    take_output(&mut taken, &screen, false);
    assert_eq!(taken, Taken { clipboard: String::new(), bell_count: 10 });
    take_output(&mut taken, &screen, true);
    assert_eq!(taken, Taken { clipboard: "Yw==".into(), bell_count: 12 });
    assert!(title_announced(true, "a", "b"));
    assert!(!title_announced(true, "a", "a"));
    assert!(!title_announced(false, "a", "b"));
}
