use fux::encode::{key_bytes, paste};
use fux::keys::{Direction, Key, KeyPress, Modifiers};

const ALL: Modifiers = Modifiers {
    ctrl: true,
    alt: true,
    shift: true,
};

fn none() -> Modifiers {
    Modifiers::none()
}

fn press(key: Key, mods: Modifiers) -> KeyPress {
    KeyPress { key, mods }
}

#[test]
fn modified_keys_preserve_xterm_protocol_semantics() {
    for (key, plain, modified) in [
        (Key::F(1), "\x1bOP", "\x1b[1;8P"),
        (Key::F(4), "\x1bOS", "\x1b[1;8S"),
        (Key::F(5), "\x1b[15~", "\x1b[15;8~"),
        (Key::Insert, "\x1b[2~", "\x1b[2;8~"),
        (Key::Home, "\x1b[H", "\x1b[1;8H"),
    ] {
        assert_eq!(key_bytes(press(key, none()), false), plain.as_bytes());
        assert_eq!(key_bytes(press(key, ALL), false), modified.as_bytes());
    }
    let left = Key::Arrow(Direction::Left);
    assert_eq!(key_bytes(press(left, none()), true), b"\x1bOD");
    let ctrl = Modifiers {
        ctrl: true,
        ..none()
    };
    assert_eq!(key_bytes(press(left, ctrl), true), b"\x1b[1;5D");
    let ctrl_shift = Modifiers {
        ctrl: true,
        shift: true,
        alt: false,
    };
    assert_eq!(key_bytes(press(Key::F(1), ctrl_shift), false), b"\x1b[1;6P");
    let alt = Modifiers {
        alt: true,
        ..none()
    };
    assert_eq!(key_bytes(press(Key::F(12), alt), false), b"\x1b[24;3~");
    assert_eq!(key_bytes(press(Key::Char('c'), ctrl), false), vec![3]);
    assert_eq!(key_bytes(press(Key::Char('x'), alt), false), b"\x1bx");
}

#[test]
fn control_bytes_follow_xterm_for_every_c0_control() {
    let ctrl = Modifiers {
        ctrl: true,
        ..none()
    };
    for (c, byte) in [
        (' ', 0x00),
        ('2', 0x00),
        ('a', 0x01),
        ('Z', 0x1a),
        ('3', 0x1b),
        ('[', 0x1b),
        ('4', 0x1c),
        ('\\', 0x1c),
        ('5', 0x1d),
        (']', 0x1d),
        ('6', 0x1e),
        ('^', 0x1e),
        ('7', 0x1f),
        ('_', 0x1f),
        ('8', 0x7f),
        ('?', 0x7f),
        ('0', b'0'),
        ('9', b'9'),
    ] {
        assert_eq!(
            key_bytes(press(Key::Char(c), ctrl), false),
            vec![byte],
            "{c:?}"
        );
    }
}

/// Every key, under all eight modifier sets and both cursor modes, has a
/// non-empty encoding, and a plain character is its own UTF-8.
#[test]
fn key_bytes_is_total_and_never_empty() {
    let mut keys = vec![
        Key::Enter,
        Key::Tab,
        Key::Escape,
        Key::Backspace,
        Key::Delete,
        Key::Insert,
        Key::Home,
        Key::End,
        Key::PageUp,
        Key::PageDown,
    ];
    keys.extend(Direction::ALL.map(Key::Arrow));
    keys.extend((1..=12).map(Key::F));
    for code in [
        0x20u32, 0x61, 0x5a, 0x30, 0x7e, 0xe9, 0x203c, 0x1f600, 0x300,
    ] {
        if let Some(c) = char::from_u32(code) {
            keys.push(Key::Char(c));
        }
    }
    for &key in &keys {
        for bits in 0u8..8 {
            let mods = Modifiers {
                ctrl: bits & 1 != 0,
                alt: bits & 2 != 0,
                shift: bits & 4 != 0,
            };
            for application in [false, true] {
                let bytes = key_bytes(press(key, mods), application);
                assert!(!bytes.is_empty(), "{key:?} {mods:?}");
                if let Key::Char(c) = key {
                    if mods.is_empty() {
                        let mut buffer = [0u8; 4];
                        assert_eq!(bytes, c.encode_utf8(&mut buffer).as_bytes());
                    }
                }
            }
        }
    }
}

#[test]
fn a_bracketed_paste_cannot_end_itself_early() {
    assert_eq!(paste("a\x1b[201~b", false), b"a\x1b[201~b");
    assert_eq!(paste("a\x1b[201~b", true), b"\x1b[200~ab\x1b[201~");
}

#[test]
fn a_paste_without_an_end_marker_is_framed_whole() {
    assert_eq!(paste("héllo", true), "\x1b[200~héllo\x1b[201~".as_bytes());
    assert_eq!(paste("", true), b"\x1b[200~\x1b[201~");
    assert_eq!(paste("x\x1b[201~\x1b[201~y", true), b"\x1b[200~xy\x1b[201~");
}

#[test]
fn markers_that_a_removal_brings_together_are_removed_too() {
    assert_eq!(paste("\x1b[20\x1b[201~1~", true), b"\x1b[200~\x1b[201~");
    assert_eq!(paste("a\x1b[2\x1b[201~01~b", true), b"\x1b[200~ab\x1b[201~");
    let body = paste("\x1b[\x1b[20\x1b[201~1~201~z", true);
    let inner = &body[6..body.len() - 6];
    assert!(!inner.windows(6).any(|w| w == b"\x1b[201~"));
    assert_eq!(inner, b"z");
}

#[test]
fn unnamed_function_keys_send_a_bare_escape() {
    assert_eq!(key_bytes(press(Key::F(13), none()), false), vec![0x1b]);
    assert_eq!(key_bytes(press(Key::F(0), none()), false), vec![0x1b]);
    assert_eq!(key_bytes(press(Key::F(13), Modifiers { alt: true, ..none() }), false), vec![0x1b]);
    assert_eq!(key_bytes(press(Key::Tab, Modifiers { shift: true, ..none() }), false), b"\x1b[Z");
    assert_eq!(key_bytes(press(Key::Char('é'), Modifiers { ctrl: true, ..none() }), false), "é".as_bytes());
}
