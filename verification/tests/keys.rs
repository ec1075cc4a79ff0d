use fux::keys::{all_names, Key, KeyPress, Modifiers};

fn parse(name: &str) -> Option<KeyPress> {
    name.parse().ok()
}

#[test]
fn tmux_names_parse_and_print_canonically() {
    for (name, canonical) in [
        ("C-b", "C-b"),
        ("C-B", "C-b"),
        ("c-b", "C-b"),
        ("M-x", "M-x"),
        ("C-M-Left", "C-M-Left"),
        ("S-Up", "S-Up"),
        ("BTab", "BTab"),
        ("S-Tab", "BTab"),
        ("Enter", "Enter"),
        ("enter", "Enter"),
        ("Space", "Space"),
        (" ", "Space"),
        ("BSpace", "BSpace"),
        ("PgUp", "PageUp"),
        ("NPage", "PageDown"),
        ("IC", "Insert"),
        ("F1", "F1"),
        ("F12", "F12"),
        ("-", "-"),
        ("C--", "C--"),
        ("T", "T"),
        ("S-t", "t"),
        ("界", "界"),
        (":", ":"),
    ] {
        assert_eq!(
            parse(name).map(|k| k.text()),
            Some(canonical.into()),
            "{name}"
        );
    }
    for bad in ["", "F13", "F0", "Nope", "C-", "ab"] {
        assert!(parse(bad).is_none(), "{bad}");
    }
    for name in all_names() {
        assert_eq!(parse(&name).map(|k| k.text()), Some(name.clone()));
    }
}

#[test]
fn an_unknown_name_is_refused_with_its_quoted_name() {
    assert_eq!(
        KeyPress::parse("Nope"),
        Err("unknown key \"Nope\"; `fux list-keys` lists them".to_string())
    );
    assert_eq!(all_names().len(), 28);
}

#[test]
fn function_keys_read_a_sign_and_leading_zeros() {
    assert_eq!(parse("F+1").map(|k| k.text()), Some("F1".to_string()));
    assert_eq!(parse("f012").map(|k| k.text()), Some("F12".to_string()));
    assert!(parse("F256").is_none());
    assert!(parse("F-1").is_none());
    assert!(parse("\u{7}").is_none());
}

#[test]
fn normalizing_twice_changes_nothing() {
    let mods = Modifiers {
        ctrl: true,
        alt: false,
        shift: true,
    };
    let once = KeyPress::new(Key::Char('B'), mods);
    assert_eq!(once, KeyPress::new(once.key, once.mods));
    assert_eq!(once.text(), "C-b");
    assert_eq!(parse(&once.text()), Some(once));
}
