use fux::ids::PaneId;
use fux::keys::{control, Direction, Key, KeyPress, Modifiers};
use fux::overlay::{
    argv, confirm_key, kind_of, list_capacity, plain, prompt_key, prompt_paste, splice,
    AnyRef, Answer, Kind, Prompt, PromptFor, PromptOutcome,
};

/// Prompt edits count chars, so none falls inside one: what Ctrl-U,
/// Backspace, Delete, typing and a paste do, on text with wide chars.
#[test]
fn prompt_edits_count_chars_not_bytes() {
    for (at, remove, insert, edited) in [
        (0, 2, "", "llo界"),
        (1, 1, "", "hllo界"),
        (4, 1, "", "héll界"),
        (5, 1, "", "héllo"),
        (6, 1, "", "héllo界"),
        (2, 0, "ü", "héüllo界"),
        (6, 0, "x", "héllo界x"),
        (9, 0, "x", "héllo界x"),
        (3, 0, "p a", "hélp alo界"),
    ] {
        assert_eq!(
            splice("héllo界", at, remove, insert),
            edited,
            "{at} {remove} {insert:?}"
        );
    }
}

#[test]
fn a_list_shows_all_but_four_rows_and_at_least_one() {
    assert_eq!(list_capacity(0), 1);
    assert_eq!(list_capacity(5), 1);
    assert_eq!(list_capacity(6), 2);
    assert_eq!(list_capacity(30), 26);
    assert_eq!(splice("abc", 1, usize::MAX, "x"), "ax");
}

#[test]
fn targets_have_kinds_and_lists_read_plain_keys() {
    assert_eq!(kind_of(&AnyRef::Pane(PaneId(1))), Kind::Pane);
    assert_eq!(kind_of(&AnyRef::Workspace("w".into())), Kind::Workspace);
    assert_eq!(argv(&["kill-pane", "-t", "%1"]), vec!["kill-pane", "-t", "%1"]);
    assert_eq!(plain(KeyPress::char('j')), Some(Key::Char('j')));
    let ctrl = Modifiers {
        ctrl: true,
        ..Modifiers::none()
    };
    assert_eq!(plain(KeyPress::new(Key::Char('j'), ctrl)), None);
}

fn prompt(text: &str) -> Prompt {
    Prompt::new(PromptFor::Command, "run".to_string(), text.to_string())
}

fn ctrl(c: char) -> KeyPress {
    KeyPress::new(
        Key::Char(c),
        Modifiers {
            ctrl: true,
            ..Modifiers::none()
        },
    )
}

fn key(k: Key) -> KeyPress {
    KeyPress::new(k, Modifiers::none())
}

#[test]
fn a_prompt_starts_after_its_text_and_edits_by_characters() {
    let mut p = prompt("héllo界");
    assert_eq!(p.cursor, 6);
    assert_eq!(prompt_key(&mut p, key(Key::Backspace)), PromptOutcome::Editing);
    assert_eq!((p.text.as_str(), p.cursor), ("héllo", 5));
    prompt_key(&mut p, key(Key::Home));
    prompt_key(&mut p, key(Key::Arrow(Direction::Right)));
    assert_eq!(p.cursor, 1);
    prompt_key(&mut p, key(Key::Delete));
    assert_eq!((p.text.as_str(), p.cursor), ("hllo", 1));
    prompt_key(&mut p, KeyPress::char('ü'));
    assert_eq!((p.text.as_str(), p.cursor), ("hüllo", 2));
    prompt_key(&mut p, key(Key::Arrow(Direction::Left)));
    prompt_key(&mut p, key(Key::Arrow(Direction::Left)));
    prompt_key(&mut p, key(Key::Arrow(Direction::Left)));
    assert_eq!(p.cursor, 0);
    prompt_key(&mut p, key(Key::Backspace));
    assert_eq!((p.text.as_str(), p.cursor), ("hüllo", 0));
    prompt_key(&mut p, key(Key::End));
    prompt_key(&mut p, key(Key::Arrow(Direction::Right)));
    assert_eq!(p.cursor, 5);
    prompt_key(&mut p, key(Key::Delete));
    assert_eq!(p.text, "hüllo");
}

#[test]
fn prompt_control_keys_cut_move_and_cancel() {
    let mut p = prompt("split -h");
    prompt_key(&mut p, key(Key::Arrow(Direction::Left)));
    prompt_key(&mut p, key(Key::Arrow(Direction::Left)));
    assert_eq!(prompt_key(&mut p, ctrl('u')), PromptOutcome::Editing);
    assert_eq!((p.text.as_str(), p.cursor), ("-h", 0));
    prompt_key(&mut p, ctrl('e'));
    assert_eq!(p.cursor, 2);
    prompt_key(&mut p, ctrl('a'));
    assert_eq!(p.cursor, 0);
    assert_eq!(prompt_key(&mut p, ctrl('x')), PromptOutcome::Editing);
    assert_eq!(prompt_key(&mut p, ctrl('c')), PromptOutcome::Cancelled);
    assert_eq!(prompt_key(&mut p, ctrl('g')), PromptOutcome::Cancelled);
    assert_eq!(prompt_key(&mut p, key(Key::Escape)), PromptOutcome::Cancelled);
    assert_eq!(prompt_key(&mut p, key(Key::Enter)), PromptOutcome::Submitted);
    assert_eq!((p.text.as_str(), p.cursor), ("-h", 0));
}

#[test]
fn a_prompt_takes_no_control_characters_and_stops_growing_at_its_limit() {
    let mut p = prompt("");
    prompt_key(&mut p, KeyPress::char('\u{7}'));
    prompt_key(&mut p, KeyPress::char('\u{85}'));
    let alt = Modifiers {
        alt: true,
        ..Modifiers::none()
    };
    prompt_key(&mut p, KeyPress::new(Key::Char('x'), alt));
    assert_eq!((p.text.as_str(), p.cursor), ("", 0));
    assert!(control('\u{0}') && control('\u{1f}') && control('\u{7f}'));
    assert!(control('\u{9f}') && !control(' ') && !control('\u{a0}'));
    let mut full = prompt(&"a".repeat(4095));
    prompt_key(&mut full, KeyPress::char('b'));
    assert_eq!(full.text.len(), 4096);
    prompt_key(&mut full, KeyPress::char('c'));
    assert_eq!(full.text.len(), 4096);
    assert!(full.text.ends_with('b'));
}

#[test]
fn backspace_undoes_typing() {
    let mut p = prompt("héllo界");
    prompt_key(&mut p, key(Key::Arrow(Direction::Left)));
    prompt_key(&mut p, KeyPress::char('X'));
    assert_eq!(p.text, "héllo X界".replace(' ', ""));
    prompt_key(&mut p, key(Key::Backspace));
    assert_eq!((p.text.as_str(), p.cursor), ("héllo界", 5));
}

#[test]
fn a_paste_takes_its_first_line_without_controls() {
    let mut p = prompt("ab");
    prompt_key(&mut p, key(Key::Arrow(Direction::Left)));
    assert!(prompt_paste(&mut p, "x\ty界\nnext line"));
    assert_eq!((p.text.as_str(), p.cursor), ("axy界b", 4));
    assert!(prompt_paste(&mut p, "\r\nignored"));
    assert_eq!((p.text.as_str(), p.cursor), ("axy界b", 4));
    let mut near = prompt(&"a".repeat(4090));
    assert!(!prompt_paste(&mut near, "1234567"));
    assert_eq!((near.text.len(), near.cursor), (4090, 4090));
    assert!(prompt_paste(&mut near, "123456"));
    assert_eq!((near.text.len(), near.cursor), (4096, 4096));
}

#[test]
fn a_confirmation_answers_to_plain_keys() {
    assert_eq!(confirm_key(KeyPress::char('y')), Answer::Yes);
    assert_eq!(confirm_key(KeyPress::char('Y')), Answer::Yes);
    assert_eq!(confirm_key(KeyPress::char('n')), Answer::No);
    assert_eq!(confirm_key(KeyPress::char('N')), Answer::No);
    assert_eq!(confirm_key(KeyPress::char('q')), Answer::No);
    assert_eq!(confirm_key(key(Key::Escape)), Answer::No);
    assert_eq!(confirm_key(key(Key::Enter)), Answer::Waiting);
    assert_eq!(confirm_key(ctrl('y')), Answer::Waiting);
}
