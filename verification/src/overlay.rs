//! The keyboard overlays' rules: the command column's rows, how many rows
//! a list shows, the prompt's one-line editing, and what kind a target is.
use vstd::prelude::*;
use crate::ids::{PaneId, TabId};
use crate::keys::{control, is_control, Direction, Key, KeyPress};
use vstd::utf8::encode_utf8;

verus! {

broadcast use vstd::string::group_string_axioms;

/// One row of the command column: a group heading, a binding, or a layer.
#[derive(Clone, Debug, PartialEq, Eq)]
#[allow(inconsistent_fields)]
pub enum ColumnRow {
    Heading(String),
    Binding { key: String, label: String, argv: Vec<String> },
    /// A key that opens a layer, and the layer's title.
    Layer { key: KeyPress, title: String },
}

/// Something a command can be aimed at.
#[derive(Clone, Debug, PartialEq, Eq)]
pub enum AnyRef {
    Pane(PaneId),
    Tab(TabId),
    Workspace(String),
}

/// The kind of a target.
#[derive(Clone, Copy, Debug, PartialEq, Eq, Structural)]
pub enum Kind {
    Pane,
    Tab,
    Workspace,
}

/// The kind a target is.
pub fn kind_of(target: &AnyRef) -> (k: Kind)
    ensures
        k == match target {
            AnyRef::Pane(_) => Kind::Pane,
            AnyRef::Tab(_) => Kind::Tab,
            AnyRef::Workspace(_) => Kind::Workspace,
        },
{
    match target {
        AnyRef::Pane(_) => Kind::Pane,
        AnyRef::Tab(_) => Kind::Tab,
        AnyRef::Workspace(_) => Kind::Workspace,
    }
}

/// The words of a command line, each as a `String`.
pub fn argv(words: &[&str]) -> (v: Vec<String>)
    ensures
        v.len() == words@.len(),
        forall|i: int| 0 <= i < v.len() ==> (#[trigger] v[i])@ == words@[i]@,
{
    let mut v: Vec<String> = Vec::new();
    let mut i: usize = 0;
    while i < words.len()
        invariant
            i <= words@.len(),
            v.len() == i,
            forall|j: int| 0 <= j < i ==> (#[trigger] v[j])@ == words@[j]@,
        decreases words.len() - i,
    {
        v.push(crate::text::string_of(words[i]));
        i += 1;
    }
    v
}

/// The key of a press without `Ctrl` or `Alt`, which lists read as plain.
pub fn plain(press: KeyPress) -> (k: Option<Key>)
    ensures
        k == (if !press.mods.ctrl && !press.mods.alt {
            Some(press.key)
        } else {
            None
        }),
{
    if !press.mods.ctrl && !press.mods.alt {
        Some(press.key)
    } else {
        None
    }
}

/// Rows the list shows at once on a screen of `rows`: all but four, and at
/// least one.
pub fn list_capacity(rows: u16) -> (n: usize)
    ensures
        n == (if rows > 5 {
            rows - 4
        } else {
            1
        }),
{
    let shown = if rows >= 4 {
        rows - 4
    } else {
        0
    };
    if shown as usize > 1 {
        shown as usize
    } else {
        1
    }
}

/// `text` with the `remove` characters from character `at` replaced by
/// `insert`; positions count characters.
pub open spec fn spliced(text: Seq<char>, at: int, remove: int, insert: Seq<char>) -> Seq<char> {
    let start = if at < text.len() { at } else { text.len() as int };
    let end = if at + remove < text.len() { at + remove } else { text.len() as int };
    text.take(start) + insert + text.skip(end)
}

/// `text` with the `remove` chars from char `at` replaced by `insert`:
/// positions count chars, so no edit can fall inside one.
pub fn splice(text: &str, at: usize, remove: usize, insert: &str) -> (s: String)
    ensures
        s@ == spliced(text@, at as int, remove as int, insert@),
{
    let cs = crate::text::chars_of(text);
    let mut s = String::new();
    let mut i: usize = 0;
    while i < cs.len() && i < at
        invariant
            i <= cs@.len(),
            i <= at,
            cs@ == text@,
            s@ == cs@.take(i as int),
        decreases cs.len() - i,
    {
        crate::text::push_char(&mut s, cs[i]);
        assert(cs@.take(i + 1) =~= cs@.take(i as int).push(cs@[i as int]));
        i += 1;
    }
    crate::text::push_str(&mut s, insert);
    let ghost head = s@;
    // Skip `remove` more, without adding past the end.
    let mut j: usize = i;
    let mut skipped: usize = 0;
    while j < cs.len() && skipped < remove
        invariant
            i <= j <= cs@.len(),
            skipped <= remove,
            j == i + skipped,
        decreases cs.len() - j,
    {
        j += 1;
        skipped += 1;
    }
    let mut k = j;
    while k < cs.len()
        invariant
            j <= k <= cs@.len(),
            cs@ == text@,
            s@ == head + cs@.subrange(j as int, k as int),
        decreases cs.len() - k,
    {
        crate::text::push_char(&mut s, cs[k]);
        assert(cs@.subrange(j as int, k + 1) =~= cs@.subrange(j as int, k as int).push(cs@[k as int]));
        k += 1;
    }
    assert(s@ =~= spliced(text@, at as int, remove as int, insert@));
    s
}


/// What a prompt is for: a command line, or a new name for a target.
#[derive(Clone, Debug, PartialEq, Eq)]
pub enum PromptFor {
    Command,
    Rename(AnyRef),
}

/// A one-line editor under a title; `cursor` counts characters.
#[derive(Clone, Debug, PartialEq, Eq)]
pub struct Prompt {
    pub title: String,
    pub purpose: PromptFor,
    pub text: String,
    pub cursor: usize,
}

/// The most bytes a prompt's text grows to by typing or pasting.
pub const PROMPT_BYTES: usize = 4096;

/// The number of characters of `text`.
fn char_count(text: &str) -> (n: usize)
    ensures
        n == text@.len(),
{
    crate::text::chars_of(text).len()
}

impl Prompt {
    /// A prompt holding `text`, its cursor after the last character.
    pub fn new(purpose: PromptFor, title: String, text: String) -> (p: Prompt)
        ensures
            p.purpose == purpose,
            p.title@ == title@,
            p.text@ == text@,
            p.cursor == text@.len(),
    {
        let cursor = char_count(text.as_str());
        Prompt { title, purpose, text, cursor }
    }
}

/// What a key did to a prompt.
#[derive(Clone, Copy, Debug, PartialEq, Eq, Structural)]
pub enum PromptOutcome {
    /// The prompt stays open.
    Editing,
    /// The prompt was closed without its text being used.
    Cancelled,
    /// The prompt was closed and its text is to be used.
    Submitted,
}

/// `n + 1`, or the largest `usize` where that is larger.
pub open spec fn one_more(n: usize) -> int {
    if n < usize::MAX {
        n + 1
    } else {
        n as int
    }
}

/// The text, cursor and outcome of a key in a prompt holding `text` with
/// the cursor at `cursor`. With Ctrl (and not Alt): `u` deletes what is
/// before the cursor, `a` and `e` go to the start and the end, `c` and `g`
/// cancel. Otherwise: Escape cancels, Enter submits, Backspace and Delete
/// remove the character before and at the cursor, the left and right arrows
/// move by one within the text, Home and End go to its ends, and a
/// character other than a control character is typed at the cursor while
/// the text is under [`PROMPT_BYTES`] bytes and Alt is not held. Other keys
/// do nothing.
pub open spec fn prompt_edit(text: Seq<char>, cursor: usize, press: KeyPress) -> (
    Seq<char>,
    int,
    PromptOutcome,
) {
    let len = text.len() as int;
    if press.mods.ctrl && !press.mods.alt {
        match press.key {
            Key::Char(c) => if c == 'u' {
                (spliced(text, 0, cursor as int, Seq::empty()), 0, PromptOutcome::Editing)
            } else if c == 'a' {
                (text, 0, PromptOutcome::Editing)
            } else if c == 'e' {
                (text, len, PromptOutcome::Editing)
            } else if c == 'c' || c == 'g' {
                (text, cursor as int, PromptOutcome::Cancelled)
            } else {
                (text, cursor as int, PromptOutcome::Editing)
            },
            _ => (text, cursor as int, PromptOutcome::Editing),
        }
    } else {
        match press.key {
            Key::Escape => (text, cursor as int, PromptOutcome::Cancelled),
            Key::Enter => (text, cursor as int, PromptOutcome::Submitted),
            Key::Backspace => if cursor >= 1 {
                (
                    spliced(text, cursor - 1, 1, Seq::empty()),
                    cursor - 1,
                    PromptOutcome::Editing,
                )
            } else {
                (text, cursor as int, PromptOutcome::Editing)
            },
            Key::Delete => if cursor < len {
                (spliced(text, cursor as int, 1, Seq::empty()), cursor as int, PromptOutcome::Editing)
            } else {
                (text, cursor as int, PromptOutcome::Editing)
            },
            Key::Arrow(Direction::Left) => (
                text,
                if cursor >= 1 {
                    cursor - 1
                } else {
                    0
                },
                PromptOutcome::Editing,
            ),
            Key::Arrow(Direction::Right) => (
                text,
                if one_more(cursor) <= len {
                    one_more(cursor)
                } else {
                    len
                },
                PromptOutcome::Editing,
            ),
            Key::Home => (text, 0, PromptOutcome::Editing),
            Key::End => (text, len, PromptOutcome::Editing),
            Key::Char(c) => if !press.mods.alt && !is_control(c) && encode_utf8(text).len()
                < PROMPT_BYTES {
                (spliced(text, cursor as int, 0, seq![c]), one_more(cursor), PromptOutcome::Editing)
            } else {
                (text, cursor as int, PromptOutcome::Editing)
            },
            _ => (text, cursor as int, PromptOutcome::Editing),
        }
    }
}

/// A key in a prompt: a one-line editor. Its title and purpose stay.
pub fn prompt_key(prompt: &mut Prompt, press: KeyPress) -> (outcome: PromptOutcome)
    ensures
        final(prompt).title == old(prompt).title,
        final(prompt).purpose == old(prompt).purpose,
        final(prompt).text@ == prompt_edit(old(prompt).text@, old(prompt).cursor, press).0,
        final(prompt).cursor == prompt_edit(old(prompt).text@, old(prompt).cursor, press).1,
        outcome == prompt_edit(old(prompt).text@, old(prompt).cursor, press).2,
{
    let len = char_count(prompt.text.as_str());
    proof {
        reveal_strlit("");
    }
    if press.mods.ctrl && !press.mods.alt {
        if let Key::Char(c) = press.key {
            if c == 'u' {
                prompt.text = splice(prompt.text.as_str(), 0, prompt.cursor, "");
                prompt.cursor = 0;
            } else if c == 'a' {
                prompt.cursor = 0;
            } else if c == 'e' {
                prompt.cursor = len;
            } else if c == 'c' || c == 'g' {
                return PromptOutcome::Cancelled;
            }
        }
        return PromptOutcome::Editing;
    }
    match press.key {
        Key::Escape => {
            return PromptOutcome::Cancelled;
        },
        Key::Enter => {
            return PromptOutcome::Submitted;
        },
        Key::Backspace => {
            if prompt.cursor >= 1 {
                let before = prompt.cursor - 1;
                prompt.text = splice(prompt.text.as_str(), before, 1, "");
                prompt.cursor = before;
            }
        },
        Key::Delete => {
            if prompt.cursor < len {
                prompt.text = splice(prompt.text.as_str(), prompt.cursor, 1, "");
            }
        },
        Key::Arrow(Direction::Left) => {
            prompt.cursor = prompt.cursor.saturating_sub(1);
        },
        Key::Arrow(Direction::Right) => {
            let next = prompt.cursor.saturating_add(1);
            prompt.cursor = if next <= len {
                next
            } else {
                len
            };
        },
        Key::Home => {
            prompt.cursor = 0;
        },
        Key::End => {
            prompt.cursor = len;
        },
        Key::Char(c) => {
            if !press.mods.alt && !control(c) && prompt.text.as_str().as_bytes().len() < PROMPT_BYTES {
                let mut typed = String::new();
                crate::text::push_char(&mut typed, c);
                assert(typed@ =~= seq![c]);
                prompt.text = splice(prompt.text.as_str(), prompt.cursor, 0, typed.as_str());
                prompt.cursor = prompt.cursor.saturating_add(1);
            }
        },
        _ => {},
    }
    PromptOutcome::Editing
}

/// Each character takes at least one byte.
proof fn lemma_bytes_at_least_chars(text: Seq<char>)
    ensures
        encode_utf8(text).len() >= text.len(),
    decreases text.len(),
{
    if text.len() > 0 {
        lemma_bytes_at_least_chars(text.drop_first());
    }
}

/// Typing a character and then Backspace gives back the text and the
/// cursor one started with, wherever the character is taken: the cursor is
/// within the text, the text is under the byte limit and the character is
/// not a control character.
pub proof fn lemma_backspace_undoes_typing(text: Seq<char>, cursor: usize, c: char)
    requires
        cursor <= text.len(),
        encode_utf8(text).len() < PROMPT_BYTES,
        !is_control(c),
    ensures
        ({
            let typed = prompt_edit(text, cursor, KeyPress { key: Key::Char(c), mods: crate::keys::no_mods() });
            let back = prompt_edit(
                typed.0,
                typed.1 as usize,
                KeyPress { key: Key::Backspace, mods: crate::keys::no_mods() },
            );
            back.0 == text && back.1 == cursor as int
        }),
{
    let typed = prompt_edit(text, cursor, KeyPress { key: Key::Char(c), mods: crate::keys::no_mods() });
    lemma_bytes_at_least_chars(text);
    assert(typed.0 =~= text.take(cursor as int) + seq![c] + text.skip(cursor as int));
    assert(spliced(typed.0, cursor as int, 1, Seq::empty()) =~= text);
}

/// Whether `c` ends a pasted line.
pub open spec fn is_line_break(c: char) -> bool {
    c == '\n' || c == '\r'
}

/// Whether `i` is where the first line of `text` ends: a line break with
/// none before it, or the end of a text without one.
pub open spec fn is_line_end(text: Seq<char>, i: int) -> bool {
    &&& 0 <= i <= text.len()
    &&& (i == text.len() || is_line_break(text[i]))
    &&& forall|j: int| 0 <= j < i ==> !is_line_break(#[trigger] text[j])
}

/// Where the first line of `text` ends.
pub open spec fn line_end(text: Seq<char>) -> int {
    choose|i: int| is_line_end(text, i)
}

/// `text` without its control characters.
pub open spec fn printable(text: Seq<char>) -> Seq<char> {
    text.filter(|c: char| !is_control(c))
}

/// What a paste puts into a prompt: its first line, without control
/// characters.
pub open spec fn pasted_line(text: Seq<char>) -> Seq<char> {
    printable(text.take(line_end(text)))
}

/// The first line of a text ends in one place.
proof fn lemma_line_end(text: Seq<char>, i: int)
    requires
        is_line_end(text, i),
    ensures
        line_end(text) == i,
{
    let e = line_end(text);
    assert(is_line_end(text, e));
    if e < i {
        assert(!is_line_break(text[e]));
    } else if i < e {
        assert(!is_line_break(text[i]));
    }
}

/// Pasted text goes into a prompt at its cursor, the first line of it and
/// no control characters, if the text stays within [`PROMPT_BYTES`] bytes;
/// the cursor moves past it. Whether it went in is returned.
pub fn prompt_paste(prompt: &mut Prompt, text: &str) -> (taken: bool)
    ensures
        final(prompt).title == old(prompt).title,
        final(prompt).purpose == old(prompt).purpose,
        taken == (encode_utf8(old(prompt).text@).len() + encode_utf8(pasted_line(text@)).len()
            <= PROMPT_BYTES),
        taken ==> final(prompt).text@ == spliced(
            old(prompt).text@,
            old(prompt).cursor as int,
            0,
            pasted_line(text@),
        ),
        taken ==> final(prompt).cursor == (if old(prompt).cursor + pasted_line(text@).len()
            <= usize::MAX {
            old(prompt).cursor + pasted_line(text@).len()
        } else {
            usize::MAX as int
        }),
        !taken ==> *final(prompt) == *old(prompt),
{
    let cs = crate::text::chars_of(text);
    let mut line = String::new();
    let mut count: usize = 0;
    let mut i: usize = 0;
    while i < cs.len() && cs[i] != '\n' && cs[i] != '\r'
        invariant
            i <= cs@.len(),
            cs@ == text@,
            forall|j: int| 0 <= j < i ==> !is_line_break(#[trigger] text@[j]),
            line@ == printable(text@.take(i as int)),
            count == line@.len(),
            count <= i,
        decreases cs.len() - i,
    {
        proof {
            assert(text@.take(i + 1).drop_last() =~= text@.take(i as int));
            assert(text@.take(i + 1).last() == text@[i as int]);
            reveal_with_fuel(Seq::filter, 1);
        }
        if !control(cs[i]) {
            crate::text::push_char(&mut line, cs[i]);
            count = count + 1;
        }
        i = i + 1;
    }
    proof {
        assert(is_line_end(text@, i as int));
        lemma_line_end(text@, i as int);
    }
    let fits = match prompt.text.as_str().as_bytes().len().checked_add(line.as_str().as_bytes().len()) {
        Some(total) => total <= PROMPT_BYTES,
        None => false,
    };
    if fits {
        prompt.text = splice(prompt.text.as_str(), prompt.cursor, 0, line.as_str());
        prompt.cursor = prompt.cursor.saturating_add(count);
    }
    fits
}

/// How a confirmation is answered by a key.
#[derive(Clone, Copy, Debug, PartialEq, Eq, Structural)]
pub enum Answer {
    /// `y`: the action is run.
    Yes,
    /// `n`, `q` or Escape: the confirmation closes.
    No,
    /// Any other key: the confirmation waits.
    Waiting,
}

/// The answer a key gives a confirmation: only keys without Ctrl or Alt
/// answer, `y` or `Y` yes, and `n`, `N`, `q` or Escape no.
pub fn confirm_key(press: KeyPress) -> (a: Answer)
    ensures
        a == (match plain_key(press) {
            Some(Key::Char(c)) => if c == 'y' || c == 'Y' {
                Answer::Yes
            } else if c == 'n' || c == 'N' || c == 'q' {
                Answer::No
            } else {
                Answer::Waiting
            },
            Some(Key::Escape) => Answer::No,
            _ => Answer::Waiting,
        }),
{
    match plain(press) {
        Some(Key::Char(c)) => if c == 'y' || c == 'Y' {
            Answer::Yes
        } else if c == 'n' || c == 'N' || c == 'q' {
            Answer::No
        } else {
            Answer::Waiting
        },
        Some(Key::Escape) => Answer::No,
        _ => Answer::Waiting,
    }
}

/// The key of a press without Ctrl or Alt.
pub open spec fn plain_key(press: KeyPress) -> Option<Key> {
    if !press.mods.ctrl && !press.mods.alt {
        Some(press.key)
    } else {
        None
    }
}

}
