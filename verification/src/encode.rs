//! Byte encodings for keys and pastes delivered to a pane's PTY, in the
//! pane's own modes (application cursor keys, bracketed paste).
use vstd::prelude::*;
use vstd::utf8::{encode_scalar, encode_utf8};
use crate::keys::{Direction, Key, KeyPress, Modifiers};
use crate::text::{ascii_bytes, digits, push_char, push_decimal_bytes};

verus! {

broadcast use vstd::string::group_string_axioms;

/// What starts a bracketed paste: `ESC [ 200 ~`.
pub open spec fn paste_start() -> Seq<u8> {
    seq![0x1b, 0x5b, 0x32, 0x30, 0x30, 0x7e]
}

/// What ends a bracketed paste: `ESC [ 201 ~`.
pub open spec fn paste_end() -> Seq<u8> {
    seq![0x1b, 0x5b, 0x32, 0x30, 0x31, 0x7e]
}

/// `ESC [ 200 ~`, the bytes that start a bracketed paste.
pub fn paste_start_bytes() -> (b: Vec<u8>)
    ensures
        b@ == paste_start(),
{
    let b: Vec<u8> = vec![0x1b, 0x5b, 0x32, 0x30, 0x30, 0x7e];
    assert(b@ =~= paste_start());
    b
}

/// `ESC [ 201 ~`, the bytes that end a bracketed paste.
pub fn paste_end_bytes() -> (b: Vec<u8>)
    ensures
        b@ == paste_end(),
{
    let b: Vec<u8> = vec![0x1b, 0x5b, 0x32, 0x30, 0x31, 0x7e];
    assert(b@ =~= paste_end());
    b
}

/// Whether `s` ends with `pat`.
pub open spec fn ends_with(s: Seq<u8>, pat: Seq<u8>) -> bool {
    s.len() >= pat.len() && s.skip(s.len() - pat.len()) == pat
}

/// `s` read a byte at a time, where each time the bytes kept so far end
/// with `pat`, that `pat` is taken out again: every `pat`, and every one
/// that taking another out brings together, is removed, so none is left.
pub open spec fn stripped(s: Seq<u8>, pat: Seq<u8>) -> Seq<u8>
    decreases s.len(),
{
    if s.len() == 0 {
        s
    } else {
        let kept = stripped(s.drop_last(), pat).push(s.last());
        if pat.len() > 0 && ends_with(kept, pat) {
            kept.take(kept.len() - pat.len())
        } else {
            kept
        }
    }
}

/// A paste as the pane should receive it: framed if it asked for bracketed
/// paste, with the end markers inside the text taken out until none is
/// left.
pub open spec fn paste_bytes(text: Seq<char>, bracketed: bool) -> Seq<u8> {
    if bracketed {
        paste_start() + stripped(encode_utf8(text), paste_end()) + paste_end()
    } else {
        encode_utf8(text)
    }
}

/// Whether `s` holds `pat` at `at`.
fn holds_at(s: &[u8], at: usize, pat: &Vec<u8>) -> (r: bool)
    requires
        at <= s@.len(),
    ensures
        r == (s@.len() - at >= pat@.len() && s@.subrange(at as int, at + pat@.len()) == pat@),
{
    if s.len() - at < pat.len() {
        return false;
    }
    let mut i: usize = 0;
    while i < pat.len()
        invariant
            i <= pat@.len(),
            at <= s@.len(),
            s@.len() - at >= pat@.len(),
            at + pat.len() <= s.len(),
            forall|j: int| 0 <= j < i ==> s@[at + j] == pat@[j],
        decreases pat.len() - i,
    {
        if s[at + i] != pat[i] {
            assert(s@.subrange(at as int, at + pat@.len())[i as int] != pat@[i as int]);
            return false;
        }
        i += 1;
    }
    assert(s@.subrange(at as int, at + pat@.len()) =~= pat@);
    true
}

/// Whether the bytes `v` end with `pat`.
fn ends_with_bytes(v: &Vec<u8>, pat: &Vec<u8>) -> (r: bool)
    ensures
        r == ends_with(v@, pat@),
{
    if v.len() < pat.len() {
        return false;
    }
    let at = v.len() - pat.len();
    let r = holds_at(v.as_slice(), at, pat);
    assert(v@.subrange(at as int, at + pat@.len()) =~= v@.skip(at as int));
    r
}

/// The bytes of `s` with `pat` taken out as `stripped` says.
fn remove_all(s: &[u8], pat: &Vec<u8>) -> (out: Vec<u8>)
    requires
        pat@.len() > 0,
    ensures
        out@ == stripped(s@, pat@),
{
    let mut out: Vec<u8> = Vec::new();
    let mut i: usize = 0;
    assert(s@.take(0) =~= Seq::<u8>::empty());
    while i < s.len()
        invariant
            i <= s@.len(),
            pat@.len() > 0,
            out@ == stripped(s@.take(i as int), pat@),
        decreases s.len() - i,
    {
        out.push(s[i]);
        proof {
            assert(s@.take(i + 1).drop_last() =~= s@.take(i as int));
            assert(s@.take(i + 1).last() == s@[i as int]);
        }
        if ends_with_bytes(&out, pat) {
            let keep = out.len() - pat.len();
            out.truncate(keep);
        }
        i += 1;
    }
    assert(s@.take(i as int) =~= s@);
    out
}

/// Appends the bytes of `s`.
fn append(v: &mut Vec<u8>, s: &[u8])
    ensures
        final(v)@ == old(v)@ + s@,
{
    let mut i: usize = 0;
    while i < s.len()
        invariant
            i <= s@.len(),
            v@ == old(v)@ + s@.take(i as int),
        decreases s.len() - i,
    {
        v.push(s[i]);
        assert(s@.take(i + 1) =~= s@.take(i as int).push(s@[i as int]));
        i += 1;
    }
    assert(s@.take(i as int) =~= s@);
}

/// A paste as the pane should receive it: framed if it asked for bracketed
/// paste, with any end marker inside the text removed so the text cannot end
/// the paste early.
pub fn paste(text: &str, bracketed: bool) -> (bytes: Vec<u8>)
    ensures
        bytes@ == paste_bytes(text@, bracketed),
{
    let raw = text.as_bytes();
    if !bracketed {
        let mut bytes: Vec<u8> = Vec::new();
        append(&mut bytes, raw);
        assert(bytes@ =~= raw@);
        return bytes;
    }
    let end = paste_end_bytes();
    let inner = remove_all(raw, &end);
    let mut bytes = paste_start_bytes();
    append(&mut bytes, inner.as_slice());
    append(&mut bytes, end.as_slice());
    bytes
}

/// xterm's modifier parameter: 1 plus a bit for each modifier held.
pub open spec fn modifier_param(m: Modifiers) -> nat {
    1 + (if m.shift { 1nat } else { 0 }) + (if m.alt { 2nat } else { 0 }) + (if m.ctrl { 4nat } else { 0 })
}

/// `ESC [ code final`, or `ESC [ code ; modifier final` when modified.
pub open spec fn csi(code: nat, modifier: nat, final_byte: u8) -> Seq<u8> {
    if modifier > 1 {
        seq![0x1bu8, 0x5bu8] + ascii_bytes(digits(code)) + seq![0x3bu8] + ascii_bytes(digits(modifier))
            + seq![final_byte]
    } else {
        seq![0x1bu8, 0x5bu8] + ascii_bytes(digits(code)) + seq![final_byte]
    }
}

/// The final byte of a cursor-style key, and whether it is a function key
/// (`F1`..`F4`), which uses `ESC O` even outside application mode.
pub open spec fn cursor_final(k: Key) -> Option<(u8, bool)> {
    match k {
        Key::Arrow(Direction::Up) => Some((0x41, false)),
        Key::Arrow(Direction::Down) => Some((0x42, false)),
        Key::Arrow(Direction::Right) => Some((0x43, false)),
        Key::Arrow(Direction::Left) => Some((0x44, false)),
        Key::Home => Some((0x48, false)),
        Key::End => Some((0x46, false)),
        Key::F(n) => if n == 1 {
            Some((0x50, true))
        } else if n == 2 {
            Some((0x51, true))
        } else if n == 3 {
            Some((0x52, true))
        } else if n == 4 {
            Some((0x53, true))
        } else {
            None
        },
        _ => None,
    }
}

/// The `~` code of `F5`..`F12`.
pub open spec fn function_code(n: u8) -> Option<nat> {
    if n == 5 {
        Some(15)
    } else if n == 6 {
        Some(17)
    } else if n == 7 {
        Some(18)
    } else if n == 8 {
        Some(19)
    } else if n == 9 {
        Some(20)
    } else if n == 10 {
        Some(21)
    } else if n == 11 {
        Some(23)
    } else if n == 12 {
        Some(24)
    } else {
        None
    }
}

pub open spec fn to_ascii_uppercase(c: char) -> char {
    if 'a' <= c && c <= 'z' {
        ((c as u32) - 32) as char
    } else {
        c
    }
}

/// xterm's control-key byte for an ASCII character.
pub open spec fn control_code(c: char) -> u8 {
    if c == '2' {
        0
    } else if c == '3' {
        0x1b
    } else if c == '4' {
        0x1c
    } else if c == '5' {
        0x1d
    } else if c == '6' {
        0x1e
    } else if c == '7' {
        0x1f
    } else if c == '8' || c == '?' {
        0x7f
    } else if c == '0' || c == '1' || c == '9' {
        c as u8
    } else {
        (to_ascii_uppercase(c) as u8) & 0x1f
    }
}

/// The bytes of a key that is not cursor-style, before `alt` adds its escape.
pub open spec fn plain_key_bytes(p: KeyPress) -> Seq<u8> {
    let m = modifier_param(p.mods);
    match p.key {
        Key::Enter => seq![13u8],
        Key::Tab => if p.mods.shift {
            seq![0x1bu8, 0x5bu8, 0x5au8]
        } else {
            seq![9u8]
        },
        Key::Escape => seq![0x1bu8],
        Key::Backspace => seq![127u8],
        Key::Insert => csi(2, m, 0x7e),
        Key::Delete => csi(3, m, 0x7e),
        Key::PageUp => csi(5, m, 0x7e),
        Key::PageDown => csi(6, m, 0x7e),
        Key::F(n) => match function_code(n) {
            Some(code) => csi(code, m, 0x7e),
            None => seq![0x1bu8],
        },
        Key::Char(c) => if p.mods.ctrl && (c as u32) < 128 {
            seq![control_code(c)]
        } else {
            encode_utf8(seq![c])
        },
        _ => Seq::empty(),
    }
}

/// xterm's bytes for a key press, in application cursor mode or not.
pub open spec fn key_encoding(p: KeyPress, application: bool) -> Seq<u8> {
    let m = modifier_param(p.mods);
    match cursor_final(p.key) {
        Some((final_byte, function)) => if m > 1 {
            csi(1, m, final_byte)
        } else {
            seq![0x1bu8, if application || function { 0x4fu8 } else { 0x5bu8 }, final_byte]
        },
        None => {
            let body = plain_key_bytes(p);
            if p.mods.alt && !(body.len() > 0 && body[0] == 0x1b) {
                seq![0x1bu8] + body
            } else {
                body
            }
        },
    }
}

fn csi_bytes(code: u64, modifier: u64, final_byte: u8) -> (b: Vec<u8>)
    ensures
        b@ == csi(code as nat, modifier as nat, final_byte),
{
    let mut b: Vec<u8> = vec![0x1b, 0x5b];
    push_decimal_bytes(&mut b, code);
    if modifier > 1 {
        b.push(0x3b);
        push_decimal_bytes(&mut b, modifier);
    }
    b.push(final_byte);
    assert(b@ =~= csi(code as nat, modifier as nat, final_byte));
    b
}

fn cursor_key(k: Key) -> (r: Option<(u8, bool)>)
    ensures
        r == cursor_final(k),
{
    match k {
        Key::Arrow(Direction::Up) => Some((0x41, false)),
        Key::Arrow(Direction::Down) => Some((0x42, false)),
        Key::Arrow(Direction::Right) => Some((0x43, false)),
        Key::Arrow(Direction::Left) => Some((0x44, false)),
        Key::Home => Some((0x48, false)),
        Key::End => Some((0x46, false)),
        Key::F(1) => Some((0x50, true)),
        Key::F(2) => Some((0x51, true)),
        Key::F(3) => Some((0x52, true)),
        Key::F(4) => Some((0x53, true)),
        _ => None,
    }
}

fn function_key_code(n: u8) -> (r: Option<u64>)
    ensures
        match r {
            Some(c) => function_code(n) == Some(c as nat),
            None => function_code(n) is None,
        },
{
    match n {
        5 => Some(15),
        6 => Some(17),
        7 => Some(18),
        8 => Some(19),
        9 => Some(20),
        10 => Some(21),
        11 => Some(23),
        12 => Some(24),
        _ => None,
    }
}

/// xterm's control-key byte. Masking works for letters and the punctuation
/// that shares a column with a C0 control; the controls above Ctrl-Z are
/// named after digits too (Ctrl-4 is 0x1c), and xterm sends the digit itself
/// for the digits that have no control.
pub fn control_byte(c: char) -> (b: u8)
    ensures
        b == control_code(c),
{
    match c {
        '2' => 0,
        '3' => 0x1b,
        '4' => 0x1c,
        '5' => 0x1d,
        '6' => 0x1e,
        '7' => 0x1f,
        '8' | '?' => 0x7f,
        '0' | '1' | '9' => c as u8,
        _ => {
            let upper = if 'a' <= c && c <= 'z' {
                ((c as u8) - 32) as char
            } else {
                c
            };
            (upper as u8) & 0x1f
        },
    }
}

/// The UTF-8 bytes of `c`.
fn utf8_of(c: char) -> (b: Vec<u8>)
    ensures
        b@ == encode_utf8(seq![c]),
{
    let mut s = String::new();
    push_char(&mut s, c);
    assert(s@ =~= seq![c]);
    let text = s.as_str();
    let mut b: Vec<u8> = Vec::new();
    append(&mut b, text.as_bytes());
    assert(b@ =~= encode_utf8(seq![c]));
    b
}

/// xterm key bytes. Every key has an encoding.
pub fn key_bytes(press: KeyPress, application: bool) -> (bytes: Vec<u8>)
    ensures
        bytes@ == key_encoding(press, application),
{
    let KeyPress { key, mods } = press;
    let Modifiers { ctrl, alt, shift } = mods;
    // xterm's modifier parameter: 1 plus a bit for each, so at most 8.
    let mut modifier: u64 = 1;
    if shift {
        modifier = modifier + 1;
    }
    if alt {
        modifier = modifier + 2;
    }
    if ctrl {
        modifier = modifier + 4;
    }
    assert(modifier == modifier_param(mods));
    // Cursor-style keys share one shape: `ESC [ final`, `ESC O final` in
    // application mode or for F1..F4, and `ESC [ 1 ; mod final` when modified.
    if let Some((final_byte, function)) = cursor_key(key) {
        if modifier > 1 {
            return csi_bytes(1, modifier, final_byte);
        } else {
            let prefix: u8 = if application || function { 0x4f } else { 0x5b };
            let b: Vec<u8> = vec![0x1b, prefix, final_byte];
            assert(b@ =~= key_encoding(press, application));
            return b;
        }
    }
    let mut bytes: Vec<u8> = match key {
        Key::Enter => vec![13],
        Key::Tab => if shift {
            vec![0x1b, 0x5b, 0x5a]
        } else {
            vec![9]
        },
        Key::Escape => vec![27],
        Key::Backspace => vec![127],
        Key::Insert => csi_bytes(2, modifier, 0x7e),
        Key::Delete => csi_bytes(3, modifier, 0x7e),
        Key::PageUp => csi_bytes(5, modifier, 0x7e),
        Key::PageDown => csi_bytes(6, modifier, 0x7e),
        Key::F(n) => match function_key_code(n) {
            Some(code) => csi_bytes(code, modifier, 0x7e),
            None => vec![0x1b],
        },
        Key::Char(c) => if ctrl && (c as u32) < 128 {
            vec![control_byte(c)]
        } else {
            utf8_of(c)
        },
        // Handled by the cursor table above.
        _ => Vec::new(),
    };
    assert(bytes@ =~= plain_key_bytes(press));
    if alt && !(bytes.len() > 0 && bytes[0] == 27) {
        bytes.insert(0, 27);
        assert(bytes@ =~= seq![0x1bu8] + plain_key_bytes(press));
    }
    bytes
}

/// Every key press has bytes, in either cursor mode; a character without
/// modifiers is its own UTF-8.
pub proof fn lemma_key_encoding_total(p: KeyPress, application: bool)
    ensures
        key_encoding(p, application).len() > 0,
        p.mods == (Modifiers { ctrl: false, alt: false, shift: false }) ==> match p.key {
            Key::Char(c) => key_encoding(p, application) == encode_utf8(seq![c]),
            _ => true,
        },
{
    let m = modifier_param(p.mods);
    match p.key {
        Key::Char(c) => {
            assert(seq![c].drop_first() =~= Seq::<char>::empty());
            assert(encode_utf8(seq![c]) == encode_scalar(c as u32) + encode_utf8(Seq::<char>::empty()));
            assert(encode_scalar(c as u32).len() > 0);
        },
        _ => {},
    }
}


/// Whether `pat` occurs in `s`.
pub open spec fn occurs(s: Seq<u8>, pat: Seq<u8>) -> bool {
    exists|i: int| 0 <= i && i + pat.len() <= s.len() && #[trigger] s.subrange(i, i + pat.len()) == pat
}

/// A prefix of bytes without `pat` is without it too.
proof fn lemma_prefix_clean(s: Seq<u8>, pat: Seq<u8>, n: int)
    requires
        0 <= n <= s.len(),
        !occurs(s, pat),
    ensures
        !occurs(s.take(n), pat),
{
    assert forall|i: int| 0 <= i && i + pat.len() <= s.take(n).len() implies #[trigger] s.take(n).subrange(
        i,
        i + pat.len(),
    ) != pat by {
        assert(s.take(n).subrange(i, i + pat.len()) =~= s.subrange(i, i + pat.len()));
    }
}

/// What `stripped` leaves holds no `pat`.
pub proof fn lemma_stripped_is_clean(s: Seq<u8>, pat: Seq<u8>)
    requires
        pat.len() > 0,
    ensures
        !occurs(stripped(s, pat), pat),
    decreases s.len(),
{
    if s.len() > 0 {
        let before = stripped(s.drop_last(), pat);
        lemma_stripped_is_clean(s.drop_last(), pat);
        let kept = before.push(s.last());
        assert forall|i: int|
            0 <= i && i + pat.len() <= kept.len() && i + pat.len() < kept.len() implies #[trigger] kept.subrange(
            i,
            i + pat.len(),
        ) != pat by {
            assert(kept.subrange(i, i + pat.len()) =~= before.subrange(i, i + pat.len()));
        }
        if ends_with(kept, pat) {
            assert(kept.take(kept.len() - pat.len()) =~= before.take(kept.len() - pat.len()));
            lemma_prefix_clean(before, pat, kept.len() - pat.len());
        } else {
            assert forall|i: int| 0 <= i && i + pat.len() <= kept.len() implies #[trigger] kept.subrange(
                i,
                i + pat.len(),
            ) != pat by {
                if i + pat.len() == kept.len() {
                    assert(kept.subrange(i, i + pat.len()) =~= kept.skip(kept.len() - pat.len()));
                } else {
                    assert(kept.subrange(i, i + pat.len()) =~= before.subrange(i, i + pat.len()));
                }
            }
        }
    }
}

/// Bytes that hold no `pat` are left as they are.
proof fn lemma_stripped_absent(s: Seq<u8>, pat: Seq<u8>)
    requires
        pat.len() > 0,
        !occurs(s, pat),
    ensures
        stripped(s, pat) == s,
    decreases s.len(),
{
    if s.len() > 0 {
        lemma_prefix_clean(s, pat, s.len() - 1);
        assert(s.take(s.len() - 1) =~= s.drop_last());
        lemma_stripped_absent(s.drop_last(), pat);
        assert(s.drop_last().push(s.last()) =~= s);
        if s.len() >= pat.len() {
            assert(s.skip(s.len() - pat.len()) =~= s.subrange(
                s.len() - pat.len(),
                s.len() - pat.len() + pat.len(),
            ));
        }
    }
}

/// The body of a bracketed paste holds no end marker, whatever the text:
/// the text cannot end the paste before the final marker.
pub proof fn lemma_paste_cannot_end_early(text: Seq<char>)
    ensures
        paste_bytes(text, true) == paste_start() + stripped(encode_utf8(text), paste_end())
            + paste_end(),
        !occurs(stripped(encode_utf8(text), paste_end()), paste_end()),
{
    lemma_stripped_is_clean(encode_utf8(text), paste_end());
}

/// A text that holds no end marker is delivered whole between the markers.
pub proof fn lemma_paste_frames_the_text(text: Seq<char>)
    requires
        !occurs(encode_utf8(text), paste_end()),
    ensures
        paste_bytes(text, true) == paste_start() + encode_utf8(text) + paste_end(),
{
    lemma_stripped_absent(encode_utf8(text), paste_end());
}


/// `ESC [`, the key's number as the ASCII digits `number`, then `~`; when
/// modifiers are held, `;` and xterm's modifier parameter (`2`..`8`) come
/// before the `~`.
pub open spec fn tilde_sequence(number: Seq<u8>, mods: Modifiers) -> Seq<u8> {
    let m = 1 + (if mods.shift { 1int } else { 0 }) + (if mods.alt { 2int } else { 0 }) + (if mods.ctrl {
        4int
    } else {
        0
    });
    if m == 1 {
        seq![0x1bu8, 0x5bu8] + number + seq![0x7eu8]
    } else {
        seq![0x1bu8, 0x5bu8] + number + seq![0x3bu8, (0x30 + m) as u8, 0x7eu8]
    }
}

proof fn lemma_csi_tilde(code: nat, mods: Modifiers, number: Seq<u8>)
    requires
        ascii_bytes(digits(code)) == number,
    ensures
        csi(code, modifier_param(mods), 0x7e) == tilde_sequence(number, mods),
{
    let m = modifier_param(mods);
    if m > 1 {
        assert(digits(m) == seq![crate::text::digit_char(m)]);
        assert(ascii_bytes(digits(m)) =~= seq![(0x30 + m) as u8]);
        assert(csi(code, m, 0x7e) =~= tilde_sequence(number, mods));
    } else {
        assert(csi(code, m, 0x7e) =~= tilde_sequence(number, mods));
    }
}

proof fn lemma_two_digits(n: nat, tens: u8, ones: u8)
    requires
        10 <= n < 100,
        tens == 0x30 + n / 10,
        ones == 0x30 + n % 10,
    ensures
        ascii_bytes(digits(n)) == seq![tens, ones],
{
    assert(digits(n / 10) == seq![crate::text::digit_char(n / 10)]);
    assert(digits(n) == seq![crate::text::digit_char(n / 10), crate::text::digit_char(n % 10)]);
    assert(ascii_bytes(digits(n)) =~= seq![tens, ones]);
}

/// The keys xterm writes as `ESC [ number ~`, with their literal numbers:
/// Insert 2, Delete 3, PageUp 5, PageDown 6, and F5 to F12 15, 17, 18, 19,
/// 20, 21, 23, 24; a modified one carries `;` and the modifier parameter
/// before the `~`. Alt adds no escape of its own here, and the cursor mode
/// does not matter.
pub proof fn lemma_tilde_keys(mods: Modifiers, application: bool)
    ensures
        key_encoding(KeyPress { key: Key::Insert, mods }, application) == tilde_sequence(seq![0x32u8], mods),
        key_encoding(KeyPress { key: Key::Delete, mods }, application) == tilde_sequence(seq![0x33u8], mods),
        key_encoding(KeyPress { key: Key::PageUp, mods }, application) == tilde_sequence(seq![0x35u8], mods),
        key_encoding(KeyPress { key: Key::PageDown, mods }, application) == tilde_sequence(seq![0x36u8], mods),
        key_encoding(KeyPress { key: Key::F(5), mods }, application) == tilde_sequence(seq![0x31u8, 0x35u8], mods),
        key_encoding(KeyPress { key: Key::F(6), mods }, application) == tilde_sequence(seq![0x31u8, 0x37u8], mods),
        key_encoding(KeyPress { key: Key::F(7), mods }, application) == tilde_sequence(seq![0x31u8, 0x38u8], mods),
        key_encoding(KeyPress { key: Key::F(8), mods }, application) == tilde_sequence(seq![0x31u8, 0x39u8], mods),
        key_encoding(KeyPress { key: Key::F(9), mods }, application) == tilde_sequence(seq![0x32u8, 0x30u8], mods),
        key_encoding(KeyPress { key: Key::F(10), mods }, application) == tilde_sequence(seq![0x32u8, 0x31u8], mods),
        key_encoding(KeyPress { key: Key::F(11), mods }, application) == tilde_sequence(seq![0x32u8, 0x33u8], mods),
        key_encoding(KeyPress { key: Key::F(12), mods }, application) == tilde_sequence(seq![0x32u8, 0x34u8], mods),
{
    assert(ascii_bytes(digits(2)) =~= seq![0x32u8]);
    assert(ascii_bytes(digits(3)) =~= seq![0x33u8]);
    assert(ascii_bytes(digits(5)) =~= seq![0x35u8]);
    assert(ascii_bytes(digits(6)) =~= seq![0x36u8]);
    lemma_two_digits(15, 0x31, 0x35);
    lemma_two_digits(17, 0x31, 0x37);
    lemma_two_digits(18, 0x31, 0x38);
    lemma_two_digits(19, 0x31, 0x39);
    lemma_two_digits(20, 0x32, 0x30);
    lemma_two_digits(21, 0x32, 0x31);
    lemma_two_digits(23, 0x32, 0x33);
    lemma_two_digits(24, 0x32, 0x34);
    lemma_csi_tilde(2, mods, seq![0x32u8]);
    lemma_csi_tilde(3, mods, seq![0x33u8]);
    lemma_csi_tilde(5, mods, seq![0x35u8]);
    lemma_csi_tilde(6, mods, seq![0x36u8]);
    lemma_csi_tilde(15, mods, seq![0x31u8, 0x35u8]);
    lemma_csi_tilde(17, mods, seq![0x31u8, 0x37u8]);
    lemma_csi_tilde(18, mods, seq![0x31u8, 0x38u8]);
    lemma_csi_tilde(19, mods, seq![0x31u8, 0x39u8]);
    lemma_csi_tilde(20, mods, seq![0x32u8, 0x30u8]);
    lemma_csi_tilde(21, mods, seq![0x32u8, 0x31u8]);
    lemma_csi_tilde(23, mods, seq![0x32u8, 0x33u8]);
    lemma_csi_tilde(24, mods, seq![0x32u8, 0x34u8]);
}


}
