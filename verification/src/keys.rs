//! Keys, their modifiers, and their names in `bind`, `send-keys` and
//! `list-keys`: tmux's names (`C-x`, `M-x`, `S-Left`, `Enter`, `BTab`, …)
//! plus any single character.
use vstd::prelude::*;
use crate::text::{chars_of, debug_text, digits, push_char, push_decimal};

verus! {

broadcast use vstd::string::group_string_axioms;

#[derive(Debug, Clone, Copy, PartialEq, Eq, Hash, Structural)]
pub enum Direction {
    Left,
    Right,
    Up,
    Down,
}

impl Direction {
    pub const ALL: [Direction; 4] = [Direction::Left, Direction::Right, Direction::Up, Direction::Down];

    pub fn name(self) -> (name: &'static str)
        ensures
            name@ == direction_name(self),
    {
        match self {
            Direction::Left => "left",
            Direction::Right => "right",
            Direction::Up => "up",
            Direction::Down => "down",
        }
    }

    /// The `-L`/`-R`/`-U`/`-D` flag that names it.
    pub fn flag(self) -> (flag: &'static str)
        ensures
            flag@ == direction_flag(self),
    {
        match self {
            Direction::Left => "-L",
            Direction::Right => "-R",
            Direction::Up => "-U",
            Direction::Down => "-D",
        }
    }
}

pub open spec fn direction_name(d: Direction) -> Seq<char> {
    match d {
        Direction::Left => "left"@,
        Direction::Right => "right"@,
        Direction::Up => "up"@,
        Direction::Down => "down"@,
    }
}

pub open spec fn direction_flag(d: Direction) -> Seq<char> {
    match d {
        Direction::Left => "-L"@,
        Direction::Right => "-R"@,
        Direction::Up => "-U"@,
        Direction::Down => "-D"@,
    }
}

#[derive(Debug, Clone, Copy, PartialEq, Eq, Hash, Structural)]
pub enum Key {
    Char(char),
    Enter,
    Tab,
    Escape,
    Backspace,
    Delete,
    Insert,
    Arrow(Direction),
    Home,
    End,
    PageUp,
    PageDown,
    /// `1..=12`.
    F(u8),
}

#[derive(Debug, Clone, Copy, Default, PartialEq, Eq, Hash, Structural)]
pub struct Modifiers {
    pub ctrl: bool,
    pub alt: bool,
    pub shift: bool,
}

impl Modifiers {
    /// No modifier held.
    pub fn none() -> (mods: Modifiers)
        ensures
            mods == no_mods(),
    {
        Modifiers { ctrl: false, alt: false, shift: false }
    }

    pub fn is_empty(self) -> (empty: bool)
        ensures
            empty == (!self.ctrl && !self.alt && !self.shift),
    {
        !self.ctrl && !self.alt && !self.shift
    }
}

/// A key with its modifiers, normalized so that equal key presses compare
/// equal: a character carries its own shift (`A`, not `S-a`), and a control
/// letter is lower case (`C-b`), as terminals cannot tell the two apart.
#[derive(Debug, Clone, Copy, PartialEq, Eq, Hash, Structural)]
pub struct KeyPress {
    pub key: Key,
    pub mods: Modifiers,
}

pub open spec fn no_mods() -> Modifiers {
    Modifiers { ctrl: false, alt: false, shift: false }
}

pub open spec fn is_ascii_alphabetic(c: char) -> bool {
    ('a' <= c && c <= 'z') || ('A' <= c && c <= 'Z')
}

pub open spec fn to_ascii_lowercase(c: char) -> char {
    if 'A' <= c && c <= 'Z' { ((c as u32) + 32) as char } else { c }
}

/// `char::is_control`: the C0 and C1 controls and DEL.
pub open spec fn is_control(c: char) -> bool {
    (c as u32) <= 0x1f || (0x7f <= (c as u32) && (c as u32) <= 0x9f)
}

/// A key press as `KeyPress::new` normalizes it.
pub open spec fn normalized_press(key: Key, mods: Modifiers) -> KeyPress {
    match key {
        Key::Char(c) => KeyPress {
            key: if mods.ctrl && is_ascii_alphabetic(c) { Key::Char(to_ascii_lowercase(c)) } else { key },
            mods: Modifiers { shift: false, ..mods },
        },
        _ => KeyPress { key, mods },
    }
}

pub fn ascii_lowercase(c: char) -> (l: char)
    ensures
        l == to_ascii_lowercase(c),
{
    if 'A' <= c && c <= 'Z' {
        ((c as u8) + 32) as char
    } else {
        c
    }
}

pub fn control(c: char) -> (r: bool)
    ensures
        r == is_control(c),
{
    (c as u32) <= 0x1f || (0x7f <= (c as u32) && (c as u32) <= 0x9f)
}

impl KeyPress {
    pub fn new(key: Key, mods: Modifiers) -> (press: Self)
        ensures
            press == normalized_press(key, mods),
    {
        let mut press = KeyPress { key, mods };
        if let Key::Char(c) = key {
            press.mods.shift = false;
            if press.mods.ctrl && (('a' <= c && c <= 'z') || ('A' <= c && c <= 'Z')) {
                press.key = Key::Char(ascii_lowercase(c));
            }
        }
        press
    }

    pub fn plain(key: Key) -> (press: Self)
        ensures
            press == normalized_press(key, no_mods()),
    {
        Self::new(key, Modifiers::none())
    }

    pub fn char(c: char) -> (press: Self)
        ensures
            press == normalized_press(Key::Char(c), no_mods()),
    {
        Self::plain(Key::Char(c))
    }
}


/// The name a key is printed with, for the keys that have one.
pub open spec fn named(key: Key) -> Option<Seq<char>> {
    match key {
        Key::Enter => Some("Enter"@),
        Key::Tab => Some("Tab"@),
        Key::Escape => Some("Escape"@),
        Key::Char(c) => if c == ' ' { Some("Space"@) } else { None },
        Key::Backspace => Some("BSpace"@),
        Key::Arrow(Direction::Up) => Some("Up"@),
        Key::Arrow(Direction::Down) => Some("Down"@),
        Key::Arrow(Direction::Left) => Some("Left"@),
        Key::Arrow(Direction::Right) => Some("Right"@),
        Key::Home => Some("Home"@),
        Key::End => Some("End"@),
        Key::PageUp => Some("PageUp"@),
        Key::PageDown => Some("PageDown"@),
        Key::Insert => Some("Insert"@),
        Key::Delete => Some("Delete"@),
        Key::F(_) => None,
    }
}

/// A key's name: its printed name, else the character itself, else `F`
/// and its number.
pub open spec fn key_text(key: Key) -> Seq<char> {
    match named(key) {
        Some(n) => n,
        None => match key {
            Key::Char(c) => seq![c],
            Key::F(n) => seq!['F'] + digits(n as nat),
            _ => Seq::empty(),
        },
    }
}

/// A key press's name: `BTab`, else its modifiers and its key.
pub open spec fn press_text(press: KeyPress) -> Seq<char> {
    if press.key == Key::Tab && press.mods.shift && !press.mods.ctrl && !press.mods.alt {
        "BTab"@
    } else {
        (if press.mods.ctrl { "C-"@ } else { Seq::empty() }) + (if press.mods.alt { "M-"@ } else { Seq::empty() })
            + (if press.mods.shift { "S-"@ } else { Seq::empty() }) + key_text(press.key)
    }
}

fn printed_name(key: Key) -> (name: Option<&'static str>)
    ensures
        match name {
            Some(n) => named(key) == Some(n@),
            None => named(key) is None,
        },
{
    match key {
        Key::Enter => Some("Enter"),
        Key::Tab => Some("Tab"),
        Key::Escape => Some("Escape"),
        Key::Char(c) => if c == ' ' { Some("Space") } else { None },
        Key::Backspace => Some("BSpace"),
        Key::Arrow(Direction::Up) => Some("Up"),
        Key::Arrow(Direction::Down) => Some("Down"),
        Key::Arrow(Direction::Left) => Some("Left"),
        Key::Arrow(Direction::Right) => Some("Right"),
        Key::Home => Some("Home"),
        Key::End => Some("End"),
        Key::PageUp => Some("PageUp"),
        Key::PageDown => Some("PageDown"),
        Key::Insert => Some("Insert"),
        Key::Delete => Some("Delete"),
        Key::F(_) => None,
    }
}

pub fn key_name(key: Key) -> (name: String)
    ensures
        name@ == key_text(key),
{
    if let Some(n) = printed_name(key) {
        return crate::text::string_of(n);
    }
    let mut out = String::new();
    match key {
        Key::Char(c) => {
            push_char(&mut out, c);
        },
        Key::F(n) => {
            push_char(&mut out, 'F');
            push_decimal(&mut out, n as u64);
        },
        _ => {},
    }
    assert(out@ =~= key_text(key));
    out
}

impl KeyPress {
    /// The name of the key press, as `list-keys` prints it and `bind`
    /// reads it back.
    pub fn text(&self) -> (name: String)
        ensures
            name@ == press_text(*self),
    {
        if self.key == Key::Tab && self.mods.shift && !self.mods.ctrl && !self.mods.alt {
            return crate::text::string_of("BTab");
        }
        let mut out = String::new();
        if self.mods.ctrl {
            crate::text::push_str(&mut out, "C-");
        }
        if self.mods.alt {
            crate::text::push_str(&mut out, "M-");
        }
        if self.mods.shift {
            crate::text::push_str(&mut out, "S-");
        }
        let name = key_name(self.key);
        crate::text::push_str(&mut out, name.as_str());
        assert(out@ =~= press_text(*self));
        out
    }
}


/// A `C-`, `M-` or `S-` prefix, in either case.
pub open spec fn is_mod_prefix(a: char, b: char) -> bool {
    b == '-' && (a == 'C' || a == 'c' || a == 'M' || a == 'm' || a == 'S' || a == 's')
}

/// `mods` with the modifier that the prefix letter `a` names.
pub open spec fn add_mod(mods: Modifiers, a: char) -> Modifiers {
    if a == 'C' || a == 'c' {
        Modifiers { ctrl: true, ..mods }
    } else if a == 'M' || a == 'm' {
        Modifiers { alt: true, ..mods }
    } else {
        Modifiers { shift: true, ..mods }
    }
}

/// The modifier prefixes at the front of a name, and what follows them. A
/// prefix counts only while something follows it, so `-` and `C--` name the
/// minus key.
pub open spec fn split_mods(s: Seq<char>, mods: Modifiers) -> (Modifiers, Seq<char>)
    decreases s.len(),
{
    if s.len() >= 3 && is_mod_prefix(s[0], s[1]) {
        split_mods(s.subrange(2, s.len() as int), add_mod(mods, s[0]))
    } else {
        (mods, s)
    }
}

/// Equal but for the case of ASCII letters.
pub open spec fn same_ignoring_case(a: Seq<char>, b: Seq<char>) -> bool {
    a.len() == b.len() && forall|i: int| 0 <= i < a.len() ==> folded(#[trigger] a[i]) == folded(b[i])
}

/// The code of a character with an ASCII capital taken as its small letter.
pub open spec fn folded(c: char) -> int {
    if 'A' <= c && c <= 'Z' {
        (c as u32) + 32
    } else {
        c as int
    }
}

/// The key a name or an alias names, in any case.
pub open spec fn key_named(s: Seq<char>) -> Option<Key> {
    if same_ignoring_case(s, "Enter"@) {
        Some(Key::Enter)
    } else if same_ignoring_case(s, "Tab"@) {
        Some(Key::Tab)
    } else if same_ignoring_case(s, "Escape"@) {
        Some(Key::Escape)
    } else if same_ignoring_case(s, "Space"@) {
        Some(Key::Char(' '))
    } else if same_ignoring_case(s, "BSpace"@) {
        Some(Key::Backspace)
    } else if same_ignoring_case(s, "Up"@) {
        Some(Key::Arrow(Direction::Up))
    } else if same_ignoring_case(s, "Down"@) {
        Some(Key::Arrow(Direction::Down))
    } else if same_ignoring_case(s, "Left"@) {
        Some(Key::Arrow(Direction::Left))
    } else if same_ignoring_case(s, "Right"@) {
        Some(Key::Arrow(Direction::Right))
    } else if same_ignoring_case(s, "Home"@) {
        Some(Key::Home)
    } else if same_ignoring_case(s, "End"@) {
        Some(Key::End)
    } else if same_ignoring_case(s, "PageUp"@) {
        Some(Key::PageUp)
    } else if same_ignoring_case(s, "PageDown"@) {
        Some(Key::PageDown)
    } else if same_ignoring_case(s, "Insert"@) {
        Some(Key::Insert)
    } else if same_ignoring_case(s, "Delete"@) {
        Some(Key::Delete)
    } else if same_ignoring_case(s, "PgUp"@) {
        Some(Key::PageUp)
    } else if same_ignoring_case(s, "PPage"@) {
        Some(Key::PageUp)
    } else if same_ignoring_case(s, "PgDn"@) {
        Some(Key::PageDown)
    } else if same_ignoring_case(s, "NPage"@) {
        Some(Key::PageDown)
    } else if same_ignoring_case(s, "IC"@) {
        Some(Key::Insert)
    } else if same_ignoring_case(s, "DC"@) {
        Some(Key::Delete)
    } else if same_ignoring_case(s, "Esc"@) {
        Some(Key::Escape)
    } else {
        None
    }
}

pub open spec fn is_digit(c: char) -> bool {
    '0' <= c && c <= '9'
}

pub open spec fn all_digits(s: Seq<char>) -> bool {
    forall|i: int| 0 <= i < s.len() ==> is_digit(#[trigger] s[i])
}

/// The number that decimal digits write.
pub open spec fn decimal_value(s: Seq<char>) -> int
    decreases s.len(),
{
    if s.len() == 0 {
        0
    } else {
        decimal_value(s.drop_last()) * 10 + ((s.last() as int) - 48)
    }
}

/// What `u8::from_str` reads from `s`: an optional `+`, then one or more
/// digits, of value at most 255.
pub open spec fn small_number(s: Seq<char>) -> Option<u8> {
    let d = if s.len() > 0 && s[0] == '+' { s.subrange(1, s.len() as int) } else { s };
    if d.len() >= 1 && all_digits(d) && decimal_value(d) <= 255 {
        Some(decimal_value(d) as u8)
    } else {
        None
    }
}

/// The function key `F1`..`F12` (or `f1`..) that `s` names.
pub open spec fn function_number(s: Seq<char>) -> Option<u8> {
    if s.len() >= 1 && (s[0] == 'F' || s[0] == 'f') {
        match small_number(s.subrange(1, s.len() as int)) {
            Some(n) => if 1 <= n <= 12 { Some(n) } else { None },
            None => None,
        }
    } else {
        None
    }
}

/// The key press a name reads as: modifier prefixes, then `BTab`, a name or
/// an alias, a function key, or one character that is not a control.
pub open spec fn parsed_key(name: Seq<char>) -> Option<KeyPress> {
    let (mods, rest) = split_mods(name, no_mods());
    if rest == "BTab"@ {
        Some(normalized_press(Key::Tab, Modifiers { shift: true, ..mods }))
    } else {
        match rest_key(rest) {
            Some(key) => Some(normalized_press(key, mods)),
            None => None,
        }
    }
}

/// The key that what follows the modifiers names, other than `BTab`: a name
/// or an alias, a function key, or one character that is not a control.
pub open spec fn rest_key(rest: Seq<char>) -> Option<Key> {
    match key_named(rest) {
        Some(key) => Some(key),
        None => match function_number(rest) {
            Some(n) => Some(Key::F(n)),
            None => if rest.len() == 1 && !is_control(rest[0]) {
                Some(Key::Char(rest[0]))
            } else {
                None
            },
        },
    }
}

/// The error for a name that reads as no key.
pub open spec fn unknown_key_message(name: Seq<char>) -> Seq<char> {
    "unknown key "@ + debug_text(name) + "; `fux list-keys` lists them"@
}

fn mod_prefix_at(cs: &Vec<char>, i: usize) -> (r: bool)
    requires
        i <= cs.len(),
    ensures
        r == (cs.len() - i >= 3 && is_mod_prefix(cs@[i as int], cs@[i + 1])),
{
    if cs.len() - i < 3 {
        return false;
    }
    let a = cs[i];
    cs[i + 1] == '-' && (a == 'C' || a == 'c' || a == 'M' || a == 'm' || a == 'S' || a == 's')
}

fn with_prefix(mods: Modifiers, a: char) -> (r: Modifiers)
    ensures
        r == add_mod(mods, a),
{
    if a == 'C' || a == 'c' {
        Modifiers { ctrl: true, ..mods }
    } else if a == 'M' || a == 'm' {
        Modifiers { alt: true, ..mods }
    } else {
        Modifiers { shift: true, ..mods }
    }
}

/// Whether `v` holds the characters of `s`.
fn chars_equal(v: &Vec<char>, s: &str) -> (r: bool)
    ensures
        r == (v@ == s@),
{
    let t = chars_of(s);
    if v.len() != t.len() {
        return false;
    }
    let mut i: usize = 0;
    while i < v.len()
        invariant
            i <= v.len() == t.len(),
            t@ == s@,
            forall|j: int| 0 <= j < i ==> v@[j] == t@[j],
        decreases v.len() - i,
    {
        if v[i] != t[i] {
            return false;
        }
        i += 1;
    }
    assert(v@ =~= t@);
    true
}

fn fold(c: char) -> (r: u32)
    ensures
        r as int == folded(c),
{
    if 'A' <= c && c <= 'Z' {
        (c as u32) + 32
    } else {
        c as u32
    }
}

/// Whether `v` holds the characters of `s` but for the case of ASCII letters.
fn same_case_folded(v: &Vec<char>, s: &str) -> (r: bool)
    ensures
        r == same_ignoring_case(v@, s@),
{
    let t = chars_of(s);
    if v.len() != t.len() {
        return false;
    }
    let mut i: usize = 0;
    while i < v.len()
        invariant
            i <= v.len() == t.len(),
            t@ == s@,
            forall|j: int| 0 <= j < i ==> folded(#[trigger] v@[j]) == folded(t@[j]),
        decreases v.len() - i,
    {
        if fold(v[i]) != fold(t[i]) {
            return false;
        }
        i += 1;
    }
    true
}

fn lookup_name(v: &Vec<char>) -> (r: Option<Key>)
    ensures
        r == key_named(v@),
{
    if same_case_folded(v, "Enter") {
        Some(Key::Enter)
    } else if same_case_folded(v, "Tab") {
        Some(Key::Tab)
    } else if same_case_folded(v, "Escape") {
        Some(Key::Escape)
    } else if same_case_folded(v, "Space") {
        Some(Key::Char(' '))
    } else if same_case_folded(v, "BSpace") {
        Some(Key::Backspace)
    } else if same_case_folded(v, "Up") {
        Some(Key::Arrow(Direction::Up))
    } else if same_case_folded(v, "Down") {
        Some(Key::Arrow(Direction::Down))
    } else if same_case_folded(v, "Left") {
        Some(Key::Arrow(Direction::Left))
    } else if same_case_folded(v, "Right") {
        Some(Key::Arrow(Direction::Right))
    } else if same_case_folded(v, "Home") {
        Some(Key::Home)
    } else if same_case_folded(v, "End") {
        Some(Key::End)
    } else if same_case_folded(v, "PageUp") {
        Some(Key::PageUp)
    } else if same_case_folded(v, "PageDown") {
        Some(Key::PageDown)
    } else if same_case_folded(v, "Insert") {
        Some(Key::Insert)
    } else if same_case_folded(v, "Delete") {
        Some(Key::Delete)
    } else if same_case_folded(v, "PgUp") {
        Some(Key::PageUp)
    } else if same_case_folded(v, "PPage") {
        Some(Key::PageUp)
    } else if same_case_folded(v, "PgDn") {
        Some(Key::PageDown)
    } else if same_case_folded(v, "NPage") {
        Some(Key::PageDown)
    } else if same_case_folded(v, "IC") {
        Some(Key::Insert)
    } else if same_case_folded(v, "DC") {
        Some(Key::Delete)
    } else if same_case_folded(v, "Esc") {
        Some(Key::Escape)
    } else {
        None
    }
}

/// The characters of `v` from `start` on.
fn tail_from(v: &Vec<char>, start: usize) -> (r: Vec<char>)
    requires
        start <= v.len(),
    ensures
        r@ == v@.subrange(start as int, v.len() as int),
{
    let mut r: Vec<char> = Vec::new();
    let mut i = start;
    while i < v.len()
        invariant
            start <= i <= v.len(),
            r@ == v@.subrange(start as int, i as int),
        decreases v.len() - i,
    {
        r.push(v[i]);
        i += 1;
    }
    r
}

proof fn lemma_decimal_value_bounds(s: Seq<char>)
    requires
        all_digits(s),
    ensures
        decimal_value(s) >= 0,
    decreases s.len(),
{
    if s.len() > 0 {
        lemma_decimal_value_bounds(s.drop_last());
    }
}

/// `u8::from_str`, on characters.
fn read_small_number(v: &Vec<char>, start: usize) -> (r: Option<u8>)
    requires
        start <= v.len(),
    ensures
        r == small_number(v@.subrange(start as int, v.len() as int)),
{
    let ghost s = v@.subrange(start as int, v.len() as int);
    let mut i = start;
    if i < v.len() && v[i] == '+' {
        i += 1;
    }
    let ghost d = v@.subrange(i as int, v.len() as int);
    assert(d == (if s.len() > 0 && s[0] == '+' { s.subrange(1, s.len() as int) } else { s }));
    if i == v.len() {
        return None;
    }
    // The value so far, held at 1000 once it is past what a byte holds.
    let mut value: u32 = 0;
    let mut j = i;
    while j < v.len()
        invariant
            i <= j <= v.len(),
            d == v@.subrange(i as int, v.len() as int),
            d.len() >= 1,
            small_number(v@.subrange(start as int, v.len() as int)) == (if all_digits(d)
                && decimal_value(d) <= 255 {
                Some(decimal_value(d) as u8)
            } else {
                None
            }),
            all_digits(v@.subrange(i as int, j as int)),
            value <= 1000,
            value == (if decimal_value(v@.subrange(i as int, j as int)) <= 1000 {
                decimal_value(v@.subrange(i as int, j as int))
            } else {
                1000
            }),
        decreases v.len() - j,
    {
        let c = v[j];
        if !('0' <= c && c <= '9') {
            assert(d[j - i] == c);
            assert(!is_digit(d[j - i]));
            assert(!all_digits(d));
            return None;
        }
        let ghost before = v@.subrange(i as int, j as int);
        let ghost after = v@.subrange(i as int, j + 1);
        assert(after.drop_last() =~= before);
        proof {
            lemma_decimal_value_bounds(before);
        }
        let next = value * 10 + (c as u32 - 48);
        value = if next > 1000 { 1000 } else { next };
        j += 1;
    }
    assert(v@.subrange(i as int, j as int) =~= d);
    if value <= 255 {
        Some(value as u8)
    } else {
        None
    }
}

fn read_function_number(v: &Vec<char>) -> (r: Option<u8>)
    ensures
        r == function_number(v@),
{
    if v.len() >= 1 && (v[0] == 'F' || v[0] == 'f') {
        match read_small_number(v, 1) {
            Some(n) => if 1 <= n && n <= 12 { Some(n) } else { None },
            None => None,
        }
    } else {
        None
    }
}

/// The error for a name that reads as no key.
fn unknown_key(name: &str) -> (e: String)
    ensures
        e@ == unknown_key_message(name@),
{
    let mut e = crate::text::string_of("unknown key ");
    let quoted = crate::text::debug_quoted(name);
    crate::text::push_str(&mut e, quoted.as_str());
    crate::text::push_str(&mut e, "; `fux list-keys` lists them");
    e
}

impl KeyPress {
    /// Reads a key name as `bind` and `send-keys` take it.
    pub fn parse(name: &str) -> (r: Result<KeyPress, String>)
        ensures
            match r {
                Ok(press) => parsed_key(name@) == Some(press),
                Err(e) => parsed_key(name@) is None && e@ == unknown_key_message(name@),
            },
    {
        let cs = chars_of(name);
        let mut mods = Modifiers::none();
        let mut i: usize = 0;
        assert(cs@.subrange(0, cs.len() as int) =~= name@);
        while mod_prefix_at(&cs, i)
            invariant
                i <= cs.len(),
                cs@ == name@,
                split_mods(cs@.subrange(i as int, cs.len() as int), mods) == split_mods(name@, no_mods()),
            decreases cs.len() - i,
        {
            let ghost s = cs@.subrange(i as int, cs.len() as int);
            assert(s.subrange(2, s.len() as int) =~= cs@.subrange(i + 2, cs.len() as int));
            mods = with_prefix(mods, cs[i]);
            i += 2;
        }
        let rest = tail_from(&cs, i);
        assert(split_mods(name@, no_mods()) == (mods, rest@));
        if chars_equal(&rest, "BTab") {
            mods.shift = true;
            return Ok(KeyPress::new(Key::Tab, mods));
        }
        let key = match lookup_name(&rest) {
            Some(key) => key,
            None => match read_function_number(&rest) {
                Some(n) => Key::F(n),
                None => {
                    if rest.len() == 1 && !control(rest[0]) {
                        Key::Char(rest[0])
                    } else {
                        return Err(unknown_key(name));
                    }
                },
            },
        };
        Ok(KeyPress::new(key, mods))
    }
}

impl core::str::FromStr for KeyPress {
    type Err = String;

    fn from_str(name: &str) -> (r: Result<KeyPress, String>)
        ensures
            match r {
                Ok(press) => parsed_key(name@) == Some(press),
                Err(e) => parsed_key(name@) is None && e@ == unknown_key_message(name@),
            },
    {
        KeyPress::parse(name)
    }
}


/// Every key name that `list-keys` prints, in its order.
pub open spec fn every_name() -> Seq<Seq<char>> {
    seq![
        "Enter"@, "Tab"@, "Escape"@, "Space"@, "BSpace"@, "Up"@, "Down"@, "Left"@, "Right"@,
        "Home"@, "End"@, "PageUp"@, "PageDown"@, "Insert"@, "Delete"@, "BTab"@,
    ] + Seq::new(12, |i: int| seq!['F'] + digits((i + 1) as nat))
}

/// Every key name, for `fux list-keys`.
pub fn all_names() -> (names: Vec<String>)
    ensures
        names.len() == every_name().len(),
        forall|i: int| 0 <= i < names.len() ==> (#[trigger] names[i])@ == every_name()[i],
{
    let mut names: Vec<String> = Vec::new();
    names.push(crate::text::string_of("Enter"));
    names.push(crate::text::string_of("Tab"));
    names.push(crate::text::string_of("Escape"));
    names.push(crate::text::string_of("Space"));
    names.push(crate::text::string_of("BSpace"));
    names.push(crate::text::string_of("Up"));
    names.push(crate::text::string_of("Down"));
    names.push(crate::text::string_of("Left"));
    names.push(crate::text::string_of("Right"));
    names.push(crate::text::string_of("Home"));
    names.push(crate::text::string_of("End"));
    names.push(crate::text::string_of("PageUp"));
    names.push(crate::text::string_of("PageDown"));
    names.push(crate::text::string_of("Insert"));
    names.push(crate::text::string_of("Delete"));
    names.push(crate::text::string_of("BTab"));
    let mut n: u64 = 1;
    while n <= 12
        invariant
            1 <= n <= 13,
            names.len() == 15 + n,
            forall|i: int| 0 <= i < names.len() ==> (#[trigger] names[i])@ == every_name()[i],
        decreases 13 - n,
    {
        let mut name = String::new();
        push_char(&mut name, 'F');
        push_decimal(&mut name, n);
        assert(name@ =~= seq!['F'] + digits(n as nat));
        names.push(name);
        n += 1;
    }
    names
}


/// The key presses whose printed name reads back as them: normalized, and
/// neither a control character nor a function key outside `F1`..`F12`.
pub open spec fn nameable(p: KeyPress) -> bool {
    &&& p == normalized_press(p.key, p.mods)
    &&& key_printable(p.key)
}

/// The keys that `key_name` gives a name to that reads back as them.
pub open spec fn key_printable(k: Key) -> bool {
    match k {
        Key::F(n) => 1 <= n <= 12,
        Key::Char(c) => !is_control(c),
        _ => true,
    }
}

/// The modifier prefixes a key press is printed with.
pub open spec fn mods_text(m: Modifiers) -> Seq<char> {
    (if m.ctrl { "C-"@ } else { Seq::empty() }) + (if m.alt { "M-"@ } else { Seq::empty() }) + (
    if m.shift {
        "S-"@
    } else {
        Seq::empty()
    })
}

proof fn lemma_split_mods_text(m: Modifiers, t: Seq<char>)
    requires
        t.len() >= 1,
        !(t.len() >= 3 && is_mod_prefix(t[0], t[1])),
    ensures
        split_mods(mods_text(m) + t, no_mods()) == (m, t),
{
    reveal_strlit("C-");
    reveal_strlit("M-");
    reveal_strlit("S-");
    let x3 = (if m.shift { "S-"@ } else { Seq::<char>::empty() }) + t;
    let x2 = (if m.alt { "M-"@ } else { Seq::<char>::empty() }) + x3;
    let x1 = (if m.ctrl { "C-"@ } else { Seq::<char>::empty() }) + x2;
    assert(mods_text(m) + t =~= x1);
    let m1 = Modifiers { ctrl: m.ctrl, alt: false, shift: false };
    let m2 = Modifiers { ctrl: m.ctrl, alt: m.alt, shift: false };
    assert(split_mods(x3, m2) == (m, t)) by {
        assert(split_mods(t, m) == (m, t));
        if m.shift {
            assert(x3.subrange(2, x3.len() as int) =~= t);
        } else {
            assert(x3 =~= t);
        }
    }
    assert(split_mods(x2, m1) == (m, t)) by {
        if m.alt {
            assert(x2.subrange(2, x2.len() as int) =~= x3);
        } else {
            assert(x2 =~= x3);
            assert(x3.len() >= 3 && is_mod_prefix(x3[0], x3[1]) ==> m.shift);
        }
    }
    if m.ctrl {
        assert(x1.subrange(2, x1.len() as int) =~= x2);
    } else {
        assert(x1 =~= x2);
        assert(x2.len() >= 3 && is_mod_prefix(x2[0], x2[1]) ==> m.alt || m.shift);
        if !m.alt {
            assert(x2 =~= x3);
        }
    }
}

proof fn lemma_digit_char_code(d: nat)
    requires
        d < 10,
    ensures
        crate::text::digit_char(d) as int == d + 48,
{
    let b = (d + 48) as u8;
    assert(b as int == d + 48);
    assert((b as char) as int == b as int);
}

proof fn lemma_digits_read_back(n: nat)
    ensures
        digits(n).len() >= 1,
        all_digits(digits(n)),
        decimal_value(digits(n)) == n,
    decreases n,
{
    crate::text::lemma_digits_ascii(n);
    lemma_digit_char_code(n % 10);
    if n >= 10 {
        lemma_digits_read_back(n / 10);
        assert(digits(n).drop_last() =~= digits(n / 10));
        assert(digits(n).last() == crate::text::digit_char(n % 10));
        assert((n / 10) * 10 + n % 10 == n) by (nonlinear_arith);
        assert(decimal_value(digits(n)) == decimal_value(digits(n / 10)) * 10 + (n % 10));
    } else {
        lemma_digit_char_code(n);
        assert(digits(n).drop_last() =~= Seq::<char>::empty());
        assert(digits(n).last() == crate::text::digit_char(n));
        assert(decimal_value(digits(n)) == decimal_value(Seq::<char>::empty()) * 10 + n);
    }
}

proof fn lemma_names_reveal()
    ensures
        "Enter"@ == seq!['E', 'n', 't', 'e', 'r'],
        "Tab"@ == seq!['T', 'a', 'b'],
        "Escape"@ == seq!['E', 's', 'c', 'a', 'p', 'e'],
        "Space"@ == seq!['S', 'p', 'a', 'c', 'e'],
        "BSpace"@ == seq!['B', 'S', 'p', 'a', 'c', 'e'],
        "Up"@ == seq!['U', 'p'],
        "Down"@ == seq!['D', 'o', 'w', 'n'],
        "Left"@ == seq!['L', 'e', 'f', 't'],
        "Right"@ == seq!['R', 'i', 'g', 'h', 't'],
        "Home"@ == seq!['H', 'o', 'm', 'e'],
        "End"@ == seq!['E', 'n', 'd'],
        "PageUp"@ == seq!['P', 'a', 'g', 'e', 'U', 'p'],
        "PageDown"@ == seq!['P', 'a', 'g', 'e', 'D', 'o', 'w', 'n'],
        "Insert"@ == seq!['I', 'n', 's', 'e', 'r', 't'],
        "Delete"@ == seq!['D', 'e', 'l', 'e', 't', 'e'],
        "PgUp"@ == seq!['P', 'g', 'U', 'p'],
        "PPage"@ == seq!['P', 'P', 'a', 'g', 'e'],
        "PgDn"@ == seq!['P', 'g', 'D', 'n'],
        "NPage"@ == seq!['N', 'P', 'a', 'g', 'e'],
        "IC"@ == seq!['I', 'C'],
        "DC"@ == seq!['D', 'C'],
        "Esc"@ == seq!['E', 's', 'c'],
        "BTab"@ == seq!['B', 'T', 'a', 'b'],
{
    reveal_strlit("Enter");
    reveal_strlit("Tab");
    reveal_strlit("Escape");
    reveal_strlit("Space");
    reveal_strlit("BSpace");
    reveal_strlit("Up");
    reveal_strlit("Down");
    reveal_strlit("Left");
    reveal_strlit("Right");
    reveal_strlit("Home");
    reveal_strlit("End");
    reveal_strlit("PageUp");
    reveal_strlit("PageDown");
    reveal_strlit("Insert");
    reveal_strlit("Delete");
    reveal_strlit("PgUp");
    reveal_strlit("PPage");
    reveal_strlit("PgDn");
    reveal_strlit("NPage");
    reveal_strlit("IC");
    reveal_strlit("DC");
    reveal_strlit("Esc");
    reveal_strlit("BTab");
}

proof fn lemma_key_text_reads(k: Key)
    requires
        key_printable(k),
    ensures
        key_text(k).len() >= 1,
        !(key_text(k).len() >= 3 && is_mod_prefix(key_text(k)[0], key_text(k)[1])),
        key_text(k) != "BTab"@,
        rest_key(key_text(k)) == Some(k),
{
    lemma_names_reveal();
    let t = key_text(k);
    match k {
        Key::F(n) => {
            lemma_digits_read_back(n as nat);
            assert(t[0] == 'F');
            assert(t.subrange(1, t.len() as int) =~= digits(n as nat));
            assert(digits(n as nat).len() <= 2) by {
                if n >= 10 {
                    assert(digits(n as nat / 10).len() == 1);
                }
            }
            assert(t[1] == digits(n as nat)[0]);
            assert(is_digit(digits(n as nat)[0]));
            assert(key_named(t) is None);
        },
        Key::Char(c) => {
            if c != ' ' {
                assert(t =~= seq![c]);
                assert(t.subrange(1, 1) =~= Seq::<char>::empty());
                assert(key_named(t) is None);
            }
        },
        _ => {},
    }
}

/// A key press's printed name reads back as that key press.
pub proof fn lemma_printed_names_read_back(p: KeyPress)
    requires
        nameable(p),
    ensures
        parsed_key(press_text(p)) == Some(p),
{
    lemma_names_reveal();
    if p.key == Key::Tab && p.mods.shift && !p.mods.ctrl && !p.mods.alt {
        assert(split_mods("BTab"@, no_mods()) == (no_mods(), "BTab"@));
    } else {
        lemma_key_text_reads(p.key);
        assert(press_text(p) =~= mods_text(p.mods) + key_text(p.key));
        lemma_split_mods_text(p.mods, key_text(p.key));
    }
}


/// The key press that the `i`th name of `list-keys` names.
pub open spec fn listed_press(i: int) -> KeyPress {
    let key = if i == 0 {
        Key::Enter
    } else if i == 1 {
        Key::Tab
    } else if i == 2 {
        Key::Escape
    } else if i == 3 {
        Key::Char(' ')
    } else if i == 4 {
        Key::Backspace
    } else if i == 5 {
        Key::Arrow(Direction::Up)
    } else if i == 6 {
        Key::Arrow(Direction::Down)
    } else if i == 7 {
        Key::Arrow(Direction::Left)
    } else if i == 8 {
        Key::Arrow(Direction::Right)
    } else if i == 9 {
        Key::Home
    } else if i == 10 {
        Key::End
    } else if i == 11 {
        Key::PageUp
    } else if i == 12 {
        Key::PageDown
    } else if i == 13 {
        Key::Insert
    } else if i == 14 {
        Key::Delete
    } else if i == 15 {
        Key::Tab
    } else {
        Key::F((i - 15) as u8)
    };
    KeyPress { key, mods: Modifiers { ctrl: false, alt: false, shift: i == 15 } }
}

/// Every name `list-keys` prints reads back as a key press that prints as
/// that name.
pub proof fn lemma_every_name_reads_back(i: int)
    requires
        0 <= i < every_name().len(),
    ensures
        parsed_key(every_name()[i]) == Some(listed_press(i)),
        press_text(listed_press(i)) == every_name()[i],
{
    let p = listed_press(i);
    assert(press_text(p) == every_name()[i]) by {
        if i < 15 {
            assert(press_text(p) =~= key_text(p.key));
        } else if i > 15 {
            assert(every_name()[i] == seq!['F'] + digits((i - 15) as nat));
            assert(press_text(p) =~= key_text(p.key));
        }
    }
    lemma_printed_names_read_back(p);
}


/// Normalizing a normalized key press changes nothing: equal presses
/// compare equal however often they are normalized.
pub proof fn lemma_normalized_is_stable(key: Key, mods: Modifiers)
    ensures
        normalized_press(normalized_press(key, mods).key, normalized_press(key, mods).mods)
            == normalized_press(key, mods),
{
    if let Key::Char(c) = key {
        if mods.ctrl && is_ascii_alphabetic(c) {
            let l = to_ascii_lowercase(c);
            assert(is_ascii_alphabetic(l) && to_ascii_lowercase(l) == l) by {
                if 'A' <= c && c <= 'Z' {
                    assert((c as u32) + 32 <= 'z' as u32);
                }
            }
        }
    }
}


/// Each alias reads as the key of the name it stands for, after any
/// modifier prefixes: `PgUp` and `PPage` as `PageUp`, `PgDn` and `NPage` as
/// `PageDown`, `IC` as `Insert`, `DC` as `Delete` and `Esc` as `Escape`.
pub proof fn lemma_aliases_read_as_their_keys(m: Modifiers)
    ensures
        parsed_key(mods_text(m) + "PageUp"@) == Some(KeyPress { key: Key::PageUp, mods: m }),
        parsed_key(mods_text(m) + "PgUp"@) == Some(KeyPress { key: Key::PageUp, mods: m }),
        parsed_key(mods_text(m) + "PPage"@) == Some(KeyPress { key: Key::PageUp, mods: m }),
        parsed_key(mods_text(m) + "PageDown"@) == Some(KeyPress { key: Key::PageDown, mods: m }),
        parsed_key(mods_text(m) + "PgDn"@) == Some(KeyPress { key: Key::PageDown, mods: m }),
        parsed_key(mods_text(m) + "NPage"@) == Some(KeyPress { key: Key::PageDown, mods: m }),
        parsed_key(mods_text(m) + "Insert"@) == Some(KeyPress { key: Key::Insert, mods: m }),
        parsed_key(mods_text(m) + "IC"@) == Some(KeyPress { key: Key::Insert, mods: m }),
        parsed_key(mods_text(m) + "Delete"@) == Some(KeyPress { key: Key::Delete, mods: m }),
        parsed_key(mods_text(m) + "DC"@) == Some(KeyPress { key: Key::Delete, mods: m }),
        parsed_key(mods_text(m) + "Escape"@) == Some(KeyPress { key: Key::Escape, mods: m }),
        parsed_key(mods_text(m) + "Esc"@) == Some(KeyPress { key: Key::Escape, mods: m }),
{
    lemma_reads_pageup(m);
    lemma_reads_pgup(m);
    lemma_reads_ppage(m);
    lemma_reads_pagedown(m);
    lemma_reads_pgdn(m);
    lemma_reads_npage(m);
    lemma_reads_insert(m);
    lemma_reads_ic(m);
    lemma_reads_delete(m);
    lemma_reads_dc(m);
    lemma_reads_escape(m);
    lemma_reads_esc(m);
}

#[verifier::spinoff_prover]
proof fn lemma_reads_pageup(m: Modifiers)
    ensures
        parsed_key(mods_text(m) + "PageUp"@) == Some(KeyPress { key: Key::PageUp, mods: m }),
{
    lemma_names_reveal();
    assert(key_named("PageUp"@) == Some(Key::PageUp));
    lemma_alias_reads(m, "PageUp"@, Key::PageUp);
}

#[verifier::spinoff_prover]
proof fn lemma_reads_pgup(m: Modifiers)
    ensures
        parsed_key(mods_text(m) + "PgUp"@) == Some(KeyPress { key: Key::PageUp, mods: m }),
{
    lemma_names_reveal();
    assert(key_named("PgUp"@) == Some(Key::PageUp));
    lemma_alias_reads(m, "PgUp"@, Key::PageUp);
}

#[verifier::spinoff_prover]
proof fn lemma_reads_ppage(m: Modifiers)
    ensures
        parsed_key(mods_text(m) + "PPage"@) == Some(KeyPress { key: Key::PageUp, mods: m }),
{
    lemma_names_reveal();
    assert(key_named("PPage"@) == Some(Key::PageUp));
    lemma_alias_reads(m, "PPage"@, Key::PageUp);
}

#[verifier::spinoff_prover]
proof fn lemma_reads_pagedown(m: Modifiers)
    ensures
        parsed_key(mods_text(m) + "PageDown"@) == Some(KeyPress { key: Key::PageDown, mods: m }),
{
    lemma_names_reveal();
    assert(key_named("PageDown"@) == Some(Key::PageDown));
    lemma_alias_reads(m, "PageDown"@, Key::PageDown);
}

#[verifier::spinoff_prover]
proof fn lemma_reads_pgdn(m: Modifiers)
    ensures
        parsed_key(mods_text(m) + "PgDn"@) == Some(KeyPress { key: Key::PageDown, mods: m }),
{
    lemma_names_reveal();
    assert(key_named("PgDn"@) == Some(Key::PageDown));
    lemma_alias_reads(m, "PgDn"@, Key::PageDown);
}

#[verifier::spinoff_prover]
proof fn lemma_reads_npage(m: Modifiers)
    ensures
        parsed_key(mods_text(m) + "NPage"@) == Some(KeyPress { key: Key::PageDown, mods: m }),
{
    lemma_names_reveal();
    assert(key_named("NPage"@) == Some(Key::PageDown));
    lemma_alias_reads(m, "NPage"@, Key::PageDown);
}

#[verifier::spinoff_prover]
proof fn lemma_reads_insert(m: Modifiers)
    ensures
        parsed_key(mods_text(m) + "Insert"@) == Some(KeyPress { key: Key::Insert, mods: m }),
{
    lemma_names_reveal();
    assert(key_named("Insert"@) == Some(Key::Insert));
    lemma_alias_reads(m, "Insert"@, Key::Insert);
}

#[verifier::spinoff_prover]
proof fn lemma_reads_ic(m: Modifiers)
    ensures
        parsed_key(mods_text(m) + "IC"@) == Some(KeyPress { key: Key::Insert, mods: m }),
{
    lemma_names_reveal();
    assert(key_named("IC"@) == Some(Key::Insert));
    lemma_alias_reads(m, "IC"@, Key::Insert);
}

#[verifier::spinoff_prover]
proof fn lemma_reads_delete(m: Modifiers)
    ensures
        parsed_key(mods_text(m) + "Delete"@) == Some(KeyPress { key: Key::Delete, mods: m }),
{
    lemma_names_reveal();
    assert(key_named("Delete"@) == Some(Key::Delete));
    lemma_alias_reads(m, "Delete"@, Key::Delete);
}

#[verifier::spinoff_prover]
proof fn lemma_reads_dc(m: Modifiers)
    ensures
        parsed_key(mods_text(m) + "DC"@) == Some(KeyPress { key: Key::Delete, mods: m }),
{
    lemma_names_reveal();
    assert(key_named("DC"@) == Some(Key::Delete));
    lemma_alias_reads(m, "DC"@, Key::Delete);
}

#[verifier::spinoff_prover]
proof fn lemma_reads_escape(m: Modifiers)
    ensures
        parsed_key(mods_text(m) + "Escape"@) == Some(KeyPress { key: Key::Escape, mods: m }),
{
    lemma_names_reveal();
    assert(key_named("Escape"@) == Some(Key::Escape));
    lemma_alias_reads(m, "Escape"@, Key::Escape);
}

#[verifier::spinoff_prover]
proof fn lemma_reads_esc(m: Modifiers)
    ensures
        parsed_key(mods_text(m) + "Esc"@) == Some(KeyPress { key: Key::Escape, mods: m }),
{
    lemma_names_reveal();
    assert(key_named("Esc"@) == Some(Key::Escape));
    lemma_alias_reads(m, "Esc"@, Key::Escape);
}

proof fn lemma_alias_reads(m: Modifiers, t: Seq<char>, k: Key)
    requires
        t.len() >= 2,
        t[1] != '-',
        t != "BTab"@,
        key_named(t) == Some(k),
        !(k is Char),
    ensures
        parsed_key(mods_text(m) + t) == Some(KeyPress { key: k, mods: m }),
{
    lemma_split_mods_text(m, t);
}

}
