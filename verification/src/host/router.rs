//! The input router: splits a client's keyboard and mouse bytes into what
//! goes to the focused pane, the multiplexer's own commands after the prefix
//! key, and mouse reports, holding back the bytes of an escape sequence until
//! it is known what they are.
use vstd::prelude::*;
use std::collections::BTreeMap;
use crate::encode::{paste_end, paste_end_bytes, paste_start, paste_start_bytes};
use crate::keys::Direction;
use crate::numbers::{fields_between, parsed_u16, read_u16, split_fields};
use crate::text::{ascii_bytes, digits, push_decimal_bytes};

verus! {

broadcast use vstd::std_specs::btree::group_btree_axioms, vstd::laws_cmp::group_laws_cmp;

/// Pending bytes past this many are forwarded as they are.
pub const MAX_PENDING: usize = 64;

#[derive(Clone, Debug, Eq, PartialEq)]
pub enum Command {
    SplitHorizontal,
    SplitVertical,
    Focus(Direction),
    Close,
    NewPane,
    NewTab,
    NextTab,
    PreviousTab,
    Zoom,
    CopyMode,
    Detach,
    WorkspacePicker,
    Help,
    External(Vec<String>),
}

/// A command, with the words of an external one as character sequences.
pub enum CommandView {
    SplitHorizontal,
    SplitVertical,
    Focus(Direction),
    Close,
    NewPane,
    NewTab,
    NextTab,
    PreviousTab,
    Zoom,
    CopyMode,
    Detach,
    WorkspacePicker,
    Help,
    External(Seq<Seq<char>>),
}

pub open spec fn word_views(words: Seq<String>) -> Seq<Seq<char>> {
    words.map_values(|w: String| w@)
}

impl View for Command {
    type V = CommandView;

    open spec fn view(&self) -> CommandView {
        match self {
            Command::SplitHorizontal => CommandView::SplitHorizontal,
            Command::SplitVertical => CommandView::SplitVertical,
            Command::Focus(d) => CommandView::Focus(*d),
            Command::Close => CommandView::Close,
            Command::NewPane => CommandView::NewPane,
            Command::NewTab => CommandView::NewTab,
            Command::NextTab => CommandView::NextTab,
            Command::PreviousTab => CommandView::PreviousTab,
            Command::Zoom => CommandView::Zoom,
            Command::CopyMode => CommandView::CopyMode,
            Command::Detach => CommandView::Detach,
            Command::WorkspacePicker => CommandView::WorkspacePicker,
            Command::Help => CommandView::Help,
            Command::External(words) => CommandView::External(word_views(words@)),
        }
    }
}

impl Command {
    /// A copy of the command.
    pub fn duplicate(&self) -> (c: Command)
        ensures
            c@ == self@,
    {
        match self {
            Command::SplitHorizontal => Command::SplitHorizontal,
            Command::SplitVertical => Command::SplitVertical,
            Command::Focus(d) => Command::Focus(*d),
            Command::Close => Command::Close,
            Command::NewPane => Command::NewPane,
            Command::NewTab => Command::NewTab,
            Command::NextTab => Command::NextTab,
            Command::PreviousTab => Command::PreviousTab,
            Command::Zoom => Command::Zoom,
            Command::CopyMode => Command::CopyMode,
            Command::Detach => Command::Detach,
            Command::WorkspacePicker => Command::WorkspacePicker,
            Command::Help => Command::Help,
            Command::External(words) => {
                let mut copy: Vec<String> = Vec::new();
                let mut i: usize = 0;
                while i < words.len()
                    invariant
                        i <= words.len(),
                        copy.len() == i,
                        forall|j: int| 0 <= j < i ==> (#[trigger] copy@[j])@ == words@[j]@,
                    decreases words.len() - i,
                {
                    copy.push(crate::text::string_of(words[i].as_str()));
                    i += 1;
                }
                assert(word_views(copy@) =~= word_views(words@));
                Command::External(copy)
            },
        }
    }
}

#[derive(Clone, Copy, Debug, Eq, PartialEq, Structural)]
pub struct MouseEvent {
    pub code: u16,
    pub column: u16,
    pub row: u16,
    pub release: bool,
}

/// `ESC [ <`, the start of an SGR mouse report.
pub open spec fn mouse_prefix() -> Seq<u8> {
    seq![0x1bu8, 0x5bu8, 0x3cu8]
}

/// An SGR mouse report: `ESC [ < code ; column ; row` and `M`, or `m` for a
/// release.
pub open spec fn mouse_report(m: MouseEvent, column: u16, row: u16) -> Seq<u8> {
    mouse_prefix() + ascii_bytes(digits(m.code as nat)) + seq![0x3bu8] + ascii_bytes(
        digits(column as nat),
    ) + seq![0x3bu8] + ascii_bytes(digits(row as nat)) + seq![if m.release { 0x6du8 } else { 0x4du8 }]
}

impl MouseEvent {
    pub fn shift(self) -> (r: bool)
        ensures
            r == (self.code & 4 != 0),
    {
        self.code & 4 != 0
    }

    pub fn wheel(self) -> (r: bool)
        ensures
            r == (self.code & 64 != 0),
    {
        self.code & 64 != 0
    }

    /// The event as an SGR report at another position.
    pub fn translated(self, column: u16, row: u16) -> (bytes: Vec<u8>)
        ensures
            bytes@ == mouse_report(self, column, row),
    {
        let mut bytes: Vec<u8> = vec![0x1b, 0x5b, 0x3c];
        push_decimal_bytes(&mut bytes, self.code as u64);
        bytes.push(0x3b);
        push_decimal_bytes(&mut bytes, column as u64);
        bytes.push(0x3b);
        push_decimal_bytes(&mut bytes, row as u64);
        bytes.push(if self.release { 0x6d } else { 0x4d });
        assert(bytes@ =~= mouse_report(self, column, row));
        bytes
    }
}

#[derive(Clone, Debug, Eq, PartialEq)]
pub enum Action {
    Forward(Vec<u8>),
    Command(Command),
    Mouse(MouseEvent),
}

/// An action, with its bytes and command by their views.
pub enum ActionView {
    Forward(Seq<u8>),
    Command(CommandView),
    Mouse(MouseEvent),
}

impl View for Action {
    type V = ActionView;

    open spec fn view(&self) -> ActionView {
        match self {
            Action::Forward(bytes) => ActionView::Forward(bytes@),
            Action::Command(c) => ActionView::Command(c@),
            Action::Mouse(m) => ActionView::Mouse(*m),
        }
    }
}

pub open spec fn action_views(actions: Seq<Action>) -> Seq<ActionView> {
    actions.map_values(|a: Action| a@)
}

/// The router's state: the prefix key and whether it was just pressed,
/// whether a bracketed paste is passing through, the bytes held back and
/// since when, how long an ambiguous sequence is held, and the bindings.
pub struct RouterState {
    pub prefix: u8,
    pub command_mode: bool,
    pub paste: bool,
    pub pending: Seq<u8>,
    pub pending_since: Option<u64>,
    pub timeout: u64,
    pub bindings: Map<u8, CommandView>,
}

/// Whether `a` is where `b` starts.
pub open spec fn is_prefix(a: Seq<u8>, b: Seq<u8>) -> bool {
    a.len() <= b.len() && b.take(a.len() as int) == a
}

/// The mouse event a complete SGR report holds: three numbers, the column
/// and the row counting from 1.
pub open spec fn parsed_mouse(p: Seq<u8>) -> Option<MouseEvent> {
    if p.len() >= 4 && p.take(3) == mouse_prefix() && (p.last() == 0x4d || p.last() == 0x6d) {
        let f = split_fields(p.subrange(3, p.len() - 1));
        if f.len() == 3 {
            match (parsed_u16(f[0]), parsed_u16(f[1]), parsed_u16(f[2])) {
                (Some(code), Some(column), Some(row)) => if column != 0 && row != 0 {
                    Some(MouseEvent { code, column, row, release: p.last() == 0x6d })
                } else {
                    None
                },
                _ => None,
            }
        } else {
            None
        }
    } else {
        None
    }
}

/// Whether held bytes can still grow into a paste start or a mouse report.
pub open spec fn still_possible(p: Seq<u8>) -> bool {
    ||| is_prefix(p, paste_start())
    ||| is_prefix(p, mouse_prefix())
    ||| (is_prefix(mouse_prefix(), p) && p.len() <= MAX_PENDING && !(p.len() > 0 && (p.last() == 0x4d
        || p.last() == 0x6d)))
}

/// What one input byte does to the router, and the actions it produces.
pub open spec fn step(s: RouterState, byte: u8, now: u64) -> (RouterState, Seq<ActionView>) {
    if s.paste {
        let p = s.pending.push(byte);
        if is_prefix(p, paste_end()) {
            if p == paste_end() {
                (
                    RouterState { pending: Seq::empty(), paste: false, pending_since: None, ..s },
                    seq![ActionView::Forward(p)],
                )
            } else {
                (RouterState { pending: p, ..s }, Seq::empty())
            }
        } else {
            (RouterState { pending: p.drop_first(), ..s }, seq![ActionView::Forward(seq![p[0]])])
        }
    } else if s.command_mode {
        let t = RouterState { command_mode: false, ..s };
        if byte == s.prefix {
            (t, seq![ActionView::Forward(seq![byte])])
        } else if s.bindings.contains_key(byte) {
            (t, seq![ActionView::Command(s.bindings[byte])])
        } else {
            (t, seq![ActionView::Forward(seq![s.prefix, byte])])
        }
    } else if s.pending.len() == 0 && byte == s.prefix {
        (RouterState { command_mode: true, ..s }, Seq::empty())
    } else if s.pending.len() == 0 && byte != 0x1b {
        (s, seq![ActionView::Forward(seq![byte])])
    } else {
        let since = if s.pending.len() == 0 { Some(now) } else { s.pending_since };
        let p = s.pending.push(byte);
        if p == paste_start() {
            (
                RouterState { pending: Seq::empty(), pending_since: None, paste: true, ..s },
                seq![ActionView::Forward(p)],
            )
        } else {
            match parsed_mouse(p) {
                Some(m) => (
                    RouterState { pending: Seq::empty(), pending_since: None, ..s },
                    seq![ActionView::Mouse(m)],
                ),
                None => if !still_possible(p) || p.len() >= MAX_PENDING {
                    (
                        RouterState { pending: Seq::empty(), pending_since: None, ..s },
                        seq![ActionView::Forward(p)],
                    )
                } else {
                    (RouterState { pending: p, pending_since: since, ..s }, Seq::empty())
                },
            }
        }
    }
}

/// The bytes one after another.
pub open spec fn steps(s: RouterState, bytes: Seq<u8>, now: u64) -> (RouterState, Seq<ActionView>)
    decreases bytes.len(),
{
    if bytes.len() == 0 {
        (s, Seq::empty())
    } else {
        let (s1, a1) = steps(s, bytes.drop_last(), now);
        let (s2, a2) = step(s1, bytes.last(), now);
        (s2, a1 + a2)
    }
}

/// Whether held bytes have waited their time out.
pub open spec fn timed_out(s: RouterState, now: u64) -> bool {
    match s.pending_since {
        Some(since) => (if now >= since { now - since } else { 0 }) >= s.timeout,
        None => false,
    }
}

/// Held bytes that have waited their time out go to the pane one by one.
pub open spec fn flush(s: RouterState, now: u64) -> (RouterState, Seq<ActionView>) {
    if timed_out(s, now) {
        (
            RouterState { pending: Seq::empty(), pending_since: None, ..s },
            Seq::new(s.pending.len(), |i: int| ActionView::Forward(seq![s.pending[i]])),
        )
    } else {
        (s, Seq::empty())
    }
}

/// The actions with each run of forwarded bytes joined into one.
pub open spec fn coalesced(a: Seq<ActionView>) -> Seq<ActionView>
    decreases a.len(),
{
    if a.len() == 0 {
        Seq::empty()
    } else {
        let out = coalesced(a.drop_last());
        match a.last() {
            ActionView::Forward(b) => if out.len() > 0 && out.last() is Forward {
                out.update(out.len() - 1, ActionView::Forward(out.last()->Forward_0 + b))
            } else {
                out.push(ActionView::Forward(b))
            },
            other => out.push(other),
        }
    }
}

/// What `feed` does: the time-out first, then each byte, the actions joined.
pub open spec fn fed(s: RouterState, bytes: Seq<u8>, now: u64) -> (RouterState, Seq<ActionView>) {
    let (s1, a1) = flush(s, now);
    let (s2, a2) = steps(s1, bytes, now);
    (s2, coalesced(a1 + a2))
}

/// The command each default binding runs.
pub open spec fn default_command(byte: u8) -> Option<CommandView> {
    if byte == 0x7c {
        Some(CommandView::SplitHorizontal)
    } else if byte == 0x2d {
        Some(CommandView::SplitVertical)
    } else if byte == 0x68 {
        Some(CommandView::Focus(Direction::Left))
    } else if byte == 0x6a {
        Some(CommandView::Focus(Direction::Down))
    } else if byte == 0x6b {
        Some(CommandView::Focus(Direction::Up))
    } else if byte == 0x6c {
        Some(CommandView::Focus(Direction::Right))
    } else if byte == 0x78 {
        Some(CommandView::Close)
    } else if byte == 0x63 {
        Some(CommandView::NewPane)
    } else if byte == 0x74 {
        Some(CommandView::NewTab)
    } else if byte == 0x6e {
        Some(CommandView::NextTab)
    } else if byte == 0x70 {
        Some(CommandView::PreviousTab)
    } else if byte == 0x7a {
        Some(CommandView::Zoom)
    } else if byte == 0x5b {
        Some(CommandView::CopyMode)
    } else if byte == 0x64 {
        Some(CommandView::Detach)
    } else if byte == 0x73 {
        Some(CommandView::WorkspacePicker)
    } else if byte == 0x3f {
        Some(CommandView::Help)
    } else {
        None
    }
}

/// The default bindings: every byte that has a default command.
pub open spec fn default_binding_map() -> Map<u8, CommandView> {
    Map::new(|b: u8| default_command(b) is Some, |b: u8| default_command(b)->Some_0)
}

pub open spec fn command_views(m: Map<u8, Command>) -> Map<u8, CommandView> {
    m.map_values(|c: Command| c@)
}

#[derive(Clone, Debug)]
pub struct InputRouter {
    prefix: u8,
    command_mode: bool,
    paste: bool,
    pending: Vec<u8>,
    pending_since_ms: Option<u64>,
    ambiguity_timeout_ms: u64,
    bindings: BTreeMap<u8, Command>,
}

impl View for InputRouter {
    type V = RouterState;

    closed spec fn view(&self) -> RouterState {
        RouterState {
            prefix: self.prefix,
            command_mode: self.command_mode,
            paste: self.paste,
            pending: self.pending@,
            pending_since: self.pending_since_ms,
            timeout: self.ambiguity_timeout_ms,
            bindings: command_views(self.bindings@),
        }
    }
}

proof fn lemma_push_view(a: Seq<Action>, x: Action)
    ensures
        action_views(a.push(x)) == action_views(a).push(x@),
{
    assert(action_views(a.push(x)) =~= action_views(a).push(x@));
}

fn push_action(actions: &mut Vec<Action>, a: Action)
    ensures
        action_views(final(actions)@) == action_views(old(actions)@).push(a@),
{
    let ghost before = actions@;
    let ghost g = a;
    actions.push(a);
    proof {
        lemma_push_view(before, g);
    }
}

impl InputRouter {
    pub fn new(prefix: u8, ambiguity_timeout_ms: u64) -> (r: Self)
        ensures
            r@ == (RouterState {
                prefix,
                command_mode: false,
                paste: false,
                pending: Seq::empty(),
                pending_since: None,
                timeout: ambiguity_timeout_ms,
                bindings: default_binding_map(),
            }),
    {
        Self::with_bindings(prefix, ambiguity_timeout_ms, default_bindings())
    }

    pub fn with_bindings(prefix: u8, ambiguity_timeout_ms: u64, bindings: BTreeMap<u8, Command>) -> (r:
        Self)
        ensures
            r@ == (RouterState {
                prefix,
                command_mode: false,
                paste: false,
                pending: Seq::empty(),
                pending_since: None,
                timeout: ambiguity_timeout_ms,
                bindings: command_views(bindings@),
            }),
    {
        let r = InputRouter {
            prefix,
            command_mode: false,
            paste: false,
            pending: Vec::new(),
            pending_since_ms: None,
            ambiguity_timeout_ms,
            bindings,
        };
        assert(r@.pending =~= Seq::<u8>::empty());
        r
    }

    /// Routes `bytes` that arrived at `now_ms`.
    pub fn feed(&mut self, bytes: &[u8], now_ms: u64) -> (actions: Vec<Action>)
        ensures
            final(self)@ == fed(old(self)@, bytes@, now_ms).0,
            action_views(actions@) == fed(old(self)@, bytes@, now_ms).1,
    {
        let mut actions = self.flush_timeout(now_ms);
        let ghost s1 = self@;
        let ghost a1 = action_views(actions@);
        let mut i: usize = 0;
        assert(bytes@.take(0) =~= Seq::<u8>::empty());
        assert(a1 + steps(s1, bytes@.take(0), now_ms).1 =~= a1);
        while i < bytes.len()
            invariant
                i <= bytes@.len(),
                self@ == steps(s1, bytes@.take(i as int), now_ms).0,
                action_views(actions@) == a1 + steps(s1, bytes@.take(i as int), now_ms).1,
            decreases bytes.len() - i,
        {
            self.feed_byte(bytes[i], now_ms, &mut actions);
            assert(bytes@.take(i + 1).drop_last() =~= bytes@.take(i as int));
            assert(bytes@.take(i + 1).last() == bytes@[i as int]);
            let ghost t = steps(s1, bytes@.take(i as int), now_ms);
            let ghost u = step(t.0, bytes@[i as int], now_ms);
            assert(a1 + t.1 + u.1 =~= a1 + (t.1 + u.1));
            i += 1;
        }
        assert(bytes@.take(i as int) =~= bytes@);
        coalesce(actions)
    }

    /// Forwards held bytes that have waited their time out.
    pub fn flush_timeout(&mut self, now_ms: u64) -> (actions: Vec<Action>)
        ensures
            final(self)@ == flush(old(self)@, now_ms).0,
            action_views(actions@) == flush(old(self)@, now_ms).1,
    {
        let due = match self.pending_since_ms {
            Some(since) => (if now_ms >= since {
                now_ms - since
            } else {
                0
            }) >= self.ambiguity_timeout_ms,
            None => false,
        };
        if due {
            self.pending_since_ms = None;
            let mut out: Vec<Action> = Vec::new();
            let mut i: usize = 0;
            while i < self.pending.len()
                invariant
                    i <= self.pending@.len(),
                    action_views(out@) == Seq::new(
                        i as nat,
                        |j: int| ActionView::Forward(seq![self.pending@[j]]),
                    ),
                decreases self.pending.len() - i,
            {
                let byte = self.pending[i];
                let one: Vec<u8> = vec![byte];
                assert(one@ =~= seq![byte]);
                push_action(&mut out, Action::Forward(one));
                assert(action_views(out@) =~= Seq::new(
                    (i + 1) as nat,
                    |j: int| ActionView::Forward(seq![self.pending@[j]]),
                ));
                i += 1;
            }
            self.pending = Vec::new();
            assert(self@.pending =~= Seq::<u8>::empty());
            return out;
        }
        let out: Vec<Action> = Vec::new();
        assert(action_views(out@) =~= Seq::<ActionView>::empty());
        out
    }

    /// Whether bytes are held, waiting for a time-out.
    pub fn has_pending_timeout(&self) -> (r: bool)
        ensures
            r == (self@.pending_since is Some),
    {
        self.pending_since_ms.is_some()
    }

    fn feed_byte(&mut self, byte: u8, now_ms: u64, actions: &mut Vec<Action>)
        ensures
            final(self)@ == step(old(self)@, byte, now_ms).0,
            action_views(final(actions)@) == action_views(old(actions)@) + step(
                old(self)@,
                byte,
                now_ms,
            ).1,
    {
        let ghost s = self@;
        let ghost before = actions@;
        if self.paste {
            self.pending.push(byte);
            let end = paste_end_bytes();
            if starts(&self.pending, &end) {
                if same_bytes(&self.pending, &end) {
                    let mut taken: Vec<u8> = Vec::new();
                    std::mem::swap(&mut taken, &mut self.pending);
                    push_action(actions, Action::Forward(taken));
                    self.paste = false;
                    self.pending_since_ms = None;
                    assert(self@.pending =~= Seq::<u8>::empty());
                    assert(action_views(actions@) =~= action_views(before) + step(s, byte, now_ms).1);
                } else {
                    assert(action_views(actions@) =~= action_views(before) + step(s, byte, now_ms).1);
                }
                return;
            }
            let first = self.pending.remove(0);
            push_action(actions, Action::Forward(single(first)));
            assert(self@.pending =~= s.pending.push(byte).drop_first());
            assert(action_views(actions@) =~= action_views(before) + step(s, byte, now_ms).1);
            return;
        }
        if self.command_mode {
            self.command_mode = false;
            if byte == self.prefix {
                push_action(actions, Action::Forward(single(byte)));
                assert(action_views(actions@) =~= action_views(before) + step(s, byte, now_ms).1);
            } else {
                match self.bindings.get(&byte) {
                    Some(command) => {
                        let c = command.duplicate();
                        push_action(actions, Action::Command(c));
                        assert(action_views(actions@) =~= action_views(before) + step(s, byte, now_ms).1);
                    },
                    None => {
                        assert(!self.bindings@.contains_key(byte));
                        assert(!command_views(self.bindings@).contains_key(byte));
                        push_action(actions, Action::Forward(pair(self.prefix, byte)));
                        assert(action_views(actions@) =~= action_views(before) + step(s, byte, now_ms).1);
                    },
                }
            }
            return;
        }
        if self.pending.len() == 0 && byte == self.prefix {
            self.command_mode = true;
            assert(action_views(actions@) =~= action_views(before) + step(s, byte, now_ms).1);
            return;
        }
        if self.pending.len() == 0 && byte != 0x1b {
            push_action(actions, Action::Forward(single(byte)));
            assert(action_views(actions@) =~= action_views(before) + step(s, byte, now_ms).1);
            return;
        }
        if self.pending.len() == 0 {
            self.pending_since_ms = Some(now_ms);
        }
        self.pending.push(byte);
        let start = paste_start_bytes();
        if same_bytes(&self.pending, &start) {
            let mut taken: Vec<u8> = Vec::new();
            std::mem::swap(&mut taken, &mut self.pending);
            push_action(actions, Action::Forward(taken));
            self.pending_since_ms = None;
            self.paste = true;
            assert(self@.pending =~= Seq::<u8>::empty());
            assert(action_views(actions@) =~= action_views(before) + step(s, byte, now_ms).1);
            return;
        }
        if let Some(mouse) = parse_mouse(&self.pending) {
            self.pending = Vec::new();
            self.pending_since_ms = None;
            push_action(actions, Action::Mouse(mouse));
            assert(self@.pending =~= Seq::<u8>::empty());
            assert(action_views(actions@) =~= action_views(before) + step(s, byte, now_ms).1);
            return;
        }
        let possible = starts(&self.pending, &start) || starts(&self.pending, &mouse_prefix_bytes())
            || (starts(&mouse_prefix_bytes(), &self.pending) && self.pending.len() <= MAX_PENDING && !(
        self.pending.len() > 0 && (self.pending[self.pending.len() - 1] == 0x4d
            || self.pending[self.pending.len() - 1] == 0x6d)));
        if !possible || self.pending.len() >= MAX_PENDING {
            let mut taken: Vec<u8> = Vec::new();
            std::mem::swap(&mut taken, &mut self.pending);
            push_action(actions, Action::Forward(taken));
            self.pending_since_ms = None;
            assert(self@.pending =~= Seq::<u8>::empty());
            assert(action_views(actions@) =~= action_views(before) + step(s, byte, now_ms).1);
        } else {
            assert(action_views(actions@) =~= action_views(before) + step(s, byte, now_ms).1);
        }
    }
}

fn single(b: u8) -> (v: Vec<u8>)
    ensures
        v@ == seq![b],
{
    let v: Vec<u8> = vec![b];
    assert(v@ =~= seq![b]);
    v
}

fn pair(a: u8, b: u8) -> (v: Vec<u8>)
    ensures
        v@ == seq![a, b],
{
    let v: Vec<u8> = vec![a, b];
    assert(v@ =~= seq![a, b]);
    v
}

/// `ESC [ <` as bytes.
fn mouse_prefix_bytes() -> (b: Vec<u8>)
    ensures
        b@ == mouse_prefix(),
{
    let b: Vec<u8> = vec![0x1b, 0x5b, 0x3c];
    assert(b@ =~= mouse_prefix());
    b
}

/// Whether `whole` starts with `part`.
fn starts(part: &Vec<u8>, whole: &Vec<u8>) -> (r: bool)
    ensures
        r == is_prefix(part@, whole@),
{
    if part.len() > whole.len() {
        return false;
    }
    let mut i: usize = 0;
    while i < part.len()
        invariant
            i <= part@.len() <= whole@.len(),
            forall|j: int| 0 <= j < i ==> part@[j] == whole@[j],
        decreases part.len() - i,
    {
        if part[i] != whole[i] {
            assert(whole@.take(part@.len() as int)[i as int] != part@[i as int]);
            return false;
        }
        i += 1;
    }
    assert(whole@.take(part@.len() as int) =~= part@);
    true
}

fn same_bytes(a: &Vec<u8>, b: &Vec<u8>) -> (r: bool)
    ensures
        r == (a@ == b@),
{
    if a.len() != b.len() {
        return false;
    }
    let r = starts(a, b);
    assert(b@.take(a@.len() as int) =~= b@);
    r
}

/// The mouse event a complete SGR report holds.
pub fn parse_mouse(bytes: &Vec<u8>) -> (r: Option<MouseEvent>)
    ensures
        r == parsed_mouse(bytes@),
{
    let n = bytes.len();
    if n < 4 || bytes[0] != 0x1b || bytes[1] != 0x5b || bytes[2] != 0x3c {
        assert(n >= 4 ==> bytes@.take(3)[0] == bytes@[0] && bytes@.take(3)[1] == bytes@[1]
            && bytes@.take(3)[2] == bytes@[2]);
        return None;
    }
    assert(bytes@.take(3) =~= mouse_prefix());
    let last = bytes[n - 1];
    let release = if last == 0x4d {
        false
    } else if last == 0x6d {
        true
    } else {
        return None;
    };
    let fields = fields_between(bytes, 3, n - 1);
    if fields.len() != 3 {
        return None;
    }
    let code = match read_u16(&fields[0]) {
        Some(v) => v,
        None => return None,
    };
    let column = match read_u16(&fields[1]) {
        Some(v) => v,
        None => return None,
    };
    let row = match read_u16(&fields[2]) {
        Some(v) => v,
        None => return None,
    };
    if column == 0 || row == 0 {
        return None;
    }
    Some(MouseEvent { code, column, row, release })
}

/// The command a default binding runs.
pub fn command(byte: u8) -> (r: Option<Command>)
    ensures
        match r {
            Some(c) => default_command(byte) == Some(c@),
            None => default_command(byte) is None,
        },
{
    match byte {
        0x7c => Some(Command::SplitHorizontal),
        0x2d => Some(Command::SplitVertical),
        0x68 => Some(Command::Focus(Direction::Left)),
        0x6a => Some(Command::Focus(Direction::Down)),
        0x6b => Some(Command::Focus(Direction::Up)),
        0x6c => Some(Command::Focus(Direction::Right)),
        0x78 => Some(Command::Close),
        0x63 => Some(Command::NewPane),
        0x74 => Some(Command::NewTab),
        0x6e => Some(Command::NextTab),
        0x70 => Some(Command::PreviousTab),
        0x7a => Some(Command::Zoom),
        0x5b => Some(Command::CopyMode),
        0x64 => Some(Command::Detach),
        0x73 => Some(Command::WorkspacePicker),
        0x3f => Some(Command::Help),
        _ => None,
    }
}

/// Every byte that has a default command, bound to it.
pub fn default_bindings() -> (m: BTreeMap<u8, Command>)
    ensures
        command_views(m@) == default_binding_map(),
{
    let mut m: BTreeMap<u8, Command> = BTreeMap::new();
    let mut b: u16 = 0;
    assert(command_views(m@) =~= Map::new(
        |k: u8| k < b && default_command(k) is Some,
        |k: u8| default_command(k)->Some_0,
    ));
    while b <= 255
        invariant
            b <= 256,
            command_views(m@) == Map::new(
                |k: u8| k < b && default_command(k) is Some,
                |k: u8| default_command(k)->Some_0,
            ),
        decreases 256 - b,
    {
        let byte = b as u8;
        if let Some(c) = command(byte) {
            let ghost old_m = m@;
            m.insert(byte, c);
            assert(command_views(m@) =~= command_views(old_m).insert(byte, c@));
        }
        b += 1;
        assert(command_views(m@) =~= Map::new(
            |k: u8| k < b && default_command(k) is Some,
            |k: u8| default_command(k)->Some_0,
        ));
    }
    assert(command_views(m@) =~= default_binding_map());
    m
}

/// A run of forwarded bytes not yet closed, as the action it becomes.
pub open spec fn run_view(run: Option<Vec<u8>>) -> Seq<ActionView> {
    match run {
        Some(b) => seq![ActionView::Forward(b@)],
        None => Seq::empty(),
    }
}

/// The actions with each run of forwarded bytes joined into one.
pub fn coalesce(actions: Vec<Action>) -> (output: Vec<Action>)
    ensures
        action_views(output@) == coalesced(action_views(actions@)),
{
    let ghost all = action_views(actions@);
    let ghost given = actions@;
    let mut output: Vec<Action> = Vec::new();
    let mut run: Option<Vec<u8>> = None;
    let mut actions = actions;
    let mut n: usize = 0;
    assert(given.len() == actions.len());
    assert(all.take(0) =~= Seq::<ActionView>::empty());
    assert(coalesced(all.take(0)) =~= action_views(output@) + run_view(run));
    while actions.len() > 0
        invariant
            all == action_views(given),
            n <= given.len() <= usize::MAX,
            n + actions.len() == given.len(),
            actions@ == given.skip(n as int),
            coalesced(all.take(n as int)) == action_views(output@) + run_view(run),
            action_views(output@).len() > 0 ==> !(action_views(output@).last() is Forward),
        decreases actions.len(),
    {
        let action = actions.remove(0);
        let ghost prev = all.take(n as int);
        let ghost next = all.take(n + 1);
        assert(next.drop_last() =~= prev);
        assert(action == given[n as int]);
        assert(next.last() == action@);
        match action {
            Action::Forward(bytes) => {
                match run {
                    Some(b) => {
                        let mut b = b;
                        let mut bytes = bytes;
                        b.append(&mut bytes);
                        run = Some(b);
                    },
                    None => {
                        run = Some(bytes);
                    },
                }
            },
            other => {
                match run {
                    Some(b) => {
                        push_action(&mut output, Action::Forward(b));
                    },
                    None => {},
                }
                run = None;
                push_action(&mut output, other);
            },
        }
        n += 1;
        assert(actions@ =~= given.skip(n as int));
        assert(coalesced(all.take(n as int)) =~= action_views(output@) + run_view(run));
    }
    match run {
        Some(b) => {
            push_action(&mut output, Action::Forward(b));
        },
        None => {},
    }
    assert(all.take(n as int) =~= all);
    assert(action_views(output@) =~= coalesced(all));
    output
}


/// Routing input in two pieces leaves the router as routing it at once would,
/// with the same actions, wherever the input was split.
pub proof fn lemma_routing_split_anywhere(s: RouterState, a: Seq<u8>, b: Seq<u8>, now: u64)
    ensures
        steps(s, a + b, now) == ({
            let (s1, a1) = steps(s, a, now);
            let (s2, a2) = steps(s1, b, now);
            (s2, a1 + a2)
        }),
    decreases b.len(),
{
    let (s1, a1) = steps(s, a, now);
    if b.len() == 0 {
        assert(a + b =~= a);
        assert(a1 + Seq::<ActionView>::empty() =~= a1);
    } else {
        lemma_routing_split_anywhere(s, a, b.drop_last(), now);
        assert((a + b).drop_last() =~= a + b.drop_last());
        assert((a + b).last() == b.last());
        let (t, x) = steps(s1, b.drop_last(), now);
        let (u, y) = step(t, b.last(), now);
        assert(a1 + x + y =~= a1 + (x + y));
    }
}


/// A router with nothing under way: no prefix just pressed, no paste
/// passing through, nothing held back.
pub open spec fn idle(s: RouterState) -> bool {
    !s.command_mode && !s.paste && s.pending.len() == 0 && s.pending_since is None
}

/// Each byte forwarded alone.
pub open spec fn singles(bytes: Seq<u8>) -> Seq<ActionView> {
    Seq::new(bytes.len(), |i: int| ActionView::Forward(seq![bytes[i]]))
}

/// Bytes that are neither the prefix nor `ESC` pass an idle router one by
/// one and leave it idle.
proof fn lemma_plain_steps(s: RouterState, bytes: Seq<u8>, now: u64)
    requires
        idle(s),
        forall|i: int| 0 <= i < bytes.len() ==> bytes[i] != s.prefix && bytes[i] != 0x1b,
    ensures
        steps(s, bytes, now) == (s, singles(bytes)),
    decreases bytes.len(),
{
    if bytes.len() > 0 {
        let front = bytes.drop_last();
        lemma_plain_steps(s, front, now);
        assert(singles(front) + seq![ActionView::Forward(seq![bytes.last()])] =~= singles(bytes));
    }
}

/// Single forwards join into one forward of all their bytes.
proof fn lemma_singles_join(bytes: Seq<u8>)
    requires
        bytes.len() > 0,
    ensures
        coalesced(singles(bytes)) == seq![ActionView::Forward(bytes)],
    decreases bytes.len(),
{
    let front = bytes.drop_last();
    assert(singles(bytes).drop_last() =~= singles(front));
    if front.len() == 0 {
        assert(coalesced(singles(front)) =~= Seq::<ActionView>::empty());
        assert(seq![bytes.last()] =~= bytes);
    } else {
        lemma_singles_join(front);
        assert(front + seq![bytes.last()] =~= bytes);
    }
}

/// An idle router turns a run of bytes that holds neither the prefix nor
/// `ESC` (so neither a paste marker nor a mouse report) into one forward of
/// the whole run, and stays idle.
pub proof fn lemma_plain_run_is_one_forward(s: RouterState, bytes: Seq<u8>, now: u64)
    requires
        idle(s),
        bytes.len() > 0,
        forall|i: int| 0 <= i < bytes.len() ==> bytes[i] != s.prefix && bytes[i] != 0x1b,
    ensures
        fed(s, bytes, now) == (s, seq![ActionView::Forward(bytes)]),
{
    lemma_plain_steps(s, bytes, now);
    lemma_singles_join(bytes);
    assert(flush(s, now) == (s, Seq::<ActionView>::empty()));
    assert(Seq::<ActionView>::empty() + singles(bytes) =~= singles(bytes));
}


/// The default bindings, key by key: `|` and `-` split side by side and
/// stacked; `h`, `j`, `k` and `l` focus left, down, up and right; `x`
/// closes, `c` opens a pane, `t` a tab; `n` and `p` go to the next and
/// previous tab; `z` zooms, `[` copies, `d` detaches, `s` picks a
/// workspace and `?` shows the help.
pub open spec fn vi_table() -> Map<u8, CommandView> {
    map![
        0x7cu8 => CommandView::SplitHorizontal,
        0x2du8 => CommandView::SplitVertical,
        0x68u8 => CommandView::Focus(Direction::Left),
        0x6au8 => CommandView::Focus(Direction::Down),
        0x6bu8 => CommandView::Focus(Direction::Up),
        0x6cu8 => CommandView::Focus(Direction::Right),
        0x78u8 => CommandView::Close,
        0x63u8 => CommandView::NewPane,
        0x74u8 => CommandView::NewTab,
        0x6eu8 => CommandView::NextTab,
        0x70u8 => CommandView::PreviousTab,
        0x7au8 => CommandView::Zoom,
        0x5bu8 => CommandView::CopyMode,
        0x64u8 => CommandView::Detach,
        0x73u8 => CommandView::WorkspacePicker,
        0x3fu8 => CommandView::Help
    ]
}

/// A new router's bindings are exactly that table.
pub proof fn lemma_default_bindings()
    ensures
        default_binding_map() == vi_table(),
{
    assert(default_binding_map() =~= vi_table());
}

/// On an idle router with the default bindings, the prefix and then a
/// bound key run that key's command from the table, and nothing else; the
/// router is idle again.
pub proof fn lemma_prefix_then_bound_key(s: RouterState, byte: u8, now: u64)
    requires
        idle(s),
        s.bindings == default_binding_map(),
        byte != s.prefix,
        vi_table().contains_key(byte),
    ensures
        fed(s, seq![s.prefix, byte], now) == (s, seq![ActionView::Command(vi_table()[byte])]),
{
    lemma_default_bindings();
    let bytes = seq![s.prefix, byte];
    assert(flush(s, now) == (s, Seq::<ActionView>::empty()));
    assert(bytes.drop_last() =~= seq![s.prefix]);
    assert(seq![s.prefix].drop_last() =~= Seq::<u8>::empty());
    let s1 = RouterState { command_mode: true, ..s };
    assert(steps(s, Seq::<u8>::empty(), now) == (s, Seq::<ActionView>::empty()));
    assert(step(s, s.prefix, now) == (s1, Seq::<ActionView>::empty()));
    assert(seq![s.prefix].last() == s.prefix);
    assert(steps(s, seq![s.prefix], now).0 == s1);
    assert(steps(s, seq![s.prefix], now).1 =~= Seq::<ActionView>::empty());
    assert(bytes.last() == byte);
    assert(step(s1, byte, now) == (s, seq![ActionView::Command(vi_table()[byte])]));
    let a = seq![ActionView::Command(vi_table()[byte])];
    assert(steps(s, bytes, now).1 =~= a);
    assert(Seq::<ActionView>::empty() + a =~= a);
    assert(a.drop_last() =~= Seq::<ActionView>::empty());
    assert(coalesced(Seq::<ActionView>::empty()) == Seq::<ActionView>::empty());
    assert(Seq::<ActionView>::empty().push(a.last()) =~= a);
    assert(coalesced(a) =~= a);
}

}
