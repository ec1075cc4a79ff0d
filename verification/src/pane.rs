//! A pane's input waiting for its program, the modes tracked from its
//! output, and a command line held until its shell is ready.
use vstd::prelude::*;
use std::collections::VecDeque;
use crate::numbers::{fields_between, parsed_u16, read_u16, split_fields};

verus! {

/// The largest paste, in bytes.
pub const PASTE_LIMIT: usize = 65536;
/// The largest single piece of input: a whole paste and its envelope.
pub const MAX_INPUT: usize = 65548;
/// Input may wait for the program up to this many bytes, however many
/// pieces it came in.
pub const INPUT_BYTES: usize = 1048768;
/// What one queued piece costs beyond its bytes.
pub const ENTRY_COST: usize = 64;

/// Input and terminal replies waiting for the pane's program to read them,
/// bounded by what they cost rather than by how many pieces they came in.
pub struct InputQueue {
    pieces: VecDeque<Vec<u8>>,
    /// Bytes of the front piece already written.
    written: usize,
    cost: usize,
    /// Input was refused, and the program has not read since: everything
    /// is refused, so none arrives with a hole before it.
    refusing: bool,
}

/// A queue's contents: its pieces, how much of the front was written, what
/// it counts as queued, and whether it is refusing input.
pub struct QueueState {
    pub pieces: Seq<Seq<u8>>,
    pub written: usize,
    pub cost: usize,
    pub refusing: bool,
}

pub open spec fn piece_views(pieces: Seq<Vec<u8>>) -> Seq<Seq<u8>> {
    pieces.map_values(|p: Vec<u8>| p@)
}

impl View for InputQueue {
    type V = QueueState;

    closed spec fn view(&self) -> QueueState {
        QueueState {
            pieces: piece_views(self.pieces@),
            written: self.written,
            cost: self.cost,
            refusing: self.refusing,
        }
    }
}

/// What queued pieces cost: their bytes and `ENTRY_COST` each.
pub open spec fn total_cost(pieces: Seq<Seq<u8>>) -> int
    decreases pieces.len(),
{
    if pieces.len() == 0 {
        0
    } else {
        total_cost(pieces.drop_last()) + pieces.last().len() + ENTRY_COST
    }
}

/// A queue whose count is what its pieces cost, within the bound, with no
/// empty piece.
pub open spec fn queue_wf(q: QueueState) -> bool {
    &&& q.cost == total_cost(q.pieces)
    &&& q.cost <= INPUT_BYTES
    &&& forall|i: int| 0 <= i < q.pieces.len() ==> (#[trigger] q.pieces[i]).len() > 0
}

/// The notice for refused input.
pub open spec fn refusal_text() -> Seq<char> {
    "the pane's program is not reading its input; nothing more is queued until it does"@
}

/// What `push` does: queue the bytes, or refuse them and everything after
/// until the program reads.
pub open spec fn pushed(q: QueueState, bytes: Seq<u8>) -> (QueueState, bool) {
    if bytes.len() == 0 {
        (q, true)
    } else if q.cost + bytes.len() + ENTRY_COST <= INPUT_BYTES && !q.refusing {
        (
            QueueState {
                pieces: q.pieces.push(bytes),
                cost: (q.cost + bytes.len() + ENTRY_COST) as usize,
                ..q
            },
            true,
        )
    } else {
        (QueueState { refusing: true, ..q }, false)
    }
}

pub open spec fn saturating_add(a: usize, b: int) -> usize {
    if a + b > usize::MAX {
        usize::MAX
    } else {
        (a + b) as usize
    }
}

pub open spec fn saturating_sub(a: usize, b: int) -> usize {
    if a - b < 0 {
        0
    } else {
        (a - b) as usize
    }
}

/// What `advance` does: `n` more bytes of the front were written.
pub open spec fn advanced(q: QueueState, n: usize) -> QueueState {
    let refusing = if n > 0 { false } else { q.refusing };
    let written = saturating_add(q.written, n as int);
    if q.pieces.len() > 0 && written >= q.pieces[0].len() {
        QueueState {
            pieces: q.pieces.drop_first(),
            written: 0,
            cost: saturating_sub(q.cost, saturating_add(q.pieces[0].len() as usize, ENTRY_COST as int) as int),
            refusing,
        }
    } else {
        QueueState { written, refusing, ..q }
    }
}

/// The bytes to write next.
pub open spec fn queue_front(q: QueueState) -> Option<Seq<u8>> {
    if q.pieces.len() > 0 && q.written <= q.pieces[0].len() {
        Some(q.pieces[0].skip(q.written as int))
    } else {
        None
    }
}

/// Writing the front until there is none: at most one step per piece.
pub open spec fn drained(q: QueueState, steps: nat) -> (QueueState, Seq<u8>)
    decreases steps,
{
    if steps == 0 {
        (q, Seq::empty())
    } else {
        match queue_front(q) {
            None => (q, Seq::empty()),
            Some(f) => {
                let (q2, rest) = drained(advanced(q, f.len() as usize), (steps - 1) as nat);
                (q2, f + rest)
            },
        }
    }
}

proof fn lemma_total_cost_push(pieces: Seq<Seq<u8>>, p: Seq<u8>)
    ensures
        total_cost(pieces.push(p)) == total_cost(pieces) + p.len() + ENTRY_COST,
{
    assert(pieces.push(p).drop_last() =~= pieces);
}

proof fn lemma_total_cost_front(pieces: Seq<Seq<u8>>)
    requires
        pieces.len() > 0,
    ensures
        total_cost(pieces) == pieces[0].len() + ENTRY_COST + total_cost(pieces.drop_first()),
        total_cost(pieces.drop_first()) >= 0,
    decreases pieces.len(),
{
    if pieces.len() > 1 {
        lemma_total_cost_front(pieces.drop_last());
        assert(pieces.drop_last().drop_first() =~= pieces.drop_first().drop_last());
        assert(pieces.drop_first().last() == pieces.last());
    } else {
        assert(pieces.drop_first() =~= Seq::<Seq<u8>>::empty());
        assert(pieces.drop_last() =~= Seq::<Seq<u8>>::empty());
    }
}

impl InputQueue {
    /// An empty queue.
    pub fn new() -> (q: Self)
        ensures
            q@ == (QueueState { pieces: Seq::empty(), written: 0, cost: 0, refusing: false }),
            queue_wf(q@),
    {
        let q = InputQueue { pieces: VecDeque::new(), written: 0, cost: 0, refusing: false };
        assert(q@.pieces =~= Seq::<Seq<u8>>::empty());
        q
    }

    /// Queues `bytes`, or refuses them whole if the queue is full, and then
    /// everything until the program reads.
    pub fn push(&mut self, bytes: Vec<u8>) -> (r: Result<(), String>)
        ensures
            final(self)@ == pushed(old(self)@, bytes@).0,
            match r {
                Ok(()) => pushed(old(self)@, bytes@).1,
                Err(e) => !pushed(old(self)@, bytes@).1 && e@ == refusal_text(),
            },
            queue_wf(old(self)@) ==> queue_wf(final(self)@),
    {
        if bytes.len() == 0 {
            return Ok(());
        }
        let ghost before = self@;
        let cost = match bytes.len().checked_add(ENTRY_COST) {
            Some(c) => self.cost.checked_add(c),
            None => None,
        };
        let fits = match cost {
            Some(c) => c <= INPUT_BYTES && !self.refusing,
            None => false,
        };
        if !fits {
            self.refusing = true;
            return Err(crate::text::string_of(
                "the pane's program is not reading its input; nothing more is queued until it does",
            ));
        }
        let ghost b = bytes@;
        self.cost = cost.unwrap();
        self.pieces.push_back(bytes);
        assert(self@.pieces =~= before.pieces.push(b));
        proof {
            lemma_total_cost_push(before.pieces, b);
        }
        Ok(())
    }

    pub fn is_empty(&self) -> (r: bool)
        ensures
            r == (self@.pieces.len() == 0),
    {
        self.pieces.len() == 0
    }

    /// The bytes to write next.
    pub fn front(&self) -> (r: Option<&[u8]>)
        ensures
            match r {
                Some(f) => queue_front(self@) == Some(f@) && self@.pieces[0].len() <= usize::MAX,
                None => queue_front(self@) is None,
            },
    {
        if self.pieces.len() == 0 {
            return None;
        }
        let p: &Vec<u8> = &self.pieces[0];
        if self.written <= p.len() {
            let f = slice_from(p.as_slice(), self.written);
            Some(f)
        } else {
            None
        }
    }

    /// `n` bytes of the front were written: the program is reading.
    pub fn advance(&mut self, n: usize)
        ensures
            final(self)@ == advanced(old(self)@, n),
            queue_wf(old(self)@) ==> queue_wf(final(self)@),
    {
        let ghost before = self@;
        if n > 0 {
            self.refusing = false;
        }
        // At most the front's length; past it all the same means done.
        self.written = self.written.saturating_add(n);
        if self.pieces.len() > 0 && self.written >= self.pieces[0].len() {
            // What `push` added for it, which fitted.
            let front_cost = self.pieces[0].len().saturating_add(ENTRY_COST);
            self.cost = self.cost.saturating_sub(front_cost);
            let _ = self.pieces.pop_front();
            self.written = 0;
            assert(self@.pieces =~= before.pieces.drop_first());
            proof {
                if queue_wf(before) {
                    lemma_total_cost_front(before.pieces);
                }
            }
        }
    }

    /// Everything queued, for tests and for a pane with no process.
    pub fn drain_all(&mut self) -> (out: Vec<u8>)
        ensures
            (final(self)@, out@) == drained(old(self)@, old(self)@.pieces.len()),
            queue_wf(old(self)@) ==> queue_wf(final(self)@),
    {
        let ghost start = self@;
        let mut out: Vec<u8> = Vec::new();
        loop
            invariant
                drained(start, start.pieces.len()) == (drained(self@, self@.pieces.len()).0, out@
                    + drained(self@, self@.pieces.len()).1),
                queue_wf(start) ==> queue_wf(self@),
            ensures
                drained(start, start.pieces.len()) == (self@, out@),
                queue_wf(start) ==> queue_wf(self@),
            decreases self@.pieces.len(),
        {
            let ghost before = self@;
            let ghost mut f: Seq<u8> = Seq::empty();
            let n = match self.front() {
                Some(front) => {
                    proof {
                        f = front@;
                    }
                    append_slice(&mut out, front);
                    front.len()
                },
                None => {
                    assert(drained(self@, self@.pieces.len()) == (self@, Seq::<u8>::empty()));
                    assert(out@ + Seq::<u8>::empty() =~= out@);
                    break ;
                },
            };
            assert(queue_front(before) == Some(f));
            assert(n == f.len());
            assert(f.len() == before.pieces[0].len() - before.written);
            assert(saturating_add(before.written, n as int) == before.pieces[0].len());
            self.advance(n);
            assert(self@ == advanced(before, n));
            assert(self@.pieces.len() == before.pieces.len() - 1);
            let ghost prev_out = out@.take(out@.len() - f.len());
            assert(out@ =~= prev_out + f);
            assert(prev_out + (f + drained(self@, self@.pieces.len()).1) =~= out@
                + drained(self@, self@.pieces.len()).1);
        }
        out
    }
}

impl Default for InputQueue {
    fn default() -> (q: Self)
        ensures
            q@ == (QueueState { pieces: Seq::empty(), written: 0, cost: 0, refusing: false }),
            queue_wf(q@),
    {
        InputQueue::new()
    }
}

/// `s[start..]`.
fn slice_from(s: &[u8], start: usize) -> (r: &[u8])
    requires
        start <= s@.len(),
    ensures
        r@ == s@.skip(start as int),
{
    let r = &s[start..s.len()];
    assert(r@ =~= s@.skip(start as int));
    r
}

/// Appends the bytes of `s`.
fn append_slice(v: &mut Vec<u8>, s: &[u8])
    ensures
        final(v)@ == old(v)@ + s@,
{
    let mut i: usize = 0;
    while i < s.len()
        invariant
            i <= s@.len(),
            v@ == old(v)@ + s@.take(i as int),
        decreases s.len() - i,
    {
        v.push(s[i]);
        assert(s@.take(i + 1) =~= s@.take(i as int).push(s@[i as int]));
        i += 1;
    }
    assert(s@.take(i as int) =~= s@);
}

/// Where the scan of a pane's output stands.
#[derive(Clone, Copy, PartialEq, Eq, Structural, Debug)]
pub enum Scan {
    Ground,
    Escape,
    Csi,
}

/// Modes fux tracks from a pane's output itself: these two decide what fux
/// sends outside the screen.
pub struct Modes {
    /// `CSI ? 1004 h`: the program wants focus-in and focus-out reports.
    pub focus_reporting: bool,
    /// The last `CSI Ps SP q` (DECSCUSR) cursor shape; 0 is the default.
    pub cursor_shape: u16,
    state: Scan,
    params: Vec<u8>,
    private: bool,
    space: bool,
    other: bool,
}

/// The tracked modes and the scan of a control sequence under way.
pub struct ModesState {
    pub focus_reporting: bool,
    pub cursor_shape: u16,
    pub state: Scan,
    pub params: Seq<u8>,
    pub private: bool,
    pub space: bool,
    pub other: bool,
}

impl View for Modes {
    type V = ModesState;

    closed spec fn view(&self) -> ModesState {
        ModesState {
            focus_reporting: self.focus_reporting,
            cursor_shape: self.cursor_shape,
            state: self.state,
            params: self.params@,
            private: self.private,
            space: self.space,
            other: self.other,
        }
    }
}

/// The modes before any output.
pub open spec fn initial_modes() -> ModesState {
    ModesState {
        focus_reporting: false,
        cursor_shape: 0,
        state: Scan::Ground,
        params: Seq::empty(),
        private: false,
        space: false,
        other: false,
    }
}

/// The text `1004`, the focus-reporting mode's number.
pub open spec fn focus_mode_field() -> Seq<u8> {
    seq![0x31u8, 0x30u8, 0x30u8, 0x34u8]
}

/// What a complete control sequence ending in `last` sets.
pub open spec fn dispatched(m: ModesState, last: u8) -> ModesState {
    if m.other {
        m
    } else if m.private && !m.space && (last == 0x68 || last == 0x6c) {
        if split_fields(m.params).contains(focus_mode_field()) {
            ModesState { focus_reporting: last == 0x68, ..m }
        } else {
            m
        }
    } else if !m.private && m.space && last == 0x71 {
        ModesState {
            cursor_shape: match parsed_u16(split_fields(m.params)[0]) {
                Some(n) => n,
                None => 0,
            },
            ..m
        }
    } else {
        m
    }
}

/// What one byte of output does to the modes.
pub open spec fn scanned(m: ModesState, byte: u8) -> ModesState {
    match m.state {
        Scan::Ground => if byte == 0x1b {
            ModesState { state: Scan::Escape, ..m }
        } else {
            m
        },
        Scan::Escape => if byte == 0x5b {
            ModesState {
                state: Scan::Csi,
                params: Seq::empty(),
                private: false,
                space: false,
                other: false,
                ..m
            }
        } else if byte == 0x63 {
            ModesState { focus_reporting: false, cursor_shape: 0, state: Scan::Ground, ..m }
        } else if byte == 0x1b {
            m
        } else {
            ModesState { state: Scan::Ground, ..m }
        },
        Scan::Csi => if byte == 0x3f && m.params.len() == 0 && !m.private {
            ModesState { private: true, ..m }
        } else if (0x30 <= byte <= 0x39) || byte == 0x3b {
            if m.params.len() < 64 {
                ModesState { params: m.params.push(byte), ..m }
            } else {
                ModesState { other: true, ..m }
            }
        } else if byte == 0x20 {
            ModesState { space: true, ..m }
        } else if 0x40 <= byte <= 0x7e {
            ModesState { state: Scan::Ground, ..dispatched(m, byte) }
        } else if byte == 0x1b {
            ModesState { state: Scan::Escape, ..m }
        } else if byte == 0x18 || byte == 0x1a {
            ModesState { state: Scan::Ground, ..m }
        } else {
            ModesState { other: true, ..m }
        },
    }
}

/// The modes after some output, a byte at a time.
pub open spec fn scanned_all(m: ModesState, bytes: Seq<u8>) -> ModesState
    decreases bytes.len(),
{
    if bytes.len() == 0 {
        m
    } else {
        scanned(scanned_all(m, bytes.drop_last()), bytes.last())
    }
}

pub open spec fn params_ok(m: ModesState) -> bool {
    m.params.len() <= 64
}

impl Modes {
    pub fn new() -> (m: Self)
        ensures
            m@ == initial_modes(),
    {
        let m = Modes {
            focus_reporting: false,
            cursor_shape: 0,
            state: Scan::Ground,
            params: Vec::new(),
            private: false,
            space: false,
            other: false,
        };
        assert(m@.params =~= Seq::<u8>::empty());
        m
    }

    /// Whether the program wants focus-in and focus-out reports: the
    /// `focus_reporting` field, as callers in other modules see it.
    pub fn focus_reporting(&self) -> (r: bool)
        ensures
            r == self@.focus_reporting,
    {
        self.focus_reporting
    }

    /// The cursor shape last asked for: the `cursor_shape` field, as
    /// callers in other modules see it.
    pub fn cursor_shape(&self) -> (r: u16)
        ensures
            r == self@.cursor_shape,
    {
        self.cursor_shape
    }

    /// Reads a piece of the pane's output.
    pub fn feed(&mut self, bytes: &[u8])
        ensures
            final(self)@ == scanned_all(old(self)@, bytes@),
    {
        let ghost start = self@;
        let mut i: usize = 0;
        assert(bytes@.take(0) =~= Seq::<u8>::empty());
        while i < bytes.len()
            invariant
                i <= bytes@.len(),
                self@ == scanned_all(start, bytes@.take(i as int)),
            decreases bytes.len() - i,
        {
            let byte = bytes[i];
            let ghost before = self@;
            match self.state {
                Scan::Ground => {
                    if byte == 0x1b {
                        self.state = Scan::Escape;
                    }
                },
                Scan::Escape => {
                    if byte == 0x5b {
                        self.state = Scan::Csi;
                        self.params.clear();
                        self.private = false;
                        self.space = false;
                        self.other = false;
                    } else if byte == 0x63 {
                        // RIS: a full reset.
                        self.focus_reporting = false;
                        self.cursor_shape = 0;
                        self.state = Scan::Ground;
                    } else if byte == 0x1b {
                    } else {
                        self.state = Scan::Ground;
                    }
                },
                Scan::Csi => {
                    if byte == 0x3f && self.params.len() == 0 && !self.private {
                        self.private = true;
                    } else if (0x30 <= byte && byte <= 0x39) || byte == 0x3b {
                        if self.params.len() < 64 {
                            self.params.push(byte);
                        } else {
                            self.other = true;
                        }
                    } else if byte == 0x20 {
                        self.space = true;
                    } else if 0x40 <= byte && byte <= 0x7e {
                        self.dispatch(byte);
                        self.state = Scan::Ground;
                    } else if byte == 0x1b {
                        self.state = Scan::Escape;
                    } else if byte == 0x18 || byte == 0x1a {
                        self.state = Scan::Ground;
                    } else {
                        self.other = true;
                    }
                },
            }
            assert(self@ == scanned(before, byte)) by {
                assert(self@.params =~= scanned(before, byte).params);
            }
            assert(bytes@.take(i + 1).drop_last() =~= bytes@.take(i as int));
            i += 1;
        }
        assert(bytes@.take(i as int) =~= bytes@);
    }

    fn dispatch(&mut self, last: u8)
        ensures
            final(self)@ == dispatched(old(self)@, last),
    {
        if self.other {
            return;
        }
        if self.private && !self.space && (last == 0x68 || last == 0x6c) {
            let fields = fields_between(&self.params, 0, self.params.len());
            assert(self@.params.subrange(0, self@.params.len() as int) =~= self@.params);
            let target: Vec<u8> = vec![0x31, 0x30, 0x30, 0x34];
            assert(target@ =~= focus_mode_field());
            let mut found = false;
            let mut i: usize = 0;
            while i < fields.len()
                invariant
                    i <= fields@.len(),
                    target@ == focus_mode_field(),
                    crate::numbers::byte_views(fields@) == split_fields(self@.params),
                    found == (exists|j: int| 0 <= j < i && (#[trigger] fields@[j])@ == focus_mode_field()),
                decreases fields.len() - i,
            {
                if same(&fields[i], &target) {
                    found = true;
                }
                i += 1;
            }
            proof {
                let f = split_fields(self@.params);
                if f.contains(focus_mode_field()) {
                    let j = choose|j: int| 0 <= j < f.len() && f[j] == focus_mode_field();
                    assert(fields@[j]@ == f[j]);
                }
                if found {
                    let j = choose|j: int| 0 <= j < i && (#[trigger] fields@[j])@ == focus_mode_field();
                    assert(f[j] == fields@[j]@);
                }
            }
            if found {
                self.focus_reporting = last == 0x68;
            }
        } else if !self.private && self.space && last == 0x71 {
            let fields = fields_between(&self.params, 0, self.params.len());
            assert(self@.params.subrange(0, self@.params.len() as int) =~= self@.params);
            proof {
                crate::numbers::lemma_split_fields_nonempty(self@.params);
            }
            assert(fields@[0]@ == split_fields(self@.params)[0]);
            self.cursor_shape = match read_u16(&fields[0]) {
                Some(n) => n,
                None => 0,
            };
        }
    }
}

impl Default for Modes {
    fn default() -> (m: Self)
        ensures
            m@ == initial_modes(),
    {
        Modes::new()
    }
}

fn same(a: &Vec<u8>, b: &Vec<u8>) -> (r: bool)
    ensures
        r == (a@ == b@),
{
    if a.len() != b.len() {
        return false;
    }
    let mut i: usize = 0;
    while i < a.len()
        invariant
            i <= a@.len() == b@.len(),
            forall|j: int| 0 <= j < i ==> a@[j] == b@[j],
        decreases a.len() - i,
    {
        if a[i] != b[i] {
            return false;
        }
        i += 1;
    }
    assert(a@ =~= b@);
    true
}

/// After the shell's output has been quiet this long, in milliseconds, it is
/// taken to be waiting at its prompt.
pub const QUIET: u64 = 50;

/// A command line held until the new shell is ready for it: until its output
/// has been quiet for `QUIET` after it first wrote, or at `deadline` if it
/// writes nothing. Times are milliseconds on the host's monotonic clock.
pub struct Typed {
    pub line: Vec<u8>,
    pub deadline: u64,
    /// When the shell last wrote, once it has.
    pub last_output: Option<u64>,
}

/// When a held line is to be typed: `QUIET` after the last output, but never
/// past the deadline.
pub open spec fn due_time(deadline: u64, last_output: Option<u64>) -> u64 {
    match last_output {
        Some(at) => if at + QUIET <= u64::MAX {
            if at + QUIET < deadline {
                (at + QUIET) as u64
            } else {
                deadline
            }
        } else {
            deadline
        },
        None => deadline,
    }
}

impl Typed {
    /// The moment the line is to be typed, as things stand.
    pub fn due_at(&self) -> (at: u64)
        ensures
            at == due_time(self.deadline, self.last_output),
            at <= self.deadline,
    {
        match self.last_output {
            Some(at) => match at.checked_add(QUIET) {
                Some(quiet) => if quiet < self.deadline {
                    quiet
                } else {
                    self.deadline
                },
                None => self.deadline,
            },
            None => self.deadline,
        }
    }
}


/// Output read in two pieces leaves the modes as the same output read at
/// once, wherever it was split.
pub proof fn lemma_modes_split_anywhere(m: ModesState, a: Seq<u8>, b: Seq<u8>)
    ensures
        scanned_all(scanned_all(m, a), b) == scanned_all(m, a + b),
    decreases b.len(),
{
    if b.len() == 0 {
        assert(a + b =~= a);
    } else {
        lemma_modes_split_anywhere(m, a, b.drop_last());
        assert((a + b).drop_last() =~= a + b.drop_last());
        assert((a + b).last() == b.last());
    }
}

/// Once input is refused, nothing more is queued until the program reads:
/// a push is refused too, and only writing some of the front lifts it.
pub proof fn lemma_refusal_holds_until_read(q: QueueState, bytes: Seq<u8>, n: usize)
    requires
        q.refusing,
        bytes.len() > 0,
    ensures
        pushed(q, bytes).0.pieces == q.pieces,
        !pushed(q, bytes).1,
        pushed(q, bytes).0.refusing,
        advanced(q, n).refusing == (n == 0),
{
}

/// The queue never holds more than `INPUT_BYTES` of cost, and a piece that
/// fits is taken whatever number of pieces came before it.
pub proof fn lemma_queue_bounded_by_cost(q: QueueState, bytes: Seq<u8>)
    requires
        queue_wf(q),
        !q.refusing,
        bytes.len() > 0,
    ensures
        queue_wf(pushed(q, bytes).0),
        pushed(q, bytes).1 <==> total_cost(q.pieces) + bytes.len() + ENTRY_COST <= INPUT_BYTES,
{
    lemma_total_cost_push(q.pieces, bytes);
    if pushed(q, bytes).1 {
        assert forall|i: int| 0 <= i < pushed(q, bytes).0.pieces.len() implies (
        #[trigger] pushed(q, bytes).0.pieces[i]).len() > 0 by {
            if i < q.pieces.len() {
                assert(pushed(q, bytes).0.pieces[i] == q.pieces[i]);
            }
        }
    }
}


/// Pieces one after another.
pub open spec fn joined(pieces: Seq<Seq<u8>>) -> Seq<u8>
    decreases pieces.len(),
{
    if pieces.len() == 0 {
        Seq::empty()
    } else {
        pieces[0] + joined(pieces.drop_first())
    }
}

/// Draining a queue gives the rest of its front piece and then every piece
/// behind it, in order, and leaves it empty at cost 0; a queue that held
/// anything has taken its refusal back, as its program read. An empty queue
/// is left as it is.
pub proof fn lemma_drain_empties(q: QueueState)
    requires
        queue_wf(q),
        q.pieces.len() > 0 ==> q.written < q.pieces[0].len(),
    ensures
        drained(q, q.pieces.len()).1 == (if q.pieces.len() > 0 {
            q.pieces[0].skip(q.written as int) + joined(q.pieces.drop_first())
        } else {
            Seq::<u8>::empty()
        }),
        drained(q, q.pieces.len()).0.pieces.len() == 0,
        drained(q, q.pieces.len()).0.cost == 0,
        q.pieces.len() > 0 ==> drained(q, q.pieces.len()).0.written == 0,
        q.pieces.len() > 0 ==> !drained(q, q.pieces.len()).0.refusing,
        q.pieces.len() == 0 ==> drained(q, q.pieces.len()).0 == q,
    decreases q.pieces.len(),
{
    if q.pieces.len() > 0 {
        let f = q.pieces[0].skip(q.written as int);
        assert(queue_front(q) == Some(f));
        lemma_total_cost_front(q.pieces);
        let next = advanced(q, f.len() as usize);
        assert(next.pieces == q.pieces.drop_first());
        assert(next.cost == total_cost(q.pieces.drop_first()));
        assert forall|i: int| 0 <= i < next.pieces.len() implies (#[trigger] next.pieces[i]).len() > 0 by {
            assert(next.pieces[i] == q.pieces[i + 1]);
        }
        lemma_drain_empties(next);
        if next.pieces.len() > 0 {
            assert(next.pieces[0].skip(0) =~= next.pieces[0]);
            assert(joined(next.pieces) == next.pieces[0] + joined(next.pieces.drop_first()));
        } else {
            assert(joined(next.pieces) =~= Seq::<u8>::empty());
            assert(f + Seq::<u8>::empty() =~= f);
        }
    } else {
        assert(q.pieces =~= Seq::<Seq<u8>>::empty());
    }
}


}
