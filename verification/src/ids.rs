//! Stable, session-scoped public identities. These are the identities
//! protocols and viewers use. Counters increase monotonically for the
//! lifetime of one server process and are never recycled, so a late request
//! naming a closed object fails instead of addressing a replacement.
use vstd::prelude::*;
use vstd::utf8::encode_utf8;
use crate::text::{digits, push_decimal};

verus! {

#[derive(Clone, Copy, Debug, Default, Eq, Hash, Ord, PartialEq, PartialOrd, Structural)]
pub struct PaneId(pub u32);

#[derive(Clone, Copy, Debug, Default, Eq, Hash, Ord, PartialEq, PartialOrd, Structural)]
pub struct TabId(pub u32);

#[derive(Clone, Copy, Debug, Default, Eq, Hash, Ord, PartialEq, PartialOrd, Structural)]
pub struct ViewerId(pub u64);

impl PaneId {
    /// The number, as it is displayed.
    pub fn text(&self) -> (s: String)
        ensures
            s@ == digits(self.0 as nat),
    {
        let mut s = String::new();
        push_decimal(&mut s, self.0 as u64);
        assert(s@ =~= digits(self.0 as nat));
        s
    }
}

impl TabId {
    /// The number, as it is displayed.
    pub fn text(&self) -> (s: String)
        ensures
            s@ == digits(self.0 as nat),
    {
        let mut s = String::new();
        push_decimal(&mut s, self.0 as u64);
        assert(s@ =~= digits(self.0 as nat));
        s
    }
}

impl ViewerId {
    /// The number, as it is displayed.
    pub fn text(&self) -> (s: String)
        ensures
            s@ == digits(self.0 as nat),
    {
        let mut s = String::new();
        push_decimal(&mut s, self.0);
        assert(s@ =~= digits(self.0 as nat));
        s
    }
}

/// A byte a workspace name may hold: an ASCII letter or digit, `.`, `_` or
/// `-`.
pub open spec fn name_byte(b: u8) -> bool {
    (0x30 <= b <= 0x39) || (0x41 <= b <= 0x5a) || (0x61 <= b <= 0x7a) || b == 0x2e || b == 0x5f || b
        == 0x2d
}

/// A workspace name that can also name socket and descriptor files: 1 to 64
/// bytes of letters, digits, `.`, `_` and `-`, and neither `.` nor `..`.
pub open spec fn valid_workspace_name(name: Seq<char>) -> bool {
    let b = encode_utf8(name);
    &&& b.len() >= 1
    &&& b.len() <= 64
    &&& b != seq![0x2eu8]
    &&& b != seq![0x2eu8, 0x2eu8]
    &&& forall|i: int| 0 <= i < b.len() ==> name_byte(#[trigger] b[i])
}

/// Validates a workspace name that also names socket and descriptor files.
pub fn validate_workspace_name(name: &str) -> (r: Result<(), InvalidName>)
    ensures
        r is Ok <==> valid_workspace_name(name@),
{
    let b = name.as_bytes();
    let n = b.len();
    if n == 0 || n > 64 {
        return Err(InvalidName);
    }
    if n == 1 && b[0] == 0x2e {
        assert(b@ =~= seq![0x2eu8]);
        return Err(InvalidName);
    }
    if n == 2 && b[0] == 0x2e && b[1] == 0x2e {
        assert(b@ =~= seq![0x2eu8, 0x2eu8]);
        return Err(InvalidName);
    }
    let mut i: usize = 0;
    while i < n
        invariant
            i <= n == b@.len(),
            b@ == encode_utf8(name@),
            forall|j: int| 0 <= j < i ==> name_byte(#[trigger] b@[j]),
        decreases n - i,
    {
        let c = b[i];
        let ok = (0x30 <= c && c <= 0x39) || (0x41 <= c && c <= 0x5a) || (0x61 <= c && c <= 0x7a)
            || c == 0x2e || c == 0x5f || c == 0x2d;
        if !ok {
            assert(!name_byte(b@[i as int]));
            return Err(InvalidName);
        }
        i += 1;
    }
    assert(n == 1 ==> b@ != seq![0x2eu8]);
    assert(n == 2 ==> b@ != seq![0x2eu8, 0x2eu8]) by {
        if n == 2 && b@ == seq![0x2eu8, 0x2eu8] {
            assert(b@[0] == 0x2e && b@[1] == 0x2e);
        }
    }
    Ok(())
}

/// A workspace name that `validate_workspace_name` refuses.
#[derive(Clone, Copy, Debug, Eq, PartialEq, Structural)]
pub struct InvalidName;

impl InvalidName {
    /// What is wrong with the name.
    pub fn message(&self) -> (s: String)
        ensures
            s@ == "workspace names use 1-64 ASCII letters, digits, `.`, `_` or `-`"@,
    {
        crate::text::string_of("workspace names use 1-64 ASCII letters, digits, `.`, `_` or `-`")
    }
}


/// The counters that hand out pane and tab numbers: each number is one
/// above the last handed out, and none is handed out once the last is the
/// largest `u32`.
#[derive(Clone, Copy, Debug, Default, PartialEq, Eq, Structural)]
pub struct IdCounters {
    last_pane: u32,
    last_tab: u32,
}

/// The counter after one number is asked of it at `last`, and the number.
pub open spec fn counted(last: u32) -> (u32, Option<u32>) {
    if last < u32::MAX {
        ((last + 1) as u32, Some((last + 1) as u32))
    } else {
        (last, None)
    }
}

/// The numbers that `n` requests hand out from a counter at `last`, in
/// order.
pub open spec fn issued(last: u32, n: nat) -> Seq<u32>
    decreases n,
{
    if n == 0 {
        Seq::empty()
    } else {
        let (next, id) = counted(last);
        match id {
            Some(i) => seq![i] + issued(next, (n - 1) as nat),
            None => Seq::empty(),
        }
    }
}

impl IdCounters {
    /// Counters that have handed out nothing.
    pub fn new() -> (c: IdCounters)
        ensures
            c.last_pane_spec() == 0,
            c.last_tab_spec() == 0,
    {
        IdCounters { last_pane: 0, last_tab: 0 }
    }

    /// The last pane number handed out, 0 before the first.
    pub closed spec fn last_pane_spec(self) -> u32 {
        self.last_pane
    }

    /// The last tab number handed out, 0 before the first.
    pub closed spec fn last_tab_spec(self) -> u32 {
        self.last_tab
    }

    /// A new pane's id, unless the numbers have run out.
    pub fn next_pane(&mut self) -> (id: Option<PaneId>)
        ensures
            final(self).last_tab_spec() == old(self).last_tab_spec(),
            final(self).last_pane_spec() == counted(old(self).last_pane_spec()).0,
            id == match counted(old(self).last_pane_spec()).1 {
                Some(n) => Some(PaneId(n)),
                None => None::<PaneId>,
            },
    {
        if self.last_pane < u32::MAX {
            self.last_pane = self.last_pane + 1;
            Some(PaneId(self.last_pane))
        } else {
            None
        }
    }

    /// A new tab's id, unless the numbers have run out.
    pub fn next_tab(&mut self) -> (id: Option<TabId>)
        ensures
            final(self).last_pane_spec() == old(self).last_pane_spec(),
            final(self).last_tab_spec() == counted(old(self).last_tab_spec()).0,
            id == match counted(old(self).last_tab_spec()).1 {
                Some(n) => Some(TabId(n)),
                None => None::<TabId>,
            },
    {
        if self.last_tab < u32::MAX {
            self.last_tab = self.last_tab + 1;
            Some(TabId(self.last_tab))
        } else {
            None
        }
    }
}

/// Numbers are never handed out twice: those that successive requests get
/// from a counter rise strictly, each above the counter's last number, and
/// the counter stops at the largest `u32` instead of wrapping.
pub proof fn lemma_ids_never_repeat(last: u32, n: nat)
    ensures
        forall|i: int, j: int|
            0 <= i < j < issued(last, n).len() ==> issued(last, n)[i] < issued(last, n)[j],
        forall|i: int| 0 <= i < issued(last, n).len() ==> issued(last, n)[i] > last,
        issued(last, n).len() <= n,
    decreases n,
{
    if n > 0 && last < u32::MAX {
        let next = (last + 1) as u32;
        lemma_ids_never_repeat(next, (n - 1) as nat);
        let rest = issued(next, (n - 1) as nat);
        assert(issued(last, n) == seq![next] + rest);
        assert forall|i: int, j: int|
            0 <= i < j < issued(last, n).len() implies issued(last, n)[i] < issued(last, n)[j] by {
            if i == 0 {
                assert(issued(last, n)[j] == rest[j - 1]);
            } else {
                assert(issued(last, n)[i] == rest[i - 1]);
                assert(issued(last, n)[j] == rest[j - 1]);
            }
        }
        assert forall|i: int| 0 <= i < issued(last, n).len() implies issued(last, n)[i] > last by {
            if i > 0 {
                assert(issued(last, n)[i] == rest[i - 1]);
            }
        }
    }
}

/// The earliest of the deadlines proposed: a proposal replaces the one held
/// only if it is earlier.
pub fn propose(next: &mut Option<u64>, at: u64)
    ensures
        *final(next) == match *old(next) {
            None => Some(at),
            Some(current) => Some(if at < current {
                at
            } else {
                current
            }),
        },
{
    *next = match *next {
        None => Some(at),
        Some(current) => Some(if at < current {
            at
        } else {
            current
        }),
    };
}

}
