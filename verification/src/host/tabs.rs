//! Moving between a workspace's tabs, the number and name a new tab takes,
//! and the number a new pane takes.
use vstd::prelude::*;
use crate::ids::{PaneId, TabId};
use crate::text::{digits, push_decimal, string_of};

verus! {

/// A move to another tab.
#[derive(Clone, Copy, Debug, PartialEq, Eq, Structural)]
pub enum TabStep {
    /// The tab after the active one, the first after the last.
    Next,
    /// The tab before the active one, the last before the first.
    Previous,
    /// The tab at a position, from 0.
    Select { index: u64 },
}

/// Why no tab was chosen or made.
#[derive(Clone, Copy, Debug, PartialEq, Eq, Structural)]
pub enum TabError {
    /// The workspace has no tabs.
    NoTabs,
    /// No tab is at the position asked for.
    NotFound,
    /// The workspace holds as many tabs as it may.
    TabLimit,
}

impl TabError {
    /// The message the host answers with.
    pub fn message(&self) -> (s: String)
        ensures
            s@ == match self {
                TabError::NoTabs => "no tabs"@,
                TabError::NotFound => "tab not found"@,
                TabError::TabLimit => "configured tab limit reached"@,
            },
    {
        match self {
            TabError::NoTabs => string_of("no tabs"),
            TabError::NotFound => string_of("tab not found"),
            TabError::TabLimit => string_of("configured tab limit reached"),
        }
    }
}

/// Whether `i` is where `id` first stands in `tabs`.
pub open spec fn is_first_at(tabs: Seq<TabId>, id: TabId, i: int) -> bool {
    &&& 0 <= i < tabs.len()
    &&& tabs[i] == id
    &&& forall|j: int| 0 <= j < i ==> tabs[j] != id
}

/// Where `id` first stands in `tabs`, or 0 where it does not.
pub open spec fn first_at(tabs: Seq<TabId>, id: TabId) -> int {
    if exists|i: int| is_first_at(tabs, id, i) {
        choose|i: int| is_first_at(tabs, id, i)
    } else {
        0
    }
}

/// The position of the active tab: where it first stands, or 0 where no
/// tab is active or the active one is not among the tabs.
pub open spec fn current_index(tabs: Seq<TabId>, active: Option<TabId>) -> int {
    match active {
        Some(id) => first_at(tabs, id),
        None => 0,
    }
}

/// The position a move lands on among `len` tabs from position `current`.
pub open spec fn step_target(len: int, current: int, step: TabStep) -> Result<int, TabError> {
    if len == 0 {
        Err(TabError::NoTabs)
    } else {
        match step {
            TabStep::Next => Ok((current + 1) % len),
            TabStep::Previous => Ok(
                if current == 0 {
                    len - 1
                } else {
                    current - 1
                },
            ),
            TabStep::Select { index } => if index < len {
                Ok(index as int)
            } else {
                Err(TabError::NotFound)
            },
        }
    }
}

/// Where `id` first stands in `tabs`.
fn position(tabs: &Vec<TabId>, id: TabId) -> (r: Option<usize>)
    ensures
        match r {
            Some(i) => is_first_at(tabs@, id, i as int),
            None => !exists|i: int| is_first_at(tabs@, id, i),
        },
{
    let mut k: usize = 0;
    while k < tabs.len()
        invariant
            k <= tabs.len(),
            forall|j: int| 0 <= j < k ==> tabs@[j] != id,
        decreases tabs.len() - k,
    {
        if tabs[k].0 == id.0 {
            assert(tabs@[k as int] == id);
            return Some(k);
        }
        k = k + 1;
    }
    proof {
        assert forall|i: int| !is_first_at(tabs@, id, i) by {
            if 0 <= i < tabs@.len() {
                assert(tabs@[i] != id);
            }
        }
    }
    None
}

/// The position of the tab that a move from the active tab lands on.
pub fn select_tab(tabs: &Vec<TabId>, active: Option<TabId>, step: TabStep) -> (r: Result<
    usize,
    TabError,
>)
    ensures
        match r {
            Ok(i) => step_target(tabs@.len() as int, current_index(tabs@, active), step) == Ok::<
                int,
                TabError,
            >(i as int),
            Err(e) => step_target(tabs@.len() as int, current_index(tabs@, active), step) == Err::<
                int,
                TabError,
            >(e),
        },
{
    if tabs.len() == 0 {
        return Err(TabError::NoTabs);
    }
    let current = match active {
        Some(id) => match position(tabs, id) {
            Some(i) => {
                proof {
                    lemma_first_is_only(tabs@, id, i as int);
                }
                i
            },
            None => 0,
        },
        None => 0,
    };
    let len = tabs.len();
    match step {
        TabStep::Next => Ok((current + 1) % len),
        TabStep::Previous => Ok(
            if current == 0 {
                len - 1
            } else {
                current - 1
            },
        ),
        TabStep::Select { index } => {
            if index < len as u64 {
                Ok(index as usize)
            } else {
                Err(TabError::NotFound)
            }
        },
    }
}

/// Moving to the next tab and then to the previous one comes back to the
/// tab one started from, where the tabs are distinct and the active one is
/// among them; so does moving back and then forth.
pub proof fn lemma_next_then_previous_returns(tabs: Seq<TabId>, active: TabId)
    requires
        forall|i: int, j: int| 0 <= i < j < tabs.len() ==> tabs[i] != tabs[j],
        tabs.contains(active),
    ensures
        ({
            let start = current_index(tabs, Some(active));
            let forth = step_target(tabs.len() as int, start, TabStep::Next)->Ok_0;
            let back = step_target(tabs.len() as int, start, TabStep::Previous)->Ok_0;
            &&& 0 <= start < tabs.len()
            &&& tabs[start] == active
            &&& step_target(
                tabs.len() as int,
                current_index(tabs, Some(tabs[forth])),
                TabStep::Previous,
            ) == Ok::<int, TabError>(start)
            &&& step_target(tabs.len() as int, current_index(tabs, Some(tabs[back])), TabStep::Next)
                == Ok::<int, TabError>(start)
        }),
{
    let len = tabs.len() as int;
    let a = choose|i: int| 0 <= i < tabs.len() && tabs[i] == active;
    assert(is_first_at(tabs, active, a));
    lemma_first_is_only(tabs, active, a);
    let start = current_index(tabs, Some(active));
    assert(start == a);
    let forth = if start + 1 < len {
        start + 1
    } else {
        0
    };
    assert((start + 1) % len == forth) by (nonlinear_arith)
        requires
            0 <= start < len,
            forth == (if start + 1 < len {
                start + 1
            } else {
                0
            }),
    ;
    assert(is_first_at(tabs, tabs[forth], forth));
    lemma_first_is_only(tabs, tabs[forth], forth);
    let back = if start == 0 {
        len - 1
    } else {
        start - 1
    };
    assert(is_first_at(tabs, tabs[back], back));
    lemma_first_is_only(tabs, tabs[back], back);
    assert((back + 1) % len == start) by (nonlinear_arith)
        requires
            0 <= start < len,
            back == (if start == 0 {
                len - 1
            } else {
                start - 1
            }),
    ;
}

/// In distinct tabs, a tab's first position is the one `current_index`
/// finds.
proof fn lemma_first_is_only(tabs: Seq<TabId>, id: TabId, i: int)
    requires
        is_first_at(tabs, id, i),
    ensures
        current_index(tabs, Some(id)) == i,
{
    assert(exists|k: int| is_first_at(tabs, id, k));
    let c = first_at(tabs, id);
    assert(is_first_at(tabs, id, c));
    if c < i {
        assert(tabs[c] != id);
    } else if c > i {
        assert(tabs[i] != id);
    }
}

/// The number a new tab takes: one above the highest, 1 where there are no
/// tabs, the largest value where the highest already has it.
pub open spec fn next_tab_number(tabs: Seq<TabId>) -> u32
    decreases tabs.len(),
{
    if tabs.len() == 0 {
        1
    } else {
        let rest = next_tab_number(tabs.drop_last());
        let own = if tabs.last().0 < u32::MAX {
            (tabs.last().0 + 1) as u32
        } else {
            u32::MAX
        };
        if own > rest {
            own
        } else {
            rest
        }
    }
}

/// The number and name of a new tab, where the workspace may hold one more:
/// the name given, or `tab-` and the number.
pub fn new_tab(tabs: &Vec<TabId>, max_tabs: usize, name: Option<String>) -> (r: Result<
    (TabId, String),
    TabError,
>)
    ensures
        tabs@.len() >= max_tabs ==> r == Err::<(TabId, String), TabError>(TabError::TabLimit),
        tabs@.len() < max_tabs ==> r is Ok,
        r matches Ok((id, title)) ==> {
            &&& id.0 == next_tab_number(tabs@)
            &&& title@ == match name {
                Some(given) => given@,
                None => "tab-"@ + digits(id.0 as nat),
            }
        },
{
    if tabs.len() >= max_tabs {
        return Err(TabError::TabLimit);
    }
    let mut number: u32 = 1;
    let mut k: usize = 0;
    while k < tabs.len()
        invariant
            k <= tabs.len(),
            number == next_tab_number(tabs@.take(k as int)),
        decreases tabs.len() - k,
    {
        proof {
            assert(tabs@.take(k + 1).drop_last() =~= tabs@.take(k as int));
        }
        let own = tabs[k].0.saturating_add(1);
        if own > number {
            number = own;
        }
        k = k + 1;
    }
    assert(tabs@.take(tabs.len() as int) =~= tabs@);
    let id = TabId(number);
    let title = match name {
        Some(given) => given,
        None => {
            let mut t = string_of("tab-");
            push_decimal(&mut t, number as u64);
            t
        },
    };
    Ok((id, title))
}

/// A new tab's number is above every other unless the highest already has
/// the largest value, so it names no tab that is there.
pub proof fn lemma_new_tab_number_is_fresh(tabs: Seq<TabId>)
    ensures
        forall|i: int|
            0 <= i < tabs.len() ==> tabs[i].0 < next_tab_number(tabs) || next_tab_number(tabs)
                == u32::MAX,
        next_tab_number(tabs) >= 1,
    decreases tabs.len(),
{
    if tabs.len() > 0 {
        lemma_new_tab_number_is_fresh(tabs.drop_last());
        assert forall|i: int| 0 <= i < tabs.len() - 1 implies tabs[i] == tabs.drop_last()[i] by {}
    }
}


/// The tab that is active once a tab may have gone: none where no tab is
/// left, the one that was active where it is still there, else the first.
pub open spec fn active_after(tabs: Seq<TabId>, active: TabId) -> Option<TabId> {
    if tabs.len() == 0 {
        None
    } else if tabs.contains(active) {
        Some(active)
    } else {
        Some(tabs[0])
    }
}

/// The tab that is active once a tab may have gone.
pub fn active_after_close(tabs: &Vec<TabId>, active: TabId) -> (r: Option<TabId>)
    ensures
        r == active_after(tabs@, active),
{
    if tabs.len() == 0 {
        return None;
    }
    match position(tabs, active) {
        Some(_) => Some(active),
        None => {
            proof {
                if tabs@.contains(active) {
                    let i = choose|i: int| 0 <= i < tabs@.len() && tabs@[i] == active;
                    lemma_some_first(tabs@, active, i);
                }
            }
            Some(tabs[0])
        },
    }
}

/// Where `id` stands, it first stands somewhere.
proof fn lemma_some_first(tabs: Seq<TabId>, id: TabId, i: int)
    requires
        0 <= i < tabs.len(),
        tabs[i] == id,
    ensures
        exists|k: int| is_first_at(tabs, id, k),
    decreases i,
{
    if exists|j: int| 0 <= j < i && tabs[j] == id {
        let j = choose|j: int| 0 <= j < i && tabs[j] == id;
        lemma_some_first(tabs, id, j);
    } else {
        assert(is_first_at(tabs, id, i));
    }
}

/// The pane a tab shows alone after zoom is toggled on its focused pane:
/// the focused pane, unless it was the one zoomed, in which case none.
pub fn toggled_zoom(zoomed: Option<PaneId>, focused: PaneId) -> (z: Option<PaneId>)
    ensures
        z == (if zoomed == Some(focused) {
            None
        } else {
            Some(focused)
        }),
{
    match zoomed {
        Some(pane) => if pane.0 == focused.0 {
            None
        } else {
            Some(focused)
        },
        None => Some(focused),
    }
}


/// The number a new pane takes: one above the highest pane's, 1 where there
/// are none, the largest value where the highest already has it.
pub fn next_pane_id(highest: Option<PaneId>) -> (id: PaneId)
    ensures
        id.0 == match highest {
            None => 1,
            Some(p) => if p.0 < u32::MAX {
                (p.0 + 1) as u32
            } else {
                u32::MAX
            },
        },
{
    match highest {
        None => PaneId(1),
        Some(p) => PaneId(p.0.saturating_add(1)),
    }
}

}
