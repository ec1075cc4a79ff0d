//! The session's model, its entities by number: what a workspace or viewer
//! selects, the state of a pane's process, and the structural checks every
//! step of the session must pass.
use vstd::prelude::*;
use std::collections::BTreeMap;
use crate::cli::same_text;
use crate::ids::{PaneId, TabId, ViewerId};
use crate::text::{digits, push_decimal, push_str, string_of};

verus! {

/// An entity of the session: a workspace, tab, pane, viewer or pending
/// creation, by its number.
pub type Entity = u64;

/// Which tab a viewer (or the workspace default) shows, and the focused
/// pane per tab.
#[derive(Clone, Debug, Default, PartialEq, Eq)]
pub struct Selection {
    pub tab: Option<Entity>,
    pub focus: BTreeMap<Entity, Entity>,
}

/// A selection: the tab shown and the focused pane of each tab.
pub ghost struct SelectionView {
    pub tab: Option<Entity>,
    pub focus: Map<Entity, Entity>,
}

impl View for Selection {
    type V = SelectionView;

    open spec fn view(&self) -> SelectionView {
        SelectionView { tab: self.tab, focus: self.focus@ }
    }
}

/// The focused pane of the tab shown, if there is one.
pub open spec fn focused_of(s: SelectionView) -> Option<Entity> {
    match s.tab {
        Some(t) => if s.focus.contains_key(t) {
            Some(s.focus[t])
        } else {
            None
        },
        None => None,
    }
}

impl Selection {
    pub fn focused(&self) -> (r: Option<Entity>)
        ensures
            r == focused_of(self@),
    {
        match self.tab {
            Some(t) => match self.focus.get(&t) {
                Some(p) => Some(*p),
                None => None,
            },
            None => None,
        }
    }

    pub fn set_focus(&mut self, tab: Entity, pane: Entity)
        ensures
            final(self)@ == (SelectionView { focus: old(self)@.focus.insert(tab, pane), ..old(self)@ }),
    {
        self.focus.insert(tab, pane);
    }

    /// Forgets the focus in `tab`, and shows no tab if it was the one
    /// shown.
    pub fn forget_tab(&mut self, tab: Entity)
        ensures
            final(self)@ == (SelectionView {
                tab: if old(self)@.tab == Some(tab) {
                    None
                } else {
                    old(self)@.tab
                },
                focus: old(self)@.focus.remove(tab),
            }),
    {
        self.focus.remove(&tab);
        if self.tab == Some(tab) {
            self.tab = None;
        }
    }

    /// Shows `tab`, focusing `pane` in it when one is given.
    pub fn select(&mut self, tab: Entity, pane: Option<Entity>)
        ensures
            final(self)@ == (SelectionView {
                tab: Some(tab),
                focus: match pane {
                    Some(p) => old(self)@.focus.insert(tab, p),
                    None => old(self)@.focus,
                },
            }),
    {
        self.tab = Some(tab);
        if let Some(pane) = pane {
            self.set_focus(tab, pane);
        }
    }

    /// Points the focus of `tab` at `next`, or forgets it when there is no
    /// successor.
    pub fn retarget(&mut self, tab: Entity, next: Option<Entity>)
        ensures
            final(self)@ == (SelectionView {
                focus: match next {
                    Some(n) => old(self)@.focus.insert(tab, n),
                    None => old(self)@.focus.remove(tab),
                },
                ..old(self)@
            }),
    {
        match next {
            Some(next) => self.set_focus(tab, next),
            None => {
                self.focus.remove(&tab);
            },
        }
    }
}

/// Where a pane's process is.
#[derive(Clone, Copy, Debug, PartialEq, Eq, Structural)]
pub enum PaneState {
    /// Reserved; the spawn has not been reported. Never in a layout or a
    /// frame.
    Starting,
    Live { pid: u32 },
    /// The terminal reached its end but the exit status is not known yet.
    Eof { pid: u32 },
    /// Termination was asked for; the exit report is awaited.
    Terminating { pid: u32, since_ms: u64 },
    Exited { code: u32 },
}

impl PaneState {
    /// The process id, while there is a process.
    pub fn pid(self) -> (r: Option<u32>)
        ensures
            r == match self {
                PaneState::Live { pid } => Some(pid),
                PaneState::Eof { pid } => Some(pid),
                PaneState::Terminating { pid, .. } => Some(pid),
                _ => None::<u32>,
            },
    {
        match self {
            PaneState::Live { pid } | PaneState::Eof { pid } | PaneState::Terminating { pid, .. } => Some(pid),
            PaneState::Starting | PaneState::Exited { .. } => None,
        }
    }

    /// The exit status, once the process has exited.
    pub fn exit_code(self) -> (r: Option<u32>)
        ensures
            r == match self {
                PaneState::Exited { code } => Some(code),
                _ => None::<u32>,
            },
    {
        match self {
            PaneState::Exited { code } => Some(code),
            _ => None,
        }
    }

    /// Only a live process takes input.
    pub fn accepts_input(self) -> (r: bool)
        ensures
            r == (self is Live),
    {
        matches!(self, PaneState::Live { .. })
    }
}

/// The entity a reserved tab's layout holds until its first pane starts.
pub const PLACEHOLDER: Entity = 0xffff_ffff_ffff_ffff;

/// A tab: its identity, the workspace it belongs to, the workspace whose
/// member it is (none while reserved), and its layout as the checks read
/// it: the leaves in order and what the layout's own validation reported.
pub struct TabRecord {
    pub entity: Entity,
    pub id: TabId,
    pub workspace: Entity,
    pub member_of: Option<Entity>,
    pub leaves: Vec<Entity>,
    pub layout_error: Option<String>,
}

/// A pane: its identity, its tab and where its process is.
#[derive(Clone, Copy)]
pub struct PaneRecord {
    pub entity: Entity,
    pub id: PaneId,
    pub tab: Entity,
    pub state: PaneState,
}

/// A workspace: its name, the tab it selects by default, whether it is
/// open and whether it is retiring, and its member tabs in order.
pub struct WorkspaceRecord {
    pub entity: Entity,
    pub name: String,
    pub selected_tab: Option<Entity>,
    pub open: bool,
    pub retiring: bool,
    pub members: Vec<Entity>,
    /// The step of the most recent attachment.
    pub last_attached: u64,
}

/// An attached viewer: its identity, its workspace, the tab it shows and
/// the creation it waits on, if any.
#[derive(Clone, Copy)]
pub struct ViewerRecord {
    pub entity: Entity,
    pub id: ViewerId,
    pub workspace: Entity,
    pub rows: u16,
    pub cols: u16,
    pub selected_tab: Option<Entity>,
    pub barrier: Option<Entity>,
    /// The viewer is on its way out and no longer counts.
    pub detaching: bool,
}

/// The public identities and the entities they name: panes, tabs and
/// viewers by number, workspaces by name.
pub struct Registered {
    pub panes: BTreeMap<u32, Entity>,
    pub tabs: BTreeMap<u32, Entity>,
    pub viewers: BTreeMap<u64, Entity>,
    pub workspaces: Vec<(String, Entity)>,
}

/// The entity `ids` registers under `key`, if any.
pub open spec fn registered_under<K>(ids: Map<K, Entity>, key: K) -> Option<Entity> {
    if ids.contains_key(key) {
        Some(ids[key])
    } else {
        None
    }
}

impl Registered {
    pub fn pane(&self, id: PaneId) -> (r: Option<Entity>)
        ensures
            r == registered_under(self.panes@, id.0),
    {
        match self.panes.get(&id.0) {
            Some(e) => Some(*e),
            None => None,
        }
    }

    pub fn tab(&self, id: TabId) -> (r: Option<Entity>)
        ensures
            r == registered_under(self.tabs@, id.0),
    {
        match self.tabs.get(&id.0) {
            Some(e) => Some(*e),
            None => None,
        }
    }

    pub fn viewer(&self, id: ViewerId) -> (r: Option<Entity>)
        ensures
            r == registered_under(self.viewers@, id.0),
    {
        match self.viewers.get(&id.0) {
            Some(e) => Some(*e),
            None => None,
        }
    }

    /// The workspace registered under `name`: the first entry of that name.
    pub fn workspace(&self, name: &str) -> (r: Option<Entity>)
        ensures
            match r {
                Some(e) => exists|q: int|
                    0 <= q < self.workspaces@.len() && #[trigger] self.workspaces@[q].0@ == name@
                        && self.workspaces@[q].1 == e,
                None => forall|q: int| 0 <= q < self.workspaces@.len() ==> #[trigger] self.workspaces@[q].0@ != name@,
            },
    {
        let mut q: usize = 0;
        while q < self.workspaces.len()
            invariant
                q <= self.workspaces@.len(),
                forall|j: int| 0 <= j < q ==> #[trigger] self.workspaces@[j].0@ != name@,
            decreases self.workspaces.len() - q,
        {
            if same_text(self.workspaces[q].0.as_str(), name) {
                return Some(self.workspaces[q].1);
            }
            q += 1;
        }
        None
    }
}

/// The whole session: its entities and the creations still pending.
pub struct SessionModel {
    pub workspaces: Vec<WorkspaceRecord>,
    pub tabs: Vec<TabRecord>,
    pub panes: Vec<PaneRecord>,
    pub viewers: Vec<ViewerRecord>,
    pub creations: Vec<Entity>,
    pub ids: Registered,
}

/// Each entity stands for one record of its kind, and each workspace name
/// is registered once: what a session of entities is.
pub open spec fn model_shaped(m: SessionModel) -> bool {
    &&& forall|a: int, b: int|
        0 <= a < b < m.tabs@.len() ==> #[trigger] m.tabs@[a].entity != #[trigger] m.tabs@[b].entity
    &&& forall|a: int, b: int|
        0 <= a < b < m.panes@.len() ==> #[trigger] m.panes@[a].entity != #[trigger] m.panes@[b].entity
    &&& forall|a: int, b: int|
        0 <= a < b < m.workspaces@.len() ==> #[trigger] m.workspaces@[a].entity
            != #[trigger] m.workspaces@[b].entity
    &&& forall|a: int, b: int|
        0 <= a < b < m.viewers@.len() ==> #[trigger] m.viewers@[a].entity != #[trigger] m.viewers@[b].entity
    &&& forall|a: int, b: int|
        0 <= a < b < m.ids.workspaces@.len() ==> #[trigger] m.ids.workspaces@[a].0@
            != #[trigger] m.ids.workspaces@[b].0@
}

pub open spec fn has_tab(m: SessionModel, e: Entity) -> bool {
    exists|k: int| 0 <= k < m.tabs@.len() && #[trigger] m.tabs@[k].entity == e
}

pub open spec fn has_workspace(m: SessionModel, e: Entity) -> bool {
    exists|k: int| 0 <= k < m.workspaces@.len() && #[trigger] m.workspaces@[k].entity == e
}

/// Whether the workspace `w` (a record of it, if any) counts `tab` among
/// its members.
pub open spec fn is_member(m: SessionModel, w: Entity, tab: Entity) -> bool {
    exists|k: int|
        0 <= k < m.workspaces@.len() && #[trigger] m.workspaces@[k].entity == w
            && m.workspaces@[k].members@.contains(tab)
}

/// Whether the workspace `w` is retiring.
pub open spec fn retiring(m: SessionModel, w: Entity) -> bool {
    exists|k: int| 0 <= k < m.workspaces@.len() && #[trigger] m.workspaces@[k].entity == w && m.workspaces@[k].retiring
}

/// Whether a tab belongs to the workspace it names as its own.
pub open spec fn tab_member(t: TabRecord) -> bool {
    t.member_of == Some(t.workspace)
}

/// The leaf at `a` of tab `i` already stood in a layout before it: in an
/// earlier tab or earlier in its own.
pub open spec fn seen_before(m: SessionModel, i: int, a: int) -> bool {
    exists|j: int, b: int|
        0 <= j <= i && 0 <= b < m.tabs@[j].leaves@.len() && (j < i || b < a) && #[trigger] m.tabs@[j].leaves@[b]
            == m.tabs@[i].leaves@[a]
}

/// What a layout's leaf must be: a placeholder only in a tab that is no
/// member yet; else a pane in no other place of any layout, which exists,
/// belongs to this tab and has started.
pub open spec fn leaf_ok(m: SessionModel, i: int, a: int) -> bool {
    let t = m.tabs@[i];
    let l = t.leaves@[a];
    if l == PLACEHOLDER {
        !tab_member(t)
    } else {
        &&& !seen_before(m, i, a)
        &&& exists|k: int| 0 <= k < m.panes@.len() && #[trigger] m.panes@[k].entity == l
        &&& forall|k: int|
            0 <= k < m.panes@.len() && #[trigger] m.panes@[k].entity == l ==> m.panes@[k].tab == t.entity
                && !(m.panes@[k].state is Starting)
    }
}

/// What a tab must be: a valid layout, in a workspace that exists,
/// registered under its id, every leaf as `leaf_ok` says, and not empty
/// while a member unless its workspace is retiring.
pub open spec fn tab_ok(m: SessionModel, i: int) -> bool {
    let t = m.tabs@[i];
    &&& t.layout_error is None
    &&& has_workspace(m, t.workspace)
    &&& m.ids.tabs@.contains_key(t.id.0) && m.ids.tabs@[t.id.0] == t.entity
    &&& forall|a: int| 0 <= a < t.leaves@.len() ==> #[trigger] leaf_ok(m, i, a)
    &&& !(tab_member(t) && t.leaves@.len() == 0 && !retiring(m, t.workspace))
}

/// What a pane must be: registered under its id, and in a tab unless it
/// is terminating (a tab may close ahead of its panes' exit reports).
pub open spec fn pane_ok(m: SessionModel, k: int) -> bool {
    let p = m.panes@[k];
    &&& m.ids.panes@.contains_key(p.id.0) && m.ids.panes@[p.id.0] == p.entity
    &&& has_tab(m, p.tab) || p.state is Terminating
}

/// `tab` is a tab of the workspace `w`.
pub open spec fn member_tab_ok(m: SessionModel, w: Entity, tab: Entity) -> bool {
    exists|j: int| 0 <= j < m.tabs@.len() && #[trigger] m.tabs@[j].entity == tab && m.tabs@[j].workspace == w
}

/// What a workspace must be: registered under its name, its members tabs
/// of its own, and the tab it selects a member unless it is retiring or
/// not open yet.
pub open spec fn workspace_ok(m: SessionModel, k: int) -> bool {
    let w = m.workspaces@[k];
    &&& exists|r: int|
        0 <= r < m.ids.workspaces@.len() && #[trigger] m.ids.workspaces@[r].0@ == w.name@
            && m.ids.workspaces@[r].1 == w.entity
    &&& forall|a: int| 0 <= a < w.members@.len() ==> member_tab_ok(m, w.entity, #[trigger] w.members@[a])
    &&& match w.selected_tab {
        Some(t) => w.members@.contains(t) || w.retiring || !w.open,
        None => true,
    }
}

/// What a viewer must be: registered under its id, in a workspace that
/// exists, showing a member tab unless the workspace is retiring, and
/// waiting on no creation that has finished.
pub open spec fn viewer_ok(m: SessionModel, k: int) -> bool {
    let v = m.viewers@[k];
    &&& m.ids.viewers@.contains_key(v.id.0) && m.ids.viewers@[v.id.0] == v.entity
    &&& has_workspace(m, v.workspace)
    &&& match v.selected_tab {
        Some(t) => is_member(m, v.workspace, t) || retiring(m, v.workspace),
        None => true,
    }
    &&& match v.barrier {
        Some(b) => m.creations@.contains(b),
        None => true,
    }
}

/// The structural invariants that hold after every step of the session.
pub open spec fn model_wf(m: SessionModel) -> bool {
    &&& forall|i: int| 0 <= i < m.tabs@.len() ==> #[trigger] tab_ok(m, i)
    &&& forall|k: int| 0 <= k < m.panes@.len() ==> #[trigger] pane_ok(m, k)
    &&& forall|k: int| 0 <= k < m.workspaces@.len() ==> #[trigger] workspace_ok(m, k)
    &&& forall|k: int| 0 <= k < m.viewers@.len() ==> #[trigger] viewer_ok(m, k)
}


/// A broken invariant, and the tab, pane, workspace or viewer it was found
/// at.
#[derive(Clone, Debug, PartialEq, Eq)]
pub enum Violation {
    TabLayout { tab: TabId, error: String },
    TabWithoutWorkspace { tab: TabId },
    TabNotRegistered { tab: TabId },
    PlaceholderShown { tab: TabId },
    PaneInTwoLayouts { pane: Entity },
    MissingPane { tab: TabId },
    ForeignPane { pane: PaneId },
    StartingPaneShown { pane: PaneId },
    EmptyMemberTab { tab: TabId },
    PaneNotRegistered { pane: PaneId },
    PaneWithoutTab { pane: PaneId },
    WorkspaceNotRegistered { name: String },
    ForeignMemberTab { name: String },
    ForeignSelectedTab { name: String },
    ViewerNotRegistered { viewer: ViewerId },
    ViewerWithoutWorkspace { viewer: ViewerId },
    ViewerOnForeignTab { viewer: ViewerId },
    FinishedBarrier { viewer: ViewerId },
}

/// The pane a leaf names breaks the layout it is in: it does not belong to
/// the tab, or it has not started.
pub open spec fn leaf_pane_fails(m: SessionModel, i: int, a: int, k: int, starting: bool) -> bool {
    let l = m.tabs@[i].leaves@[a];
    &&& 0 <= a < m.tabs@[i].leaves@.len()
    &&& l != PLACEHOLDER
    &&& 0 <= k < m.panes@.len()
    &&& m.panes@[k].entity == l
    &&& if starting {
        m.panes@[k].state is Starting
    } else {
        m.panes@[k].tab != m.tabs@[i].entity
    }
}

/// `v` names a broken invariant of `m`, at the item it names.
pub open spec fn reported(m: SessionModel, v: Violation) -> bool {
    match v {
        Violation::TabLayout { tab, error } => exists|i: int|
            0 <= i < m.tabs@.len() && #[trigger] m.tabs@[i].id == tab && match m.tabs@[i].layout_error {
                Some(e) => e@ == error@,
                None => false,
            },
        Violation::TabWithoutWorkspace { tab } => exists|i: int|
            0 <= i < m.tabs@.len() && #[trigger] m.tabs@[i].id == tab && !has_workspace(m, m.tabs@[i].workspace),
        Violation::TabNotRegistered { tab } => exists|i: int|
            0 <= i < m.tabs@.len() && #[trigger] m.tabs@[i].id == tab && !(m.ids.tabs@.contains_key(tab.0)
                && m.ids.tabs@[tab.0] == m.tabs@[i].entity),
        Violation::PlaceholderShown { tab } => exists|i: int, a: int|
            0 <= i < m.tabs@.len() && #[trigger] m.tabs@[i].id == tab && 0 <= a < m.tabs@[i].leaves@.len()
                && #[trigger] m.tabs@[i].leaves@[a] == PLACEHOLDER && tab_member(m.tabs@[i]),
        Violation::PaneInTwoLayouts { pane } => exists|i: int, a: int|
            0 <= i < m.tabs@.len() && 0 <= a < m.tabs@[i].leaves@.len() && #[trigger] m.tabs@[i].leaves@[a] == pane
                && pane != PLACEHOLDER && seen_before(m, i, a),
        Violation::MissingPane { tab } => exists|i: int, a: int|
            0 <= i < m.tabs@.len() && #[trigger] m.tabs@[i].id == tab && 0 <= a < m.tabs@[i].leaves@.len() && (
            #[trigger] m.tabs@[i].leaves@[a]) != PLACEHOLDER && !(exists|k: int|
                0 <= k < m.panes@.len() && #[trigger] m.panes@[k].entity == m.tabs@[i].leaves@[a]),
        Violation::ForeignPane { pane } => exists|i: int, a: int, k: int|
            0 <= i < m.tabs@.len() && #[trigger] leaf_pane_fails(m, i, a, k, false) && m.panes@[k].id == pane,
        Violation::StartingPaneShown { pane } => exists|i: int, a: int, k: int|
            0 <= i < m.tabs@.len() && #[trigger] leaf_pane_fails(m, i, a, k, true) && m.panes@[k].id == pane,
        Violation::EmptyMemberTab { tab } => exists|i: int|
            0 <= i < m.tabs@.len() && #[trigger] m.tabs@[i].id == tab && tab_member(m.tabs@[i])
                && m.tabs@[i].leaves@.len() == 0 && !retiring(m, m.tabs@[i].workspace),
        Violation::PaneNotRegistered { pane } => exists|k: int|
            0 <= k < m.panes@.len() && #[trigger] m.panes@[k].id == pane && !(m.ids.panes@.contains_key(pane.0)
                && m.ids.panes@[pane.0] == m.panes@[k].entity),
        Violation::PaneWithoutTab { pane } => exists|k: int|
            0 <= k < m.panes@.len() && #[trigger] m.panes@[k].id == pane && !has_tab(m, m.panes@[k].tab)
                && !(m.panes@[k].state is Terminating),
        Violation::WorkspaceNotRegistered { name } => exists|k: int|
            0 <= k < m.workspaces@.len() && #[trigger] m.workspaces@[k].name@ == name@ && !workspace_ok(m, k)
                && !(exists|r: int|
                0 <= r < m.ids.workspaces@.len() && #[trigger] m.ids.workspaces@[r].0@ == name@
                    && m.ids.workspaces@[r].1 == m.workspaces@[k].entity),
        Violation::ForeignMemberTab { name } => exists|k: int, a: int|
            0 <= k < m.workspaces@.len() && #[trigger] m.workspaces@[k].name@ == name@ && 0 <= a
                < m.workspaces@[k].members@.len() && !(exists|j: int|
                0 <= j < m.tabs@.len() && #[trigger] m.tabs@[j].entity == #[trigger] m.workspaces@[k].members@[a]
                    && m.tabs@[j].workspace == m.workspaces@[k].entity),
        Violation::ForeignSelectedTab { name } => exists|k: int|
            0 <= k < m.workspaces@.len() && #[trigger] m.workspaces@[k].name@ == name@ && match m.workspaces@[k].selected_tab {
                Some(t) => !m.workspaces@[k].members@.contains(t) && !m.workspaces@[k].retiring && m.workspaces@[k].open,
                None => false,
            },
        Violation::ViewerNotRegistered { viewer } => exists|k: int|
            0 <= k < m.viewers@.len() && #[trigger] m.viewers@[k].id == viewer && !(m.ids.viewers@.contains_key(viewer.0)
                && m.ids.viewers@[viewer.0] == m.viewers@[k].entity),
        Violation::ViewerWithoutWorkspace { viewer } => exists|k: int|
            0 <= k < m.viewers@.len() && #[trigger] m.viewers@[k].id == viewer && !has_workspace(m, m.viewers@[k].workspace),
        Violation::ViewerOnForeignTab { viewer } => exists|k: int|
            0 <= k < m.viewers@.len() && #[trigger] m.viewers@[k].id == viewer && match m.viewers@[k].selected_tab {
                Some(t) => !is_member(m, m.viewers@[k].workspace, t) && !retiring(m, m.viewers@[k].workspace),
                None => false,
            },
        Violation::FinishedBarrier { viewer } => exists|k: int|
            0 <= k < m.viewers@.len() && #[trigger] m.viewers@[k].id == viewer && match m.viewers@[k].barrier {
                Some(b) => !m.creations@.contains(b),
                None => false,
            },
    }
}

/// How a broken invariant is reported.
pub open spec fn violation_text(v: Violation) -> Seq<char> {
    match v {
        Violation::TabLayout { tab, error } => "tab "@ + digits(tab.0 as nat) + " layout: "@ + error@,
        Violation::TabWithoutWorkspace { tab } => "tab "@ + digits(tab.0 as nat) + " has no workspace"@,
        Violation::TabNotRegistered { tab } => "tab "@ + digits(tab.0 as nat) + " is not registered"@,
        Violation::PlaceholderShown { tab } => "tab "@ + digits(tab.0 as nat) + " exposes a placeholder pane"@,
        Violation::PaneInTwoLayouts { pane } => "pane "@ + digits(pane as nat) + " appears in two layouts"@,
        Violation::MissingPane { tab } => "tab "@ + digits(tab.0 as nat) + " references a missing pane"@,
        Violation::ForeignPane { pane } => "pane "@ + digits(pane.0 as nat) + " is in a foreign layout"@,
        Violation::StartingPaneShown { pane } => "starting pane "@ + digits(pane.0 as nat) + " is visible"@,
        Violation::EmptyMemberTab { tab } => "tab "@ + digits(tab.0 as nat) + " is empty but still a member"@,
        Violation::PaneNotRegistered { pane } => "pane "@ + digits(pane.0 as nat) + " is not registered"@,
        Violation::PaneWithoutTab { pane } => "pane "@ + digits(pane.0 as nat) + " has no tab"@,
        Violation::WorkspaceNotRegistered { name } => "workspace "@ + name@ + " is not registered"@,
        Violation::ForeignMemberTab { name } => "workspace "@ + name@ + " lists a foreign tab"@,
        Violation::ForeignSelectedTab { name } => "workspace "@ + name@ + " selects a foreign tab"@,
        Violation::ViewerNotRegistered { viewer } => "viewer "@ + digits(viewer.0 as nat) + " is not registered"@,
        Violation::ViewerWithoutWorkspace { viewer } => "viewer "@ + digits(viewer.0 as nat) + " has no workspace"@,
        Violation::ViewerOnForeignTab { viewer } => "viewer "@ + digits(viewer.0 as nat) + " shows a foreign tab"@,
        Violation::FinishedBarrier { viewer } => "viewer "@ + digits(viewer.0 as nat) + " waits on a finished creation"@,
    }
}

/// `head`, the decimal digits of `n`, then `tail`.
fn around_number(head: &str, n: u64, tail: &str) -> (s: String)
    ensures
        s@ == head@ + digits(n as nat) + tail@,
{
    let mut s = string_of(head);
    push_decimal(&mut s, n);
    push_str(&mut s, tail);
    s
}

/// `head`, `middle`, then `tail`.
fn around_text(head: &str, middle: &str, tail: &str) -> (s: String)
    ensures
        s@ == head@ + middle@ + tail@,
{
    let mut s = string_of(head);
    push_str(&mut s, middle);
    push_str(&mut s, tail);
    s
}

impl Violation {
    /// The report of this violation.
    pub fn message(&self) -> (s: String)
        ensures
            s@ == violation_text(*self),
    {
        match self {
            Violation::TabLayout { tab, error } => {
                let mut s = around_number("tab ", tab.0 as u64, " layout: ");
                push_str(&mut s, error.as_str());
                s
            },
            Violation::TabWithoutWorkspace { tab } => around_number("tab ", tab.0 as u64, " has no workspace"),
            Violation::TabNotRegistered { tab } => around_number("tab ", tab.0 as u64, " is not registered"),
            Violation::PlaceholderShown { tab } => around_number("tab ", tab.0 as u64, " exposes a placeholder pane"),
            Violation::PaneInTwoLayouts { pane } => around_number("pane ", *pane, " appears in two layouts"),
            Violation::MissingPane { tab } => around_number("tab ", tab.0 as u64, " references a missing pane"),
            Violation::ForeignPane { pane } => around_number("pane ", pane.0 as u64, " is in a foreign layout"),
            Violation::StartingPaneShown { pane } => around_number("starting pane ", pane.0 as u64, " is visible"),
            Violation::EmptyMemberTab { tab } => around_number("tab ", tab.0 as u64, " is empty but still a member"),
            Violation::PaneNotRegistered { pane } => around_number("pane ", pane.0 as u64, " is not registered"),
            Violation::PaneWithoutTab { pane } => around_number("pane ", pane.0 as u64, " has no tab"),
            Violation::WorkspaceNotRegistered { name } => around_text("workspace ", name.as_str(), " is not registered"),
            Violation::ForeignMemberTab { name } => around_text("workspace ", name.as_str(), " lists a foreign tab"),
            Violation::ForeignSelectedTab { name } => around_text("workspace ", name.as_str(), " selects a foreign tab"),
            Violation::ViewerNotRegistered { viewer } => around_number("viewer ", viewer.0, " is not registered"),
            Violation::ViewerWithoutWorkspace { viewer } => around_number("viewer ", viewer.0, " has no workspace"),
            Violation::ViewerOnForeignTab { viewer } => around_number("viewer ", viewer.0, " shows a foreign tab"),
            Violation::FinishedBarrier { viewer } => around_number("viewer ", viewer.0, " waits on a finished creation"),
        }
    }
}


fn find_pane(m: &SessionModel, e: Entity) -> (r: Option<usize>)
    ensures
        match r {
            Some(k) => k < m.panes@.len() && m.panes@[k as int].entity == e,
            None => forall|k: int| 0 <= k < m.panes@.len() ==> #[trigger] m.panes@[k].entity != e,
        },
{
    let mut k: usize = 0;
    while k < m.panes.len()
        invariant
            k <= m.panes@.len(),
            forall|j: int| 0 <= j < k ==> #[trigger] m.panes@[j].entity != e,
        decreases m.panes.len() - k,
    {
        if m.panes[k].entity == e {
            return Some(k);
        }
        k += 1;
    }
    None
}

fn find_tab(m: &SessionModel, e: Entity) -> (r: Option<usize>)
    ensures
        match r {
            Some(k) => k < m.tabs@.len() && m.tabs@[k as int].entity == e,
            None => forall|k: int| 0 <= k < m.tabs@.len() ==> #[trigger] m.tabs@[k].entity != e,
        },
{
    let mut k: usize = 0;
    while k < m.tabs.len()
        invariant
            k <= m.tabs@.len(),
            forall|j: int| 0 <= j < k ==> #[trigger] m.tabs@[j].entity != e,
        decreases m.tabs.len() - k,
    {
        if m.tabs[k].entity == e {
            return Some(k);
        }
        k += 1;
    }
    None
}

fn find_workspace(m: &SessionModel, e: Entity) -> (r: Option<usize>)
    ensures
        match r {
            Some(k) => k < m.workspaces@.len() && m.workspaces@[k as int].entity == e,
            None => forall|k: int| 0 <= k < m.workspaces@.len() ==> #[trigger] m.workspaces@[k].entity != e,
        },
{
    let mut k: usize = 0;
    while k < m.workspaces.len()
        invariant
            k <= m.workspaces@.len(),
            forall|j: int| 0 <= j < k ==> #[trigger] m.workspaces@[j].entity != e,
        decreases m.workspaces.len() - k,
    {
        if m.workspaces[k].entity == e {
            return Some(k);
        }
        k += 1;
    }
    None
}

fn holds(v: &Vec<Entity>, e: Entity) -> (r: bool)
    ensures
        r == v@.contains(e),
{
    let mut k: usize = 0;
    while k < v.len()
        invariant
            k <= v@.len(),
            forall|j: int| 0 <= j < k ==> v@[j] != e,
        decreases v.len() - k,
    {
        if v[k] == e {
            return true;
        }
        k += 1;
    }
    false
}

/// Whether the leaf at `a` of tab `i` stood in a layout before.
fn seen_earlier(m: &SessionModel, i: usize, a: usize) -> (r: bool)
    requires
        i < m.tabs@.len(),
        a < m.tabs@[i as int].leaves@.len(),
    ensures
        r == seen_before(*m, i as int, a as int),
{
    let l = m.tabs[i].leaves[a];
    let n = m.tabs.len();
    let mut j: usize = 0;
    while j <= i
        invariant
            i < n,
            n == m.tabs@.len(),
            a < m.tabs@[i as int].leaves@.len(),
            l == m.tabs@[i as int].leaves@[a as int],
            j <= i + 1,
            forall|jj: int, b: int|
                0 <= jj < j && 0 <= b < m.tabs@[jj].leaves@.len() && (jj < i || b < a) ==> #[trigger] m.tabs@[jj].leaves@[b]
                    != l,
        decreases i + 1 - j,
    {
        let lim = if j < i {
            m.tabs[j].leaves.len()
        } else {
            a
        };
        let mut b: usize = 0;
        while b < lim
            invariant
                i < m.tabs@.len(),
                j <= i,
                a < m.tabs@[i as int].leaves@.len(),
                l == m.tabs@[i as int].leaves@[a as int],
                lim <= m.tabs@[j as int].leaves@.len(),
                lim == (if j < i { m.tabs@[j as int].leaves@.len() } else { a as nat }),
                b <= lim,
                forall|bb: int| 0 <= bb < b ==> #[trigger] m.tabs@[j as int].leaves@[bb] != l,
            decreases lim - b,
        {
            if m.tabs[j].leaves[b] == l {
                assert(m.tabs@[j as int].leaves@[b as int] == m.tabs@[i as int].leaves@[a as int]);
                return true;
            }
            b += 1;
        }
        j += 1;
    }
    false
}

/// The first thing wrong with the leaf at `a` of tab `i`, if any.
fn leaf_violation(m: &SessionModel, i: usize, a: usize) -> (r: Option<Violation>)
    requires
        model_shaped(*m),
        i < m.tabs@.len(),
        a < m.tabs@[i as int].leaves@.len(),
    ensures
        r is None <==> leaf_ok(*m, i as int, a as int),
        match r {
            Some(v) => reported(*m, v),
            None => true,
        },
{
    let t = &m.tabs[i];
    let l = t.leaves[a];
    let member = match t.member_of {
        Some(w) => w == t.workspace,
        None => false,
    };
    if l == PLACEHOLDER {
        if member {
            return Some(Violation::PlaceholderShown { tab: t.id });
        }
        return None;
    }
    if seen_earlier(m, i, a) {
        return Some(Violation::PaneInTwoLayouts { pane: l });
    }
    match find_pane(m, l) {
        None => Some(Violation::MissingPane { tab: t.id }),
        Some(k) => {
            let p = &m.panes[k];
            if p.tab != t.entity {
                assert(leaf_pane_fails(*m, i as int, a as int, k as int, false));
                Some(Violation::ForeignPane { pane: p.id })
            } else if matches!(p.state, PaneState::Starting) {
                assert(leaf_pane_fails(*m, i as int, a as int, k as int, true));
                Some(Violation::StartingPaneShown { pane: p.id })
            } else {
                assert forall|q: int| 0 <= q < m.panes@.len() && #[trigger] m.panes@[q].entity == l implies m.panes@[q].tab
                    == t.entity && !(m.panes@[q].state is Starting) by {
                    if q != k {
                        if q < k {
                            assert(m.panes@[q].entity != m.panes@[k as int].entity);
                        } else {
                            assert(m.panes@[k as int].entity != m.panes@[q].entity);
                        }
                    }
                }
                None
            }
        },
    }
}


/// The first thing wrong with tab `i`, if any.
fn tab_violation(m: &SessionModel, i: usize) -> (r: Option<Violation>)
    requires
        model_shaped(*m),
        i < m.tabs@.len(),
    ensures
        r is None <==> tab_ok(*m, i as int),
        match r {
            Some(v) => reported(*m, v),
            None => true,
        },
{
    let t = &m.tabs[i];
    if let Some(e) = &t.layout_error {
        return Some(Violation::TabLayout { tab: t.id, error: string_of(e.as_str()) });
    }
    let wk = match find_workspace(m, t.workspace) {
        Some(wk) => wk,
        None => {
            return Some(Violation::TabWithoutWorkspace { tab: t.id });
        },
    };
    match m.ids.tabs.get(&t.id.0) {
        Some(x) => {
            if *x != t.entity {
                return Some(Violation::TabNotRegistered { tab: t.id });
            }
        },
        None => {
            return Some(Violation::TabNotRegistered { tab: t.id });
        },
    }
    let mut a: usize = 0;
    while a < t.leaves.len()
        invariant
            model_shaped(*m),
            i < m.tabs@.len(),
            *t == m.tabs@[i as int],
            a <= t.leaves@.len(),
            forall|b: int| 0 <= b < a ==> #[trigger] leaf_ok(*m, i as int, b),
        decreases t.leaves.len() - a,
    {
        let v = leaf_violation(m, i, a);
        if v.is_some() {
            return v;
        }
        a += 1;
    }
    let member = match t.member_of {
        Some(w) => w == t.workspace,
        None => false,
    };
    proof {
        assert forall|k: int| 0 <= k < m.workspaces@.len() && #[trigger] m.workspaces@[k].entity == t.workspace implies k
            == wk by {
            if k < wk {
                assert(m.workspaces@[k].entity != m.workspaces@[wk as int].entity);
            } else if k > wk {
                assert(m.workspaces@[wk as int].entity != m.workspaces@[k].entity);
            }
        }
    }
    if member && t.leaves.len() == 0 && !m.workspaces[wk].retiring {
        return Some(Violation::EmptyMemberTab { tab: t.id });
    }
    None
}

/// The first thing wrong with pane `k`, if any.
fn pane_violation(m: &SessionModel, k: usize) -> (r: Option<Violation>)
    requires
        k < m.panes@.len(),
    ensures
        r is None <==> pane_ok(*m, k as int),
        match r {
            Some(v) => reported(*m, v),
            None => true,
        },
{
    let p = &m.panes[k];
    match m.ids.panes.get(&p.id.0) {
        Some(x) => {
            if *x != p.entity {
                return Some(Violation::PaneNotRegistered { pane: p.id });
            }
        },
        None => {
            return Some(Violation::PaneNotRegistered { pane: p.id });
        },
    }
    if find_tab(m, p.tab).is_none() && !matches!(p.state, PaneState::Terminating { .. }) {
        return Some(Violation::PaneWithoutTab { pane: p.id });
    }
    None
}

/// Whether `name` is registered for the workspace `e`.
fn registered_workspace(m: &SessionModel, name: &String, e: Entity) -> (r: bool)
    ensures
        r == exists|q: int|
            0 <= q < m.ids.workspaces@.len() && #[trigger] m.ids.workspaces@[q].0@ == name@ && m.ids.workspaces@[q].1 == e,
{
    let mut q: usize = 0;
    while q < m.ids.workspaces.len()
        invariant
            q <= m.ids.workspaces@.len(),
            forall|j: int| 0 <= j < q ==> !(#[trigger] m.ids.workspaces@[j].0@ == name@ && m.ids.workspaces@[j].1 == e),
        decreases m.ids.workspaces.len() - q,
    {
        if m.ids.workspaces[q].1 == e && same_text(m.ids.workspaces[q].0.as_str(), name.as_str()) {
            return true;
        }
        q += 1;
    }
    false
}

/// The first thing wrong with workspace `k`, if any.
fn workspace_violation(m: &SessionModel, k: usize) -> (r: Option<Violation>)
    requires
        model_shaped(*m),
        k < m.workspaces@.len(),
    ensures
        r is None <==> workspace_ok(*m, k as int),
        match r {
            Some(v) => reported(*m, v),
            None => true,
        },
{
    let w = &m.workspaces[k];
    if !registered_workspace(m, &w.name, w.entity) {
        return Some(Violation::WorkspaceNotRegistered { name: string_of(w.name.as_str()) });
    }
    let mut a: usize = 0;
    while a < w.members.len()
        invariant
            model_shaped(*m),
            k < m.workspaces@.len(),
            *w == m.workspaces@[k as int],
            a <= w.members@.len(),
            forall|b: int| 0 <= b < a ==> member_tab_ok(*m, w.entity, #[trigger] w.members@[b]),
        decreases w.members.len() - a,
    {
        let member = w.members[a];
        match find_tab(m, member) {
            Some(j) => {
                if m.tabs[j].workspace != w.entity {
                    proof {
                        assert forall|q: int| 0 <= q < m.tabs@.len() && #[trigger] m.tabs@[q].entity == member implies m.tabs@[q].workspace
                            != w.entity by {
                            if q < j {
                                assert(m.tabs@[q].entity != m.tabs@[j as int].entity);
                            } else if q > j {
                                assert(m.tabs@[j as int].entity != m.tabs@[q].entity);
                            }
                        }
                    }
                    return Some(Violation::ForeignMemberTab { name: string_of(w.name.as_str()) });
                }
            },
            None => {
                return Some(Violation::ForeignMemberTab { name: string_of(w.name.as_str()) });
            },
        }
        a += 1;
    }
    if let Some(t) = w.selected_tab {
        if !holds(&w.members, t) && !w.retiring && w.open {
            return Some(Violation::ForeignSelectedTab { name: string_of(w.name.as_str()) });
        }
    }
    None
}

/// The first thing wrong with viewer `k`, if any.
fn viewer_violation(m: &SessionModel, k: usize) -> (r: Option<Violation>)
    requires
        model_shaped(*m),
        k < m.viewers@.len(),
    ensures
        r is None <==> viewer_ok(*m, k as int),
        match r {
            Some(v) => reported(*m, v),
            None => true,
        },
{
    let v = &m.viewers[k];
    match m.ids.viewers.get(&v.id.0) {
        Some(x) => {
            if *x != v.entity {
                return Some(Violation::ViewerNotRegistered { viewer: v.id });
            }
        },
        None => {
            return Some(Violation::ViewerNotRegistered { viewer: v.id });
        },
    }
    let wk = match find_workspace(m, v.workspace) {
        Some(wk) => wk,
        None => {
            return Some(Violation::ViewerWithoutWorkspace { viewer: v.id });
        },
    };
    proof {
        assert forall|q: int| 0 <= q < m.workspaces@.len() && #[trigger] m.workspaces@[q].entity == v.workspace implies q
            == wk by {
            if q < wk {
                assert(m.workspaces@[q].entity != m.workspaces@[wk as int].entity);
            } else if q > wk {
                assert(m.workspaces@[wk as int].entity != m.workspaces@[q].entity);
            }
        }
    }
    if let Some(t) = v.selected_tab {
        if !holds(&m.workspaces[wk].members, t) && !m.workspaces[wk].retiring {
            return Some(Violation::ViewerOnForeignTab { viewer: v.id });
        }
    }
    if let Some(b) = v.barrier {
        if !holds(&m.creations, b) {
            return Some(Violation::FinishedBarrier { viewer: v.id });
        }
    }
    None
}

impl SessionModel {
    /// The first broken invariant met: tabs, then panes, workspaces and
    /// viewers, each in order; nothing when all hold.
    pub fn first_violation(&self) -> (r: Option<Violation>)
        requires
            model_shaped(*self),
        ensures
            r is None <==> model_wf(*self),
            match r {
                Some(v) => reported(*self, v),
                None => true,
            },
    {
        let mut i: usize = 0;
        while i < self.tabs.len()
            invariant
                model_shaped(*self),
                i <= self.tabs@.len(),
                forall|j: int| 0 <= j < i ==> #[trigger] tab_ok(*self, j),
            decreases self.tabs.len() - i,
        {
            let v = tab_violation(self, i);
            if v.is_some() {
                return v;
            }
            i += 1;
        }
        let mut k: usize = 0;
        while k < self.panes.len()
            invariant
                model_shaped(*self),
                k <= self.panes@.len(),
                forall|j: int| 0 <= j < self.tabs@.len() ==> #[trigger] tab_ok(*self, j),
                forall|j: int| 0 <= j < k ==> #[trigger] pane_ok(*self, j),
            decreases self.panes.len() - k,
        {
            let v = pane_violation(self, k);
            if v.is_some() {
                return v;
            }
            k += 1;
        }
        let mut k: usize = 0;
        while k < self.workspaces.len()
            invariant
                model_shaped(*self),
                k <= self.workspaces@.len(),
                forall|j: int| 0 <= j < self.tabs@.len() ==> #[trigger] tab_ok(*self, j),
                forall|j: int| 0 <= j < self.panes@.len() ==> #[trigger] pane_ok(*self, j),
                forall|j: int| 0 <= j < k ==> #[trigger] workspace_ok(*self, j),
            decreases self.workspaces.len() - k,
        {
            let v = workspace_violation(self, k);
            if v.is_some() {
                return v;
            }
            k += 1;
        }
        let mut k: usize = 0;
        while k < self.viewers.len()
            invariant
                model_shaped(*self),
                k <= self.viewers@.len(),
                forall|j: int| 0 <= j < self.tabs@.len() ==> #[trigger] tab_ok(*self, j),
                forall|j: int| 0 <= j < self.panes@.len() ==> #[trigger] pane_ok(*self, j),
                forall|j: int| 0 <= j < self.workspaces@.len() ==> #[trigger] workspace_ok(*self, j),
                forall|j: int| 0 <= j < k ==> #[trigger] viewer_ok(*self, j),
            decreases self.viewers.len() - k,
        {
            let v = viewer_violation(self, k);
            if v.is_some() {
                return v;
            }
            k += 1;
        }
        None
    }

    /// Structural invariants that must hold after every step: `Ok` exactly
    /// when they all do, else the report of a broken one.
    pub fn check_invariants(&self) -> (r: Result<(), String>)
        requires
            model_shaped(*self),
        ensures
            r is Ok <==> model_wf(*self),
            match r {
                Ok(()) => true,
                Err(e) => exists|v: Violation| reported(*self, v) && e@ == violation_text(v),
            },
    {
        match self.first_violation() {
            Some(v) => {
                let e = v.message();
                Err(e)
            },
            None => Ok(()),
        }
    }
}


/// How many viewers of `vs` are attached to the workspace `w` and staying.
pub open spec fn attached_count(vs: Seq<ViewerRecord>, w: Entity) -> nat
    decreases vs.len(),
{
    if vs.len() == 0 {
        0
    } else {
        attached_count(vs.drop_last(), w) + if vs.last().workspace == w && !vs.last().detaching {
            1nat
        } else {
            0
        }
    }
}

/// The workspace registered under `name`, where one is.
pub open spec fn named(m: SessionModel, name: Seq<char>) -> Option<Entity> {
    if exists|q: int| 0 <= q < m.ids.workspaces@.len() && #[trigger] m.ids.workspaces@[q].0@ == name {
        let q = choose|q: int| 0 <= q < m.ids.workspaces@.len() && #[trigger] m.ids.workspaces@[q].0@ == name;
        Some(m.ids.workspaces@[q].1)
    } else {
        None
    }
}

/// Why a viewer may not attach to the workspace named `name`, if it may
/// not: no such workspace, one not open or retiring, or one that already
/// has `limit` viewers.
pub open spec fn attach_refusal(m: SessionModel, name: Seq<char>, limit: usize) -> Option<Seq<char>> {
    match named(m, name) {
        None => Some("workspace does not exist"@),
        Some(w) => if !has_workspace(m, w) {
            Some("workspace does not exist"@)
        } else {
            let k = choose|k: int| 0 <= k < m.workspaces@.len() && #[trigger] m.workspaces@[k].entity == w;
            if !m.workspaces@[k].open || m.workspaces@[k].retiring {
                Some("workspace is not accepting viewers"@)
            } else if attached_count(m.viewers@, w) >= limit {
                Some("viewer limit reached for this workspace"@)
            } else {
                None
            }
        },
    }
}

/// What `attach_viewer` does: refuse, leaving the session as it was, or
/// add the viewer and register it.
pub open spec fn attach_step(
    before: SessionModel,
    after: SessionModel,
    id: ViewerId,
    name: Seq<char>,
    rows: u16,
    cols: u16,
    entity: Entity,
    step: u64,
    limit: usize,
    r: Result<(), String>,
) -> bool {
    match attach_refusal(before, name, limit) {
        Some(reason) => r matches Err(e) && e@ == reason && after == before,
        None => {
            let w = named(before, name)->0;
            let k = choose|k: int|
                0 <= k < before.workspaces@.len() && #[trigger] before.workspaces@[k].entity == w;
            &&& r is Ok
            &&& after.viewers@ == before.viewers@.push(
                ViewerRecord {
                    entity,
                    id,
                    workspace: w,
                    rows,
                    cols,
                    selected_tab: before.workspaces@[k].selected_tab,
                    barrier: None,
                    detaching: false,
                },
            )
            &&& after.ids.viewers@ == before.ids.viewers@.insert(id.0, entity)
            &&& after.workspaces@.len() == before.workspaces@.len()
            &&& forall|j: int| 0 <= j < before.workspaces@.len() && j != k ==> #[trigger] after.workspaces@[j] == before.workspaces@[j]
            &&& after.workspaces@[k] == (WorkspaceRecord { last_attached: step, ..before.workspaces@[k] })
            &&& after.tabs == before.tabs
            &&& after.panes == before.panes
            &&& after.creations == before.creations
            &&& after.ids.panes == before.ids.panes
            &&& after.ids.tabs == before.ids.tabs
            &&& after.ids.workspaces == before.ids.workspaces
        },
    }
}

fn count_attached(m: &SessionModel, w: Entity) -> (n: usize)
    ensures
        n == attached_count(m.viewers@, w),
{
    let mut n: usize = 0;
    let mut k: usize = 0;
    while k < m.viewers.len()
        invariant
            k <= m.viewers@.len(),
            n == attached_count(m.viewers@.take(k as int), w),
            n <= k,
        decreases m.viewers.len() - k,
    {
        assert(m.viewers@.take(k + 1).drop_last() =~= m.viewers@.take(k as int));
        if m.viewers[k].workspace == w && !m.viewers[k].detaching {
            n += 1;
        }
        k += 1;
    }
    assert(m.viewers@.take(k as int) =~= m.viewers@);
    n
}

impl SessionModel {
    /// A viewer `id` asks to attach to the workspace named `workspace`.
    /// Refused for the reason `attach_refusal` gives, with nothing changed;
    /// else it becomes the viewer `entity`, `rows` by `cols`, registered
    /// under its id and showing what the workspace selects, and the
    /// workspace records `step` as its latest attachment.
    pub fn attach_viewer(
        &mut self,
        id: ViewerId,
        workspace: &str,
        rows: u16,
        cols: u16,
        entity: Entity,
        step: u64,
        limit: usize,
    ) -> (r: Result<(), String>)
        requires
            model_shaped(*old(self)),
        ensures
            attach_step(*old(self), *final(self), id, workspace@, rows, cols, entity, step, limit, r),
    {
        let ghost before = *self;
        let w = match self.ids.workspace(workspace) {
            Some(w) => w,
            None => {
                return Err(string_of("workspace does not exist"));
            },
        };
        proof {
            let q = choose|q: int| 0 <= q < before.ids.workspaces@.len() && #[trigger] before.ids.workspaces@[q].0@ == workspace@ && before.ids.workspaces@[q].1 == w;
            let c = choose|q: int| 0 <= q < before.ids.workspaces@.len() && #[trigger] before.ids.workspaces@[q].0@ == workspace@;
            if c < q {
                assert(before.ids.workspaces@[c].0@ != before.ids.workspaces@[q].0@);
            } else if c > q {
                assert(before.ids.workspaces@[q].0@ != before.ids.workspaces@[c].0@);
            }
            assert(named(before, workspace@) == Some(w));
        }
        let k = match find_workspace(self, w) {
            Some(k) => k,
            None => {
                return Err(string_of("workspace does not exist"));
            },
        };
        proof {
            let c = choose|c: int| 0 <= c < before.workspaces@.len() && #[trigger] before.workspaces@[c].entity == w;
            if c < k {
                assert(before.workspaces@[c].entity != before.workspaces@[k as int].entity);
            } else if c > k {
                assert(before.workspaces@[k as int].entity != before.workspaces@[c].entity);
            }
        }
        if !self.workspaces[k].open || self.workspaces[k].retiring {
            return Err(string_of("workspace is not accepting viewers"));
        }
        if count_attached(self, w) >= limit {
            return Err(string_of("viewer limit reached for this workspace"));
        }
        self.workspaces[k].last_attached = step;
        let selected_tab = self.workspaces[k].selected_tab;
        self.viewers.push(
            ViewerRecord {
                entity,
                id,
                workspace: w,
                rows,
                cols,
                selected_tab,
                barrier: None,
                detaching: false,
            },
        );
        self.ids.viewers.insert(id.0, entity);
        Ok(())
    }
}


/// Attaching a viewer keeps every invariant of the session, and its shape,
/// when the viewer's id and entity are new to it, as the session's
/// counters make them.
pub proof fn lemma_attach_keeps_wf(
    before: SessionModel,
    after: SessionModel,
    id: ViewerId,
    name: Seq<char>,
    rows: u16,
    cols: u16,
    entity: Entity,
    step: u64,
    limit: usize,
    r: Result<(), String>,
)
    requires
        model_shaped(before),
        model_wf(before),
        attach_step(before, after, id, name, rows, cols, entity, step, limit, r),
        !before.ids.viewers@.contains_key(id.0),
        forall|k: int| 0 <= k < before.viewers@.len() ==> #[trigger] before.viewers@[k].entity != entity,
    ensures
        model_shaped(after),
        model_wf(after),
{
    if attach_refusal(before, name, limit) is None {
        let w = named(before, name)->0;
        let k = choose|k: int| 0 <= k < before.workspaces@.len() && #[trigger] before.workspaces@[k].entity == w;
        assert(before.workspaces@[k].entity == w);
        assert forall|j: int| 0 <= j < after.workspaces@.len() implies #[trigger] after.workspaces@[j].entity
            == before.workspaces@[j].entity && after.workspaces@[j].retiring == before.workspaces@[j].retiring
            && after.workspaces@[j].members == before.workspaces@[j].members by {
            if j != k {
                assert(after.workspaces@[j] == before.workspaces@[j]);
            }
        }
        assert forall|e: Entity| has_workspace(after, e) == has_workspace(before, e) by {
            if has_workspace(before, e) {
                let j = choose|j: int| 0 <= j < before.workspaces@.len() && #[trigger] before.workspaces@[j].entity == e;
                assert(after.workspaces@[j].entity == e);
            }
            if has_workspace(after, e) {
                let j = choose|j: int| 0 <= j < after.workspaces@.len() && #[trigger] after.workspaces@[j].entity == e;
                assert(before.workspaces@[j].entity == e);
            }
        }
        assert forall|e: Entity| retiring(after, e) == retiring(before, e) by {
            if retiring(before, e) {
                let j = choose|j: int| 0 <= j < before.workspaces@.len() && #[trigger] before.workspaces@[j].entity == e && before.workspaces@[j].retiring;
                assert(after.workspaces@[j].entity == e);
            }
            if retiring(after, e) {
                let j = choose|j: int| 0 <= j < after.workspaces@.len() && #[trigger] after.workspaces@[j].entity == e && after.workspaces@[j].retiring;
                assert(before.workspaces@[j].entity == e);
            }
        }
        assert forall|e: Entity, t: Entity| is_member(after, e, t) == is_member(before, e, t) by {
            if is_member(before, e, t) {
                let j = choose|j: int| 0 <= j < before.workspaces@.len() && #[trigger] before.workspaces@[j].entity == e && before.workspaces@[j].members@.contains(t);
                assert(after.workspaces@[j].entity == e);
            }
            if is_member(after, e, t) {
                let j = choose|j: int| 0 <= j < after.workspaces@.len() && #[trigger] after.workspaces@[j].entity == e && after.workspaces@[j].members@.contains(t);
                assert(before.workspaces@[j].entity == e);
            }
        }
        assert forall|i: int| 0 <= i < after.tabs@.len() implies #[trigger] tab_ok(after, i) by {
            assert(tab_ok(before, i));
            let t = before.tabs@[i];
            assert forall|a: int| 0 <= a < t.leaves@.len() implies #[trigger] leaf_ok(after, i, a) by {
                assert(leaf_ok(before, i, a));
                assert(seen_before(after, i, a) == seen_before(before, i, a));
            }
        }
        assert forall|q: int| 0 <= q < after.panes@.len() implies #[trigger] pane_ok(after, q) by {
            assert(pane_ok(before, q));
        }
        assert forall|j: int| 0 <= j < after.workspaces@.len() implies #[trigger] workspace_ok(after, j) by {
            assert(workspace_ok(before, j));
            assert forall|a: int| 0 <= a < after.workspaces@[j].members@.len() implies member_tab_ok(
                after,
                after.workspaces@[j].entity,
                #[trigger] after.workspaces@[j].members@[a],
            ) by {
                assert(member_tab_ok(before, before.workspaces@[j].entity, before.workspaces@[j].members@[a]));
            }
            if j == k {
                assert(workspace_ok(before, k));
            }
        }
        assert forall|q: int| 0 <= q < after.viewers@.len() implies #[trigger] viewer_ok(after, q) by {
            if q < before.viewers@.len() {
                assert(after.viewers@[q] == before.viewers@[q]);
                assert(viewer_ok(before, q));
                let v = before.viewers@[q];
                assert(v.id.0 != id.0);
            } else {
                assert(workspace_ok(before, k));
                let v = after.viewers@[q];
                assert(has_workspace(before, w));
                match v.selected_tab {
                    Some(t) => {
                        assert(before.workspaces@[k].members@.contains(t));
                        assert(is_member(before, w, t));
                    },
                    None => {},
                }
            }
        }
        assert forall|a: int, b: int| 0 <= a < b < after.viewers@.len() implies #[trigger] after.viewers@[a].entity
            != #[trigger] after.viewers@[b].entity by {
            if b < before.viewers@.len() {
                assert(after.viewers@[a] == before.viewers@[a] && after.viewers@[b] == before.viewers@[b]);
            } else {
                assert(after.viewers@[a] == before.viewers@[a]);
            }
        }
        assert forall|a: int, b: int| 0 <= a < b < after.workspaces@.len() implies #[trigger] after.workspaces@[a].entity
            != #[trigger] after.workspaces@[b].entity by {
            assert(after.workspaces@[a].entity == before.workspaces@[a].entity);
            assert(after.workspaces@[b].entity == before.workspaces@[b].entity);
        }
    }
}


/// The viewers of `vs` but those that are the entity `e`, in order.
pub open spec fn without_entity(vs: Seq<ViewerRecord>, e: Entity) -> Seq<ViewerRecord>
    decreases vs.len(),
{
    if vs.len() == 0 {
        Seq::empty()
    } else if vs.last().entity == e {
        without_entity(vs.drop_last(), e)
    } else {
        without_entity(vs.drop_last(), e).push(vs.last())
    }
}

/// The record of the viewer that is the entity `e`, if there is one.
pub open spec fn has_viewer(m: SessionModel, e: Entity) -> bool {
    exists|k: int| 0 <= k < m.viewers@.len() && #[trigger] m.viewers@[k].entity == e
}

/// What `viewer_gone` does: the viewer registered under `id`, where there
/// is one, leaves, and its id is released; the workspace it was on is
/// handed back. Anything else leaves the session as it was.
pub open spec fn gone_step(before: SessionModel, after: SessionModel, id: ViewerId, r: Option<Entity>) -> bool {
    match registered_under(before.ids.viewers@, id.0) {
        Some(e) => if has_viewer(before, e) {
            let k = choose|k: int| 0 <= k < before.viewers@.len() && #[trigger] before.viewers@[k].entity == e;
            &&& r == Some(before.viewers@[k].workspace)
            &&& after.viewers@ == without_entity(before.viewers@, e)
            &&& after.ids.viewers@ == before.ids.viewers@.remove(id.0)
            &&& after.workspaces == before.workspaces
            &&& after.tabs == before.tabs
            &&& after.panes == before.panes
            &&& after.creations == before.creations
            &&& after.ids.panes == before.ids.panes
            &&& after.ids.tabs == before.ids.tabs
            &&& after.ids.workspaces == before.ids.workspaces
        } else {
            r is None && after == before
        },
        None => r is None && after == before,
    }
}

proof fn lemma_without_entity(vs: Seq<ViewerRecord>, e: Entity)
    ensures
        forall|k: int| 0 <= k < without_entity(vs, e).len() ==> (#[trigger] without_entity(vs, e)[k]).entity != e
            && vs.contains(without_entity(vs, e)[k]),
        forall|k: int| 0 <= k < vs.len() && (#[trigger] vs[k]).entity != e ==> without_entity(vs, e).contains(vs[k]),
    decreases vs.len(),
{
    if vs.len() > 0 {
        let init = vs.drop_last();
        lemma_without_entity(init, e);
        assert forall|k: int| 0 <= k < without_entity(vs, e).len() implies (#[trigger] without_entity(vs, e)[k]).entity
            != e && vs.contains(without_entity(vs, e)[k]) by {
            if k < without_entity(init, e).len() {
                assert(without_entity(vs, e)[k] == without_entity(init, e)[k]);
                let x = without_entity(init, e)[k];
                let j = choose|j: int| 0 <= j < init.len() && init[j] == x;
                assert(vs[j] == x);
            } else {
                assert(without_entity(vs, e)[k] == vs.last());
                assert(vs[vs.len() - 1] == vs.last());
            }
        }
        assert forall|k: int| 0 <= k < vs.len() && (#[trigger] vs[k]).entity != e implies without_entity(vs, e).contains(vs[k]) by {
            if k < vs.len() - 1 {
                assert(init[k] == vs[k]);
                assert(without_entity(init, e).contains(init[k]));
                let j = choose|j: int| 0 <= j < without_entity(init, e).len() && without_entity(init, e)[j] == init[k];
                assert(without_entity(vs, e)[j] == init[k]);
            } else {
                let n = without_entity(init, e).len() as int;
                assert(without_entity(vs, e)[n] == vs.last());
            }
        }
    }
}

fn find_viewer(m: &SessionModel, e: Entity) -> (r: Option<usize>)
    ensures
        match r {
            Some(k) => k < m.viewers@.len() && m.viewers@[k as int].entity == e,
            None => forall|k: int| 0 <= k < m.viewers@.len() ==> #[trigger] m.viewers@[k].entity != e,
        },
{
    let mut k: usize = 0;
    while k < m.viewers.len()
        invariant
            k <= m.viewers@.len(),
            forall|j: int| 0 <= j < k ==> #[trigger] m.viewers@[j].entity != e,
        decreases m.viewers.len() - k,
    {
        if m.viewers[k].entity == e {
            return Some(k);
        }
        k += 1;
    }
    None
}

impl SessionModel {
    /// The viewer `id` went away: its record leaves, its id is released,
    /// and the workspace it was on is returned for the detach event.
    pub fn viewer_gone(&mut self, id: ViewerId) -> (r: Option<Entity>)
        requires
            model_shaped(*old(self)),
        ensures
            gone_step(*old(self), *final(self), id, r),
    {
        let ghost before = *self;
        let e = match self.ids.viewer(id) {
            Some(e) => e,
            None => {
                return None;
            },
        };
        let k = match find_viewer(self, e) {
            Some(k) => k,
            None => {
                return None;
            },
        };
        proof {
            let c = choose|c: int| 0 <= c < before.viewers@.len() && #[trigger] before.viewers@[c].entity == e;
            if c < k {
                assert(before.viewers@[c].entity != before.viewers@[k as int].entity);
            } else if c > k {
                assert(before.viewers@[k as int].entity != before.viewers@[c].entity);
            }
        }
        let workspace = self.viewers[k].workspace;
        let mut kept: Vec<ViewerRecord> = Vec::new();
        let mut q: usize = 0;
        while q < self.viewers.len()
            invariant
                *self == before,
                q <= self.viewers@.len(),
                kept@ == without_entity(self.viewers@.take(q as int), e),
            decreases self.viewers.len() - q,
        {
            assert(self.viewers@.take(q + 1).drop_last() =~= self.viewers@.take(q as int));
            let v = self.viewers[q];
            if v.entity != e {
                kept.push(v);
            }
            q += 1;
        }
        assert(self.viewers@.take(q as int) =~= self.viewers@);
        self.viewers = kept;
        self.ids.viewers.remove(&id.0);
        Some(workspace)
    }
}


proof fn lemma_without_entity_distinct(vs: Seq<ViewerRecord>, e: Entity)
    requires
        forall|a: int, b: int| 0 <= a < b < vs.len() ==> #[trigger] vs[a].entity != #[trigger] vs[b].entity,
    ensures
        forall|a: int, b: int|
            0 <= a < b < without_entity(vs, e).len() ==> #[trigger] without_entity(vs, e)[a].entity
                != #[trigger] without_entity(vs, e)[b].entity,
    decreases vs.len(),
{
    if vs.len() > 0 {
        let init = vs.drop_last();
        lemma_without_entity_distinct(init, e);
        lemma_without_entity(init, e);
        let w = without_entity(vs, e);
        let wi = without_entity(init, e);
        if vs.last().entity != e {
            assert forall|a: int, b: int| 0 <= a < b < w.len() implies #[trigger] w[a].entity != #[trigger] w[b].entity by {
                assert(w[a] == wi[a]);
                if b < wi.len() {
                    assert(w[b] == wi[b]);
                } else {
                    let x = wi[a];
                    assert(init.contains(x));
                    let j = choose|j: int| 0 <= j < init.len() && init[j] == x;
                    assert(vs[j] == x);
                    assert(w[b] == vs[vs.len() - 1]);
                }
            }
        }
    }
}

/// A viewer's leaving keeps every invariant of the session, and its shape.
pub proof fn lemma_gone_keeps_wf(before: SessionModel, after: SessionModel, id: ViewerId, r: Option<Entity>)
    requires
        model_shaped(before),
        model_wf(before),
        gone_step(before, after, id, r),
    ensures
        model_shaped(after),
        model_wf(after),
{
    match registered_under(before.ids.viewers@, id.0) {
        Some(e) => if has_viewer(before, e) {
            lemma_without_entity(before.viewers@, e);
            lemma_without_entity_distinct(before.viewers@, e);
            assert forall|i: int| 0 <= i < after.tabs@.len() implies #[trigger] tab_ok(after, i) by {
                assert(tab_ok(before, i));
                let t = before.tabs@[i];
                assert forall|a: int| 0 <= a < t.leaves@.len() implies #[trigger] leaf_ok(after, i, a) by {
                    assert(leaf_ok(before, i, a));
                    assert(seen_before(after, i, a) == seen_before(before, i, a));
                }
            }
            assert forall|q: int| 0 <= q < after.panes@.len() implies #[trigger] pane_ok(after, q) by {
                assert(pane_ok(before, q));
            }
            assert forall|j: int| 0 <= j < after.workspaces@.len() implies #[trigger] workspace_ok(after, j) by {
                assert(workspace_ok(before, j));
                assert forall|a: int| 0 <= a < after.workspaces@[j].members@.len() implies member_tab_ok(
                    after,
                    after.workspaces@[j].entity,
                    #[trigger] after.workspaces@[j].members@[a],
                ) by {
                    assert(member_tab_ok(before, before.workspaces@[j].entity, before.workspaces@[j].members@[a]));
                }
            }
            assert forall|q: int| 0 <= q < after.viewers@.len() implies #[trigger] viewer_ok(after, q) by {
                let v = after.viewers@[q];
                assert(before.viewers@.contains(v));
                let p = choose|p: int| 0 <= p < before.viewers@.len() && before.viewers@[p] == v;
                assert(viewer_ok(before, p));
                assert(v.entity != e);
                assert(v.id.0 != id.0);
                assert(has_workspace(after, v.workspace) == has_workspace(before, v.workspace));
                match v.selected_tab {
                    Some(t) => {
                        assert(is_member(after, v.workspace, t) == is_member(before, v.workspace, t));
                        assert(retiring(after, v.workspace) == retiring(before, v.workspace));
                    },
                    None => {},
                }
            }
        },
        None => {},
    }
}


/// Whether the pane `p` sits in a tab of the workspace `w`.
pub open spec fn in_workspace(m: SessionModel, p: PaneRecord, w: Entity) -> bool {
    exists|j: int| 0 <= j < m.tabs@.len() && #[trigger] m.tabs@[j].entity == p.tab && m.tabs@[j].workspace == w
}

/// How many of the panes `ps` sit in a tab of the workspace `w`.
pub open spec fn panes_in_workspace(m: SessionModel, ps: Seq<PaneRecord>, w: Entity) -> nat
    decreases ps.len(),
{
    if ps.len() == 0 {
        0
    } else {
        panes_in_workspace(m, ps.drop_last(), w) + if in_workspace(m, ps.last(), w) {
            1nat
        } else {
            0
        }
    }
}

/// The entities of the viewers of `vs` that stay and that `keep` picks,
/// in order.
pub open spec fn viewers_where(vs: Seq<ViewerRecord>, keep: spec_fn(ViewerRecord) -> bool) -> Seq<Entity>
    decreases vs.len(),
{
    if vs.len() == 0 {
        Seq::empty()
    } else if keep(vs.last()) && !vs.last().detaching {
        viewers_where(vs.drop_last(), keep).push(vs.last().entity)
    } else {
        viewers_where(vs.drop_last(), keep)
    }
}

/// The pane a selection focuses in the tab `t`, if its layout holds it,
/// else the tab's first leaf.
pub open spec fn focus_in(sel: SelectionView, t: TabRecord) -> Option<Entity> {
    if sel.focus.contains_key(t.entity) && t.leaves@.contains(sel.focus[t.entity]) {
        Some(sel.focus[t.entity])
    } else if t.leaves@.len() > 0 {
        Some(t.leaves@[0])
    } else {
        None
    }
}

impl SessionModel {
    /// The tab of the pane `pane`, if there is such a pane.
    pub fn pane_tab(&self, pane: Entity) -> (r: Option<Entity>)
        ensures
            match r {
                Some(t) => exists|k: int| 0 <= k < self.panes@.len() && #[trigger] self.panes@[k].entity == pane && self.panes@[k].tab == t,
                None => forall|k: int| 0 <= k < self.panes@.len() ==> #[trigger] self.panes@[k].entity != pane,
            },
    {
        match find_pane(self, pane) {
            Some(k) => Some(self.panes[k].tab),
            None => None,
        }
    }

    /// The workspace of the tab `tab`, if there is such a tab.
    pub fn tab_workspace(&self, tab: Entity) -> (r: Option<Entity>)
        ensures
            match r {
                Some(w) => exists|k: int| 0 <= k < self.tabs@.len() && #[trigger] self.tabs@[k].entity == tab && self.tabs@[k].workspace == w,
                None => forall|k: int| 0 <= k < self.tabs@.len() ==> #[trigger] self.tabs@[k].entity != tab,
            },
    {
        match find_tab(self, tab) {
            Some(k) => Some(self.tabs[k].workspace),
            None => None,
        }
    }

    /// The workspace a pane belongs to, through its tab.
    pub fn pane_workspace(&self, pane: Entity) -> (r: Option<Entity>)
        requires
            model_shaped(*self),
        ensures
            match r {
                Some(w) => exists|k: int| 0 <= k < self.panes@.len() && #[trigger] self.panes@[k].entity == pane
                    && in_workspace(*self, self.panes@[k], w),
                None => forall|k: int| 0 <= k < self.panes@.len() && #[trigger] self.panes@[k].entity == pane
                    ==> !has_tab(*self, self.panes@[k].tab),
            },
    {
        let k = match find_pane(self, pane) {
            Some(k) => k,
            None => {
                return None;
            },
        };
        proof {
            assert forall|q: int| 0 <= q < self.panes@.len() && #[trigger] self.panes@[q].entity == pane implies q == k by {
                if q < k {
                    assert(self.panes@[q].entity != self.panes@[k as int].entity);
                } else if q > k {
                    assert(self.panes@[k as int].entity != self.panes@[q].entity);
                }
            }
        }
        match find_tab(self, self.panes[k].tab) {
            Some(j) => Some(self.tabs[j].workspace),
            None => None,
        }
    }

    /// Whether `pane` is a leaf of its tab's layout (visible somewhere).
    pub fn pane_in_layout(&self, pane: Entity) -> (r: bool)
        requires
            model_shaped(*self),
        ensures
            r == exists|k: int, j: int|
                0 <= k < self.panes@.len() && 0 <= j < self.tabs@.len() && #[trigger] self.panes@[k].entity == pane
                    && #[trigger] self.tabs@[j].entity == self.panes@[k].tab && self.tabs@[j].leaves@.contains(pane),
    {
        let k = match find_pane(self, pane) {
            Some(k) => k,
            None => {
                return false;
            },
        };
        let j = match find_tab(self, self.panes[k].tab) {
            Some(j) => j,
            None => {
                return false;
            },
        };
        let r = holds(&self.tabs[j].leaves, pane);
        proof {
            if !r {
                assert forall|a: int, b: int|
                    0 <= a < self.panes@.len() && 0 <= b < self.tabs@.len() && #[trigger] self.panes@[a].entity == pane
                        && #[trigger] self.tabs@[b].entity == self.panes@[a].tab implies !self.tabs@[b].leaves@.contains(pane) by {
                    if a < k {
                        assert(self.panes@[a].entity != self.panes@[k as int].entity);
                    } else if a > k {
                        assert(self.panes@[k as int].entity != self.panes@[a].entity);
                    }
                    if b < j {
                        assert(self.tabs@[b].entity != self.tabs@[j as int].entity);
                    } else if b > j {
                        assert(self.tabs@[j as int].entity != self.tabs@[b].entity);
                    }
                }
            }
        }
        r
    }

    /// How many panes sit in tabs of the workspace `workspace`.
    pub fn live_panes_in_workspace(&self, workspace: Entity) -> (n: usize)
        requires
            model_shaped(*self),
        ensures
            n == panes_in_workspace(*self, self.panes@, workspace),
    {
        let mut n: usize = 0;
        let mut k: usize = 0;
        while k < self.panes.len()
            invariant
                model_shaped(*self),
                k <= self.panes@.len(),
                n == panes_in_workspace(*self, self.panes@.take(k as int), workspace),
                n <= k,
            decreases self.panes.len() - k,
        {
            assert(self.panes@.take(k + 1).drop_last() =~= self.panes@.take(k as int));
            let inside = match find_tab(self, self.panes[k].tab) {
                Some(j) => {
                    proof {
                        assert forall|q: int| 0 <= q < self.tabs@.len() && #[trigger] self.tabs@[q].entity == self.panes@[k as int].tab implies q == j by {
                            if q < j {
                                assert(self.tabs@[q].entity != self.tabs@[j as int].entity);
                            } else if q > j {
                                assert(self.tabs@[j as int].entity != self.tabs@[q].entity);
                            }
                        }
                    }
                    self.tabs[j].workspace == workspace
                },
                None => false,
            };
            assert(inside == in_workspace(*self, self.panes@[k as int], workspace));
            if inside {
                n += 1;
            }
            k += 1;
        }
        assert(self.panes@.take(k as int) =~= self.panes@);
        n
    }

    /// The viewers attached to the workspace `workspace` and staying.
    pub fn viewers_of_workspace(&self, workspace: Entity) -> (r: Vec<Entity>)
        ensures
            r@ == viewers_where(self.viewers@, |v: ViewerRecord| v.workspace == workspace),
    {
        let ghost keep = |v: ViewerRecord| v.workspace == workspace;
        let mut r: Vec<Entity> = Vec::new();
        let mut k: usize = 0;
        while k < self.viewers.len()
            invariant
                k <= self.viewers@.len(),
                keep == (|v: ViewerRecord| v.workspace == workspace),
                r@ == viewers_where(self.viewers@.take(k as int), keep),
            decreases self.viewers.len() - k,
        {
            assert(self.viewers@.take(k + 1).drop_last() =~= self.viewers@.take(k as int));
            let v = self.viewers[k];
            if v.workspace == workspace && !v.detaching {
                r.push(v.entity);
            }
            k += 1;
        }
        assert(self.viewers@.take(k as int) =~= self.viewers@);
        r
    }

    /// The viewers showing the tab `tab` and staying.
    pub fn viewers_on_tab(&self, tab: Entity) -> (r: Vec<Entity>)
        ensures
            r@ == viewers_where(self.viewers@, |v: ViewerRecord| v.selected_tab == Some(tab)),
    {
        let ghost keep = |v: ViewerRecord| v.selected_tab == Some(tab);
        let mut r: Vec<Entity> = Vec::new();
        let mut k: usize = 0;
        while k < self.viewers.len()
            invariant
                k <= self.viewers@.len(),
                keep == (|v: ViewerRecord| v.selected_tab == Some(tab)),
                r@ == viewers_where(self.viewers@.take(k as int), keep),
            decreases self.viewers.len() - k,
        {
            assert(self.viewers@.take(k + 1).drop_last() =~= self.viewers@.take(k as int));
            let v = self.viewers[k];
            let shows = match v.selected_tab {
                Some(t) => t == tab,
                None => false,
            };
            if shows && !v.detaching {
                r.push(v.entity);
            }
            k += 1;
        }
        assert(self.viewers@.take(k as int) =~= self.viewers@);
        r
    }

    /// The pane a selection focuses in `tab`, falling back to the tab's
    /// first leaf; nothing where there is no such tab.
    pub fn focus_in_tab(&self, selection: &Selection, tab: Entity) -> (r: Option<Entity>)
        requires
            model_shaped(*self),
        ensures
            match r {
                Some(p) => exists|j: int| 0 <= j < self.tabs@.len() && #[trigger] self.tabs@[j].entity == tab
                    && focus_in(selection@, self.tabs@[j]) == Some(p),
                None => forall|j: int| 0 <= j < self.tabs@.len() && #[trigger] self.tabs@[j].entity == tab
                    ==> focus_in(selection@, self.tabs@[j]) is None,
            },
    {
        let j = match find_tab(self, tab) {
            Some(j) => j,
            None => {
                return None;
            },
        };
        proof {
            assert forall|q: int| 0 <= q < self.tabs@.len() && #[trigger] self.tabs@[q].entity == tab implies q == j by {
                if q < j {
                    assert(self.tabs@[q].entity != self.tabs@[j as int].entity);
                } else if q > j {
                    assert(self.tabs@[j as int].entity != self.tabs@[q].entity);
                }
            }
        }
        let t = &self.tabs[j];
        if let Some(p) = selection.focus.get(&tab) {
            if holds(&t.leaves, *p) {
                return Some(*p);
            }
        }
        if t.leaves.len() > 0 {
            Some(t.leaves[0])
        } else {
            None
        }
    }
}


} // verus!
