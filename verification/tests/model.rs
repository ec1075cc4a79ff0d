use fux::ids::{PaneId, TabId, ViewerId};
use fux::model::{
    PaneRecord, PaneState, Registered, Selection, SessionModel, TabRecord, ViewerRecord, Violation,
    WorkspaceRecord, PLACEHOLDER,
};
use std::collections::BTreeMap;

#[test]
fn selection_focuses_per_tab_and_forgets_a_closed_tab() {
    let mut s = Selection::default();
    assert_eq!(s.focused(), None);
    s.select(10, Some(20));
    assert_eq!(s.tab, Some(10));
    assert_eq!(s.focused(), Some(20));
    s.select(11, None);
    assert_eq!(s.focused(), None);
    s.set_focus(11, 21);
    assert_eq!(s.focused(), Some(21));
    s.retarget(11, Some(22));
    assert_eq!(s.focused(), Some(22));
    s.retarget(11, None);
    assert_eq!(s.focused(), None);
    assert_eq!(s.tab, Some(11));
    s.forget_tab(10);
    assert_eq!(s.tab, Some(11));
    assert!(!s.focus.contains_key(&10));
    s.forget_tab(11);
    assert_eq!(s.tab, None);
}

#[test]
fn pane_states_carry_a_pid_only_while_there_is_a_process() {
    assert_eq!(PaneState::Starting.pid(), None);
    assert_eq!(PaneState::Live { pid: 7 }.pid(), Some(7));
    assert_eq!(PaneState::Eof { pid: 8 }.pid(), Some(8));
    assert_eq!(PaneState::Terminating { pid: 9, since_ms: 1 }.pid(), Some(9));
    assert_eq!(PaneState::Exited { code: 3 }.pid(), None);
    assert_eq!(PaneState::Exited { code: 3 }.exit_code(), Some(3));
    assert_eq!(PaneState::Live { pid: 7 }.exit_code(), None);
    assert!(PaneState::Live { pid: 7 }.accepts_input());
    assert!(!PaneState::Eof { pid: 7 }.accepts_input());
    assert!(!PaneState::Starting.accepts_input());
}

/// One workspace (entity 1, "main") with one tab (entity 2, id 1) holding
/// two live panes (entities 3 and 4, ids 1 and 2), and one viewer (entity
/// 5, id 1) on that tab.
fn session() -> SessionModel {
    let mut panes = BTreeMap::new();
    panes.insert(1u32, 3u64);
    panes.insert(2u32, 4u64);
    let mut tabs = BTreeMap::new();
    tabs.insert(1u32, 2u64);
    let mut viewers = BTreeMap::new();
    viewers.insert(1u64, 5u64);
    SessionModel {
        workspaces: vec![WorkspaceRecord {
            entity: 1,
            name: "main".into(),
            selected_tab: Some(2),
            open: true,
            retiring: false,
            members: vec![2],
            last_attached: 0,
        }],
        tabs: vec![TabRecord {
            entity: 2,
            id: TabId(1),
            workspace: 1,
            member_of: Some(1),
            leaves: vec![3, 4],
            layout_error: None,
        }],
        panes: vec![
            PaneRecord { entity: 3, id: PaneId(1), tab: 2, state: PaneState::Live { pid: 100 } },
            PaneRecord { entity: 4, id: PaneId(2), tab: 2, state: PaneState::Live { pid: 101 } },
        ],
        viewers: vec![ViewerRecord {
            entity: 5,
            id: ViewerId(1),
            workspace: 1,
            rows: 24,
            cols: 80,
            selected_tab: Some(2),
            barrier: None,
            detaching: false,
        }],
        creations: vec![],
        ids: Registered { panes, tabs, viewers, workspaces: vec![("main".into(), 1)] },
    }
}

#[test]
fn a_consistent_session_passes_every_check() {
    let s = session();
    assert_eq!(s.first_violation(), None);
    assert_eq!(s.check_invariants(), Ok(()));
}

#[test]
fn a_pane_in_two_layouts_is_reported() {
    let mut s = session();
    s.tabs[0].leaves = vec![3, 4, 3];
    assert_eq!(s.first_violation(), Some(Violation::PaneInTwoLayouts { pane: 3 }));
    assert_eq!(s.check_invariants(), Err("pane 3 appears in two layouts".into()));
}

#[test]
fn a_member_tab_may_not_show_a_placeholder_but_a_reserved_one_may() {
    let mut s = session();
    s.tabs[0].leaves = vec![PLACEHOLDER];
    assert_eq!(s.check_invariants(), Err("tab 1 exposes a placeholder pane".into()));
    s.tabs[0].member_of = None;
    s.workspaces[0].members = vec![];
    s.workspaces[0].selected_tab = None;
    s.viewers[0].selected_tab = None;
    assert_eq!(s.check_invariants(), Ok(()));
}

#[test]
fn a_starting_or_foreign_pane_in_a_layout_is_reported() {
    let mut s = session();
    s.panes[1].state = PaneState::Starting;
    assert_eq!(s.check_invariants(), Err("starting pane 2 is visible".into()));
    let mut s = session();
    s.panes[1].tab = 9;
    assert_eq!(s.check_invariants(), Err("pane 2 is in a foreign layout".into()));
    let mut s = session();
    s.tabs[0].leaves = vec![3, 8];
    assert_eq!(s.check_invariants(), Err("tab 1 references a missing pane".into()));
}

#[test]
fn layout_and_registration_faults_are_reported() {
    let mut s = session();
    s.tabs[0].layout_error = Some("split with one child".into());
    assert_eq!(s.check_invariants(), Err("tab 1 layout: split with one child".into()));
    let mut s = session();
    s.ids.tabs.clear();
    assert_eq!(s.check_invariants(), Err("tab 1 is not registered".into()));
    let mut s = session();
    s.ids.panes.insert(2, 3);
    assert_eq!(s.check_invariants(), Err("pane 2 is not registered".into()));
    let mut s = session();
    s.ids.workspaces = vec![("other".into(), 1)];
    assert_eq!(s.check_invariants(), Err("workspace main is not registered".into()));
    let mut s = session();
    s.ids.viewers.clear();
    assert_eq!(s.check_invariants(), Err("viewer 1 is not registered".into()));
}

#[test]
fn an_empty_member_tab_is_reported_unless_its_workspace_retires() {
    let mut s = session();
    s.tabs[0].leaves = vec![];
    s.panes[0].state = PaneState::Terminating { pid: 1, since_ms: 0 };
    s.panes[1].state = PaneState::Terminating { pid: 2, since_ms: 0 };
    assert_eq!(s.check_invariants(), Err("tab 1 is empty but still a member".into()));
    s.workspaces[0].retiring = true;
    assert_eq!(s.check_invariants(), Ok(()));
}

#[test]
fn only_a_terminating_pane_outlives_its_tab() {
    let mut s = session();
    s.panes.push(PaneRecord { entity: 6, id: PaneId(3), tab: 9, state: PaneState::Eof { pid: 1 } });
    s.ids.panes.insert(3, 6);
    assert_eq!(s.check_invariants(), Err("pane 3 has no tab".into()));
    s.panes[2].state = PaneState::Terminating { pid: 1, since_ms: 5 };
    assert_eq!(s.check_invariants(), Ok(()));
}

#[test]
fn workspace_and_viewer_selections_must_be_members() {
    let mut s = session();
    s.workspaces[0].selected_tab = Some(9);
    assert_eq!(s.check_invariants(), Err("workspace main selects a foreign tab".into()));
    s.workspaces[0].open = false;
    assert_eq!(s.check_invariants(), Ok(()));
    let mut s = session();
    s.workspaces[0].members = vec![2, 9];
    assert_eq!(s.check_invariants(), Err("workspace main lists a foreign tab".into()));
    let mut s = session();
    s.viewers[0].selected_tab = Some(9);
    assert_eq!(s.check_invariants(), Err("viewer 1 shows a foreign tab".into()));
    let mut s = session();
    s.viewers[0].workspace = 9;
    assert_eq!(s.check_invariants(), Err("viewer 1 has no workspace".into()));
    let mut s = session();
    s.viewers[0].barrier = Some(7);
    assert_eq!(s.check_invariants(), Err("viewer 1 waits on a finished creation".into()));
    s.creations.push(7);
    assert_eq!(s.check_invariants(), Ok(()));
}

#[test]
fn registered_identities_are_looked_up() {
    let s = session();
    assert_eq!(s.ids.pane(PaneId(2)), Some(4));
    assert_eq!(s.ids.pane(PaneId(5)), None);
    assert_eq!(s.ids.tab(TabId(1)), Some(2));
    assert_eq!(s.ids.viewer(ViewerId(1)), Some(5));
    assert_eq!(s.ids.workspace("main"), Some(1));
    assert_eq!(s.ids.workspace("other"), None);
}

#[test]
fn a_viewer_attaches_to_an_open_workspace_within_the_limit() {
    let mut s = session();
    assert_eq!(s.attach_viewer(ViewerId(2), "main", 30, 100, 6, 9, 4), Ok(()));
    assert_eq!(s.viewers.len(), 2);
    assert_eq!(s.viewers[1].entity, 6);
    assert_eq!(s.viewers[1].workspace, 1);
    assert_eq!(s.viewers[1].selected_tab, Some(2));
    assert_eq!((s.viewers[1].rows, s.viewers[1].cols), (30, 100));
    assert_eq!(s.ids.viewer(ViewerId(2)), Some(6));
    assert_eq!(s.workspaces[0].last_attached, 9);
    assert_eq!(s.check_invariants(), Ok(()));
}

#[test]
fn attachments_are_refused_with_their_reason() {
    let mut s = session();
    assert_eq!(
        s.attach_viewer(ViewerId(2), "nowhere", 24, 80, 6, 1, 4),
        Err("workspace does not exist".into())
    );
    assert_eq!(
        s.attach_viewer(ViewerId(2), "main", 24, 80, 6, 1, 1),
        Err("viewer limit reached for this workspace".into())
    );
    s.viewers[0].detaching = true;
    assert_eq!(s.attach_viewer(ViewerId(2), "main", 24, 80, 6, 1, 1), Ok(()));
    let mut s = session();
    s.workspaces[0].retiring = true;
    assert_eq!(
        s.attach_viewer(ViewerId(2), "main", 24, 80, 6, 1, 4),
        Err("workspace is not accepting viewers".into())
    );
    assert_eq!(s.viewers.len(), 1);
    assert_eq!(s.ids.viewer(ViewerId(2)), None);
}

#[test]
fn a_viewer_that_leaves_is_released() {
    let mut s = session();
    assert_eq!(s.viewer_gone(ViewerId(7)), None);
    assert_eq!(s.viewers.len(), 1);
    assert_eq!(s.viewer_gone(ViewerId(1)), Some(1));
    assert!(s.viewers.is_empty());
    assert_eq!(s.ids.viewer(ViewerId(1)), None);
    assert_eq!(s.check_invariants(), Ok(()));
}

#[test]
fn lookups_through_tabs_and_viewers() {
    let mut s = session();
    assert_eq!(s.pane_tab(3), Some(2));
    assert_eq!(s.pane_tab(9), None);
    assert_eq!(s.tab_workspace(2), Some(1));
    assert_eq!(s.tab_workspace(9), None);
    assert_eq!(s.pane_workspace(4), Some(1));
    assert!(s.pane_in_layout(3));
    s.tabs[0].leaves = vec![4];
    assert!(!s.pane_in_layout(3));
    assert_eq!(s.live_panes_in_workspace(1), 2);
    assert_eq!(s.live_panes_in_workspace(7), 0);
    assert_eq!(s.viewers_of_workspace(1), vec![5]);
    assert_eq!(s.viewers_on_tab(2), vec![5]);
    s.viewers[0].detaching = true;
    assert!(s.viewers_of_workspace(1).is_empty());
    assert!(s.viewers_on_tab(2).is_empty());
}

#[test]
fn focus_in_a_tab_falls_back_to_its_first_leaf() {
    let s = session();
    let mut sel = Selection::default();
    assert_eq!(s.focus_in_tab(&sel, 2), Some(3));
    sel.set_focus(2, 4);
    assert_eq!(s.focus_in_tab(&sel, 2), Some(4));
    sel.set_focus(2, 8);
    assert_eq!(s.focus_in_tab(&sel, 2), Some(3));
    assert_eq!(s.focus_in_tab(&sel, 9), None);
}
