use fux::ids::{propose, validate_workspace_name, IdCounters, PaneId, TabId, ViewerId};

#[test]
fn workspace_names_cannot_escape_runtime_directories() {
    for name in ["", ".", "..", "../x", "/abs", "a/b", "a\\b", "nul\0", "ü"] {
        assert!(validate_workspace_name(name).is_err(), "accepted {name:?}");
    }
    for name in ["default", "ws-2", "my.project_1"] {
        assert!(validate_workspace_name(name).is_ok());
    }
}

#[test]
fn workspace_names_hold_at_most_sixty_four_bytes() {
    assert!(validate_workspace_name(&"a".repeat(64)).is_ok());
    assert!(validate_workspace_name(&"a".repeat(65)).is_err());
    assert!(validate_workspace_name("...").is_ok());
    let refused = validate_workspace_name("a b").err().map(|e| e.message());
    assert_eq!(
        refused.as_deref(),
        Some("workspace names use 1-64 ASCII letters, digits, `.`, `_` or `-`")
    );
}

#[test]
fn identities_display_as_their_numbers() {
    assert_eq!(PaneId(7).text(), "7");
    assert_eq!(TabId(0).text(), "0");
    assert_eq!(ViewerId(18446744073709551615).text(), "18446744073709551615");
}

#[test]
fn pane_and_tab_numbers_count_up_separately_and_never_repeat() {
    let mut ids = IdCounters::new();
    assert_eq!(ids.next_pane(), Some(PaneId(1)));
    assert_eq!(ids.next_pane(), Some(PaneId(2)));
    assert_eq!(ids.next_tab(), Some(TabId(1)));
    assert_eq!(ids.next_pane(), Some(PaneId(3)));
    assert_eq!(ids.next_tab(), Some(TabId(2)));
    let mut seen = std::collections::BTreeSet::new();
    for _ in 0..1000 {
        let id = ids.next_pane().unwrap();
        assert!(seen.insert(id.0));
        assert!(id.0 > 3);
    }
}

#[test]
fn the_earliest_proposed_deadline_is_kept() {
    let mut next = None;
    propose(&mut next, 500);
    assert_eq!(next, Some(500));
    propose(&mut next, 900);
    assert_eq!(next, Some(500));
    propose(&mut next, 100);
    assert_eq!(next, Some(100));
}
