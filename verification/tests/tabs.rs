use fux::host::tabs::{
    active_after_close, new_tab, next_pane_id, select_tab, toggled_zoom, TabError, TabStep,
};
use fux::ids::{PaneId, TabId};

fn ids(numbers: &[u32]) -> Vec<TabId> {
    numbers.iter().map(|n| TabId(*n)).collect()
}

#[test]
fn moves_wrap_around_the_tabs() {
    let tabs = ids(&[1, 2, 3]);
    assert_eq!(select_tab(&tabs, Some(TabId(2)), TabStep::Next), Ok(2));
    assert_eq!(select_tab(&tabs, Some(TabId(3)), TabStep::Next), Ok(0));
    assert_eq!(select_tab(&tabs, Some(TabId(2)), TabStep::Previous), Ok(0));
    assert_eq!(select_tab(&tabs, Some(TabId(1)), TabStep::Previous), Ok(2));
    assert_eq!(select_tab(&tabs, None, TabStep::Previous), Ok(2));
    assert_eq!(select_tab(&tabs, Some(TabId(9)), TabStep::Next), Ok(1));
}

#[test]
fn next_then_previous_comes_back() {
    let tabs = ids(&[4, 7, 9, 12]);
    for start in &tabs {
        let forth = select_tab(&tabs, Some(*start), TabStep::Next).unwrap();
        let back = select_tab(&tabs, Some(tabs[forth]), TabStep::Previous).unwrap();
        assert_eq!(tabs[back], *start);
    }
}

#[test]
fn selecting_by_position_and_its_errors() {
    let tabs = ids(&[1, 2, 3]);
    assert_eq!(select_tab(&tabs, None, TabStep::Select { index: 1 }), Ok(1));
    assert_eq!(
        select_tab(&tabs, None, TabStep::Select { index: 3 }),
        Err(TabError::NotFound)
    );
    assert_eq!(
        select_tab(&tabs, None, TabStep::Select { index: u64::MAX }),
        Err(TabError::NotFound)
    );
    assert_eq!(
        select_tab(&Vec::new(), Some(TabId(1)), TabStep::Next),
        Err(TabError::NoTabs)
    );
    assert_eq!(TabError::NoTabs.message(), "no tabs");
    assert_eq!(TabError::NotFound.message(), "tab not found");
    assert_eq!(TabError::TabLimit.message(), "configured tab limit reached");
}

#[test]
fn a_new_tab_takes_the_next_number_and_a_name() {
    assert_eq!(
        new_tab(&ids(&[1, 4, 2]), 10, None),
        Ok((TabId(5), "tab-5".to_string()))
    );
    assert_eq!(
        new_tab(&ids(&[1, 4, 2]), 10, Some("work".to_string())),
        Ok((TabId(5), "work".to_string()))
    );
    assert_eq!(new_tab(&ids(&[]), 1, None), Ok((TabId(1), "tab-1".to_string())));
    assert_eq!(
        new_tab(&ids(&[u32::MAX]), 10, None),
        Ok((TabId(u32::MAX), "tab-4294967295".to_string()))
    );
    assert_eq!(new_tab(&ids(&[1, 2]), 2, None), Err(TabError::TabLimit));
}

#[test]
fn closing_keeps_the_active_tab_or_falls_back_to_the_first() {
    assert_eq!(active_after_close(&ids(&[1, 3]), TabId(3)), Some(TabId(3)));
    assert_eq!(active_after_close(&ids(&[1, 3]), TabId(2)), Some(TabId(1)));
    assert_eq!(active_after_close(&ids(&[]), TabId(2)), None);
}

#[test]
fn zoom_toggles_on_the_focused_pane() {
    assert_eq!(toggled_zoom(None, PaneId(4)), Some(PaneId(4)));
    assert_eq!(toggled_zoom(Some(PaneId(4)), PaneId(4)), None);
    assert_eq!(toggled_zoom(Some(PaneId(2)), PaneId(4)), Some(PaneId(4)));
}

#[test]
fn a_new_pane_takes_the_next_number() {
    assert_eq!(next_pane_id(None), PaneId(1));
    assert_eq!(next_pane_id(Some(PaneId(7))), PaneId(8));
    assert_eq!(next_pane_id(Some(PaneId(u32::MAX))), PaneId(u32::MAX));
}
