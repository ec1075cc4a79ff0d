use fux::host::budget::{
    admit_geometry, admit_pane, admits, capture_rows, history_limit, GeometryRefusal, ResourceLimits,
    Refusal, Usage,
};

fn limits() -> ResourceLimits {
    ResourceLimits {
        max_panes: 4,
        max_tabs: 8,
        max_popups: 2,
        max_status_segments: 16,
        max_total_cells: 10_000,
        max_units: 1_000_000,
    }
}

#[test]
fn a_pane_is_admitted_within_every_limit() {
    assert_eq!(admit_pane(false, 3, 5_000, 1_920, 10_000, 90_000, limits()), Ok(()));
    assert_eq!(admit_pane(false, 3, 8_080, 1_920, 910_000, 90_000, limits()), Ok(()));
}

#[test]
fn each_refusal_has_its_input_and_message() {
    assert_eq!(
        admit_pane(true, 0, 0, 0, 0, 0, limits()),
        Err(Refusal::ShuttingDown)
    );
    assert_eq!(
        admit_pane(false, 4, 0, 0, 0, 0, limits()),
        Err(Refusal::PaneLimit)
    );
    assert_eq!(
        admit_pane(false, 3, 8_081, 1_920, 0, 0, limits()),
        Err(Refusal::ResourceLimit)
    );
    assert_eq!(
        admit_pane(false, 3, 0, 0, 910_001, 90_000, limits()),
        Err(Refusal::ResourceLimit)
    );
    assert_eq!(
        admit_pane(false, 0, usize::MAX, 1, 0, 0, limits()),
        Err(Refusal::ResourceLimit)
    );
    assert_eq!(Refusal::ShuttingDown.message(), "workspace is shutting down");
    assert_eq!(Refusal::PaneLimit.message(), "configured pane limit reached");
    assert_eq!(
        Refusal::ResourceLimit.message(),
        "configured workspace resource limit reached"
    );
}

#[test]
fn scrollback_is_cut_to_what_the_budget_leaves() {
    assert_eq!(history_limit(10_000, 1_000_000, 200_000, 300_000, 100), 5_000);
    assert_eq!(history_limit(1_000, 1_000_000, 200_000, 300_000, 100), 1_000);
    assert_eq!(history_limit(1_000, 100, 200, 0, 10), 0);
    assert_eq!(history_limit(1_000, 500, 0, 0, 0), 500);
    let rows = history_limit(usize::MAX, 999_999, 1, 7, 64);
    assert!(rows * 64 <= 999_999 - 1 - 7);
}

#[test]
fn a_capture_holds_no_more_rows_than_its_bytes_allow() {
    assert_eq!(capture_rows(1_000, 500, 80, false, 16, 10_000), 8);
    assert_eq!(capture_rows(1_000, 500, 80, true, 16, 10_000), 1);
    assert_eq!(capture_rows(3, 500, 80, false, 16, 10_000), 3);
    assert_eq!(capture_rows(1_000, 2, 80, false, 16, 10_000), 2);
    assert_eq!(capture_rows(1_000, 500, 0, false, 4, 100), 21);
    assert_eq!(capture_rows(1_000, 500, usize::MAX, false, 16, usize::MAX), 2);
}

fn usage() -> Usage {
    Usage {
        panes: 4,
        tabs: 8,
        popups: 2,
        status_segments: 16,
        cells: 10_000,
        units: 900_000,
    }
}

#[test]
fn a_state_is_admitted_only_within_every_limit_and_the_byte_charge() {
    assert!(admits(usage(), 50_000, &vec![25_000, 25_000], limits()));
    assert!(!admits(usage(), 50_000, &vec![25_000, 25_001], limits()));
    assert!(!admits(Usage { panes: 5, ..usage() }, 0, &vec![], limits()));
    assert!(!admits(Usage { tabs: 9, ..usage() }, 0, &vec![], limits()));
    assert!(!admits(Usage { popups: 3, ..usage() }, 0, &vec![], limits()));
    assert!(!admits(Usage { status_segments: 17, ..usage() }, 0, &vec![], limits()));
    assert!(!admits(Usage { cells: 10_001, ..usage() }, 0, &vec![], limits()));
    assert!(!admits(Usage { units: 1_000_001, ..usage() }, 0, &vec![], limits()));
    assert!(!admits(usage(), usize::MAX, &vec![], limits()));
}

#[test]
fn a_layout_is_refused_past_the_cell_or_byte_budget() {
    assert_eq!(admit_geometry(10_000, 500_000, 40, true, limits()), Ok(900_000));
    assert_eq!(
        admit_geometry(10_001, 0, 40, true, limits()),
        Err(GeometryRefusal::CellBudget)
    );
    assert_eq!(
        admit_geometry(10_000, 600_001, 40, true, limits()),
        Err(GeometryRefusal::ByteBudget)
    );
    assert_eq!(
        admit_geometry(100, 0, 40, false, limits()),
        Err(GeometryRefusal::ByteBudget)
    );
    assert_eq!(
        admit_geometry(100, 0, usize::MAX, true, limits()),
        Err(GeometryRefusal::ByteBudget)
    );
    assert_eq!(
        GeometryRefusal::CellBudget.message(),
        "configured terminal cell budget reached"
    );
    assert_eq!(
        GeometryRefusal::ByteBudget.message(),
        "configured terminal byte budget reached"
    );
}
