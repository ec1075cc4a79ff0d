use fux::host::geometry::{
    content_size, current_viewport, mouse_route, next_z_index, popup_rect, requested_cells,
    top_popup, MouseEffect, MouseRoute, PaneArea, Popup,
};
use fux::host::router::MouseEvent;
use fux::host::{encode_mouse, MouseEncoding, MouseMode, PaneModes};
use fux::layout::{PaneId, Rect};

fn rect(x: u16, y: u16, w: u16, h: u16) -> Rect {
    Rect { x, y, w, h }
}

fn modes(mouse_mode: MouseMode) -> PaneModes {
    PaneModes {
        mouse_mode,
        mouse_encoding: MouseEncoding::Sgr,
    }
}

fn popup(pane: u32, z_index: u64) -> Popup {
    Popup {
        pane: PaneId(pane),
        width: 80,
        height: 24,
        z_index,
    }
}

fn press(code: u16, column: u16, row: u16) -> MouseEvent {
    MouseEvent {
        code,
        column,
        row,
        release: false,
    }
}

fn two_panes(left: Option<PaneModes>, right: Option<PaneModes>) -> Vec<PaneArea> {
    vec![
        PaneArea {
            pane: PaneId(1),
            rect: rect(0, 0, 40, 23),
            modes: left,
        },
        PaneArea {
            pane: PaneId(2),
            rect: rect(40, 0, 40, 23),
            modes: right,
        },
    ]
}

#[test]
fn the_latest_viewport_is_laid_out_for() {
    assert_eq!(current_viewport(&vec![]), None);
    assert_eq!(
        current_viewport(&vec![(24, 80, 3), (50, 120, 7), (30, 100, 5)]),
        Some((50, 120))
    );
    assert_eq!(
        current_viewport(&vec![(24, 80, 7), (50, 120, 7)]),
        Some((50, 120))
    );
}

#[test]
fn the_highest_popup_is_on_top_and_the_last_of_equals_wins() {
    assert_eq!(top_popup(&vec![]), None);
    assert_eq!(
        top_popup(&vec![popup(1, 4), popup(2, 9), popup(3, 2)]),
        Some(popup(2, 9))
    );
    assert_eq!(
        top_popup(&vec![popup(1, 5), popup(2, 5)]),
        Some(popup(2, 5))
    );
}

#[test]
fn a_new_popup_stacks_above_the_others() {
    assert_eq!(next_z_index(&vec![]), 1);
    assert_eq!(next_z_index(&vec![popup(1, 4), popup(2, 9)]), 10);
    assert_eq!(next_z_index(&vec![popup(1, u64::MAX)]), u64::MAX);
    let mut stack = vec![popup(1, u64::MAX), popup(2, 3)];
    let z = next_z_index(&stack);
    stack.push(popup(7, z));
    assert_eq!(top_popup(&stack), Some(popup(7, u64::MAX)));
}

#[test]
fn popups_are_centred_and_cut_to_the_body() {
    assert_eq!(popup_rect(25, 100, 80, 24), rect(10, 0, 80, 24));
    assert_eq!(popup_rect(41, 100, 20, 10), rect(40, 15, 20, 10));
    assert_eq!(popup_rect(10, 50, 80, 24), rect(0, 0, 50, 9));
    assert_eq!(popup_rect(0, 0, 80, 24), rect(0, 0, 0, 0));
}

#[test]
fn a_pane_terminal_is_its_rectangle_less_the_border() {
    assert_eq!(content_size(rect(0, 0, 40, 23)), (21, 38));
    assert_eq!(content_size(rect(5, 5, 3, 1)), (2, 2));
}

#[test]
fn requested_cells_add_up_and_saturate() {
    assert_eq!(requested_cells(&vec![]), 0);
    assert_eq!(
        requested_cells(&vec![rect(0, 0, 40, 23), rect(40, 0, 40, 23)]),
        2 * 21 * 38
    );
    assert_eq!(requested_cells(&vec![rect(0, 0, 1, 1)]), 4);
    let huge = vec![rect(0, 0, u16::MAX, u16::MAX); 3];
    assert_eq!(requested_cells(&huge), 3 * 65533 * 65533);
}

#[test]
fn a_press_focuses_the_pane_under_it() {
    let areas = two_panes(Some(modes(MouseMode::Off)), Some(modes(MouseMode::Off)));
    assert_eq!(
        mouse_route(press(0, 50, 5), None, &areas),
        MouseRoute {
            focus: Some(PaneId(2)),
            effect: MouseEffect::Nothing,
        }
    );
    assert_eq!(
        mouse_route(press(1, 5, 5), None, &areas),
        MouseRoute {
            focus: None,
            effect: MouseEffect::Nothing,
        }
    );
    assert_eq!(
        mouse_route(press(0, 200, 5), None, &areas),
        MouseRoute {
            focus: None,
            effect: MouseEffect::Nothing,
        }
    );
}

#[test]
fn a_wheel_scrolls_a_pane_that_takes_no_mouse() {
    let areas = two_panes(Some(modes(MouseMode::Off)), Some(modes(MouseMode::AnyMotion)));
    assert_eq!(
        mouse_route(press(64, 5, 5), None, &areas),
        MouseRoute {
            focus: Some(PaneId(1)),
            effect: MouseEffect::Scroll {
                pane: PaneId(1),
                up: true,
            },
        }
    );
    assert_eq!(
        mouse_route(press(65, 5, 5), None, &areas),
        MouseRoute {
            focus: None,
            effect: MouseEffect::Scroll {
                pane: PaneId(1),
                up: false,
            },
        }
    );
    assert_eq!(
        mouse_route(press(65, 50, 5), None, &areas),
        MouseRoute {
            focus: None,
            effect: MouseEffect::Report {
                pane: PaneId(2),
                column: 9,
                row: 4,
                modes: modes(MouseMode::AnyMotion),
            },
        }
    );
}

#[test]
fn a_pane_that_takes_the_mouse_gets_reports_inside_its_border_only() {
    let areas = two_panes(None, Some(modes(MouseMode::Press)));
    let route = mouse_route(press(0, 45, 3), None, &areas);
    assert_eq!(
        route,
        MouseRoute {
            focus: Some(PaneId(2)),
            effect: MouseEffect::Report {
                pane: PaneId(2),
                column: 4,
                row: 2,
                modes: modes(MouseMode::Press),
            },
        }
    );
    if let MouseEffect::Report {
        column, row, modes, ..
    } = route.effect
    {
        assert_eq!(
            encode_mouse(press(0, 45, 3), column, row, modes),
            Some(b"\x1b[<0;4;2M".to_vec())
        );
    }
    assert_eq!(
        mouse_route(press(0, 41, 3), None, &areas).effect,
        MouseEffect::Nothing
    );
    assert_eq!(
        mouse_route(press(0, 80, 3), None, &areas).effect,
        MouseEffect::Nothing
    );
    assert_eq!(
        mouse_route(press(0, 45, 1), None, &areas).effect,
        MouseEffect::Nothing
    );
    assert_eq!(
        mouse_route(press(0, 45, 23), None, &areas).effect,
        MouseEffect::Nothing
    );
    assert_eq!(mouse_route(press(0, 5, 5), None, &areas).effect, MouseEffect::Nothing);
}

#[test]
fn shift_draws_a_selection_without_focusing() {
    let areas = two_panes(Some(modes(MouseMode::AnyMotion)), None);
    let drag = MouseEvent {
        code: 4 | 32,
        column: 11,
        row: 6,
        release: true,
    };
    assert_eq!(
        mouse_route(drag, None, &areas),
        MouseRoute {
            focus: None,
            effect: MouseEffect::Select {
                pane: PaneId(1),
                row: 4,
                column: 9,
                release: true,
            },
        }
    );
    assert_eq!(
        mouse_route(press(4, 50, 5), None, &areas),
        MouseRoute {
            focus: None,
            effect: MouseEffect::Nothing,
        }
    );
}

#[test]
fn a_popup_takes_every_event() {
    let areas = two_panes(Some(modes(MouseMode::AnyMotion)), None);
    let shown = PaneArea {
        pane: PaneId(9),
        rect: popup_rect(25, 100, 20, 10),
        modes: Some(modes(MouseMode::AnyMotion)),
    };
    assert_eq!(shown.rect, rect(40, 7, 20, 10));
    assert_eq!(
        mouse_route(press(0, 43, 10), Some(shown), &areas),
        MouseRoute {
            focus: None,
            effect: MouseEffect::Report {
                pane: PaneId(9),
                column: 2,
                row: 2,
                modes: modes(MouseMode::AnyMotion),
            },
        }
    );
    assert_eq!(
        mouse_route(press(0, 41, 8), Some(shown), &areas),
        MouseRoute {
            focus: None,
            effect: MouseEffect::Nothing,
        }
    );
    assert_eq!(
        mouse_route(press(0, 5, 5), Some(shown), &areas),
        MouseRoute {
            focus: None,
            effect: MouseEffect::Nothing,
        }
    );
}
