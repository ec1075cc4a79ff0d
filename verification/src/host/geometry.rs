//! Where things stand on the client's screen: the viewport the host lays out
//! for, the popup on top and its rectangle, the size a pane is given, and
//! which pane a mouse event reaches.
use vstd::prelude::*;
use crate::host::{MouseMode, PaneModes};
use crate::host::router::MouseEvent;
use crate::layout::{PaneId, Rect};

verus! {

/// `a - b`, or 0 where `b` is larger.
pub open spec fn sat_sub(a: u16, b: u16) -> u16 {
    if a >= b {
        (a - b) as u16
    } else {
        0
    }
}

/// `a + b`, or the largest `u16` where the sum is larger.
pub open spec fn sat_add(a: u16, b: u16) -> u16 {
    if a + b <= 0xffff {
        (a + b) as u16
    } else {
        0xffff
    }
}

/// Whether `keys[i]` is the greatest key and no later key equals it: the
/// element that a search for the largest, keeping the last of equals,
/// settles on.
pub open spec fn is_last_max(keys: Seq<u64>, i: int) -> bool {
    &&& 0 <= i < keys.len()
    &&& forall|j: int| 0 <= j < keys.len() ==> keys[j] <= keys[i]
    &&& forall|j: int| i < j < keys.len() ==> keys[j] < keys[i]
}

/// At most one index is the last greatest.
pub proof fn lemma_last_max_unique(keys: Seq<u64>, i: int, k: int)
    requires
        is_last_max(keys, i),
        is_last_max(keys, k),
    ensures
        i == k,
{
    if i < k {
        assert(keys[k] < keys[i]);
        assert(keys[i] <= keys[k]);
    } else if k < i {
        assert(keys[i] < keys[k]);
        assert(keys[k] <= keys[i]);
    }
}

/// The index of the last greatest key, where there are keys.
pub open spec fn last_max(keys: Seq<u64>) -> Option<int> {
    if keys.len() == 0 {
        None
    } else {
        Some(choose|i: int| is_last_max(keys, i))
    }
}

/// The last greatest key exists in a sequence that has keys.
proof fn lemma_last_max_exists(keys: Seq<u64>)
    requires
        keys.len() > 0,
    ensures
        exists|i: int| is_last_max(keys, i),
    decreases keys.len(),
{
    if keys.len() == 1 {
        assert(is_last_max(keys, 0));
    } else {
        let front = keys.drop_last();
        lemma_last_max_exists(front);
        let i = choose|i: int| is_last_max(front, i);
        let last = keys.len() - 1;
        assert forall|j: int| 0 <= j < last implies keys[j] == front[j] by {}
        if keys[last] >= keys[i] {
            assert(is_last_max(keys, last));
        } else {
            assert(is_last_max(keys, i));
        }
    }
}

/// Finds the last greatest key by a walk from the front.
fn find_last_max(key_at: &Vec<u64>) -> (r: Option<usize>)
    ensures
        match r {
            None => key_at@.len() == 0,
            Some(i) => is_last_max(key_at@, i as int) && last_max(key_at@) == Some(i as int),
        },
{
    let ghost keys = key_at@;
    if key_at.len() == 0 {
        return None;
    }
    let mut best: usize = 0;
    let mut i: usize = 1;
    while i < key_at.len()
        invariant
            key_at@ == keys,
            1 <= i <= key_at.len(),
            best < i,
            forall|j: int| 0 <= j < i ==> keys[j] <= keys[best as int],
            forall|j: int| best < j < i ==> keys[j] < keys[best as int],
        decreases key_at.len() - i,
    {
        if key_at[i] >= key_at[best] {
            best = i;
        }
        i = i + 1;
    }
    proof {
        assert(is_last_max(keys, best as int));
        lemma_last_max_exists(keys);
        let c = choose|k: int| is_last_max(keys, k);
        lemma_last_max_unique(keys, best as int, c);
    }
    Some(best)
}

/// The stamps of the clients' viewports.
pub open spec fn stamps(viewports: Seq<(u16, u16, u64)>) -> Seq<u64> {
    viewports.map_values(|v: (u16, u16, u64)| v.2)
}

/// The viewport the host lays its panes out for: of the clients' viewports
/// (rows, columns, and a stamp that grows as they report), the one with the
/// latest stamp, the last of equals; none where no client is attached.
pub fn current_viewport(viewports: &Vec<(u16, u16, u64)>) -> (r: Option<(u16, u16)>)
    ensures
        match last_max(stamps(viewports@)) {
            None => r is None,
            Some(i) => r == Some((viewports@[i].0, viewports@[i].1)),
        },
{
    let mut keys: Vec<u64> = Vec::new();
    let mut k: usize = 0;
    while k < viewports.len()
        invariant
            k <= viewports.len(),
            keys@ == stamps(viewports@).take(k as int),
        decreases viewports.len() - k,
    {
        keys.push(viewports[k].2);
        k = k + 1;
        proof {
            assert(keys@ =~= stamps(viewports@).take(k as int));
        }
    }
    assert(keys@ =~= stamps(viewports@));
    match find_last_max(&keys) {
        None => None,
        Some(i) => Some((viewports[i].0, viewports[i].1)),
    }
}

/// A pane shown over the layout, `width` by `height` cells, centred. Popups
/// stack: the one with the greatest `z_index` is on top.
#[derive(Clone, Copy, Debug, PartialEq, Eq, Structural)]
pub struct Popup {
    pub pane: PaneId,
    pub width: u16,
    pub height: u16,
    pub z_index: u64,
}

/// The popups' stacking orders.
pub open spec fn layers(popups: Seq<Popup>) -> Seq<u64> {
    popups.map_values(|p: Popup| p.z_index)
}

/// The popup on top, where there is one: the greatest `z_index`, the last of
/// equals.
pub open spec fn top_of(popups: Seq<Popup>) -> Option<Popup> {
    match last_max(layers(popups)) {
        None => None,
        Some(i) => Some(popups[i]),
    }
}

/// The popup on top, where there is one.
pub fn top_popup(popups: &Vec<Popup>) -> (r: Option<Popup>)
    ensures
        r == top_of(popups@),
{
    let mut keys: Vec<u64> = Vec::new();
    let mut k: usize = 0;
    while k < popups.len()
        invariant
            k <= popups.len(),
            keys@ == layers(popups@).take(k as int),
        decreases popups.len() - k,
    {
        keys.push(popups[k].z_index);
        k = k + 1;
        proof {
            assert(keys@ =~= layers(popups@).take(k as int));
        }
    }
    assert(keys@ =~= layers(popups@));
    match find_last_max(&keys) {
        None => None,
        Some(i) => Some(popups[i]),
    }
}

/// The stacking order a new popup takes: one above the popup on top, 1
/// where there is none, and the largest value where the top already has it.
pub open spec fn next_layer(popups: Seq<Popup>) -> u64 {
    match top_of(popups) {
        None => 1,
        Some(p) => if p.z_index < u64::MAX {
            (p.z_index + 1) as u64
        } else {
            u64::MAX
        },
    }
}

/// The stacking order a new popup takes.
pub fn next_z_index(popups: &Vec<Popup>) -> (z: u64)
    ensures
        z == next_layer(popups@),
{
    match top_popup(popups) {
        None => 1,
        Some(p) => p.z_index.saturating_add(1),
    }
}

/// The popup on top is the last greatest of the stack.
proof fn lemma_top_is_last_max(popups: Seq<Popup>)
    requires
        popups.len() > 0,
    ensures
        is_last_max(layers(popups), last_max(layers(popups))->0),
        top_of(popups) == Some(popups[last_max(layers(popups))->0]),
{
    lemma_last_max_exists(layers(popups));
}

/// A popup opened with the next stacking order is the one on top, whatever
/// the stack held before: it is at least as high as every other, and the
/// last of equals.
pub proof fn lemma_new_popup_is_on_top(popups: Seq<Popup>, pane: PaneId, width: u16, height: u16)
    ensures
        top_of(popups.push(Popup { pane, width, height, z_index: next_layer(popups) })) == Some(
            Popup { pane, width, height, z_index: next_layer(popups) },
        ),
{
    let added = Popup { pane, width, height, z_index: next_layer(popups) };
    let after = popups.push(added);
    let keys = layers(after);
    let last = popups.len() as int;
    if popups.len() > 0 {
        lemma_top_is_last_max(popups);
        let t = last_max(layers(popups))->0;
        assert forall|j: int| 0 <= j < keys.len() implies keys[j] <= keys[last] by {
            if j < last {
                assert(keys[j] == layers(popups)[j]);
            }
        }
    }
    assert(is_last_max(keys, last));
    lemma_last_max_exists(keys);
    let c = choose|i: int| is_last_max(keys, i);
    lemma_last_max_unique(keys, c, last);
}

/// A popup of `width` by `height` cells in a viewport of `rows` by
/// `columns`: centred in the body above the status row, and cut to it.
pub open spec fn popup_area(rows: u16, columns: u16, width: u16, height: u16) -> Rect {
    let body = sat_sub(rows, 1);
    Rect {
        x: (sat_sub(columns, width) / 2) as u16,
        y: (sat_sub(body, height) / 2) as u16,
        w: if width <= columns {
            width
        } else {
            columns
        },
        h: if height <= body {
            height
        } else {
            body
        },
    }
}

/// The rectangle a popup occupies.
pub fn popup_rect(rows: u16, columns: u16, width: u16, height: u16) -> (r: Rect)
    ensures
        r == popup_area(rows, columns, width, height),
{
    let body = rows.saturating_sub(1);
    Rect {
        x: columns.saturating_sub(width) / 2,
        y: body.saturating_sub(height) / 2,
        w: if width <= columns {
            width
        } else {
            columns
        },
        h: if height <= body {
            height
        } else {
            body
        },
    }
}

/// A popup lies within the body of the viewport: it neither passes the
/// right edge nor reaches the status row.
pub proof fn lemma_popup_fits(rows: u16, columns: u16, width: u16, height: u16)
    ensures
        popup_area(rows, columns, width, height).x + popup_area(rows, columns, width, height).w
            <= columns,
        popup_area(rows, columns, width, height).y + popup_area(rows, columns, width, height).h
            <= sat_sub(rows, 1),
{
}

/// The rows and columns of the terminal inside a pane's rectangle: the
/// rectangle less its border, and never under two of either.
pub open spec fn content_size_of(rect: Rect) -> (u16, u16) {
    let rows = sat_sub(rect.h, 2);
    let columns = sat_sub(rect.w, 2);
    (
        if rows >= 2 {
            rows
        } else {
            2
        },
        if columns >= 2 {
            columns
        } else {
            2
        },
    )
}

/// The rows and columns a pane's terminal is given in `rect`.
pub fn content_size(rect: Rect) -> (r: (u16, u16))
    ensures
        r == content_size_of(rect),
{
    let rows = rect.h.saturating_sub(2);
    let columns = rect.w.saturating_sub(2);
    (
        if rows >= 2 {
            rows
        } else {
            2
        },
        if columns >= 2 {
            columns
        } else {
            2
        },
    )
}

/// The cells that the panes laid out in `rects` hold together.
pub open spec fn total_cells(rects: Seq<Rect>) -> nat
    decreases rects.len(),
{
    if rects.len() == 0 {
        0
    } else {
        let size = content_size_of(rects.last());
        total_cells(rects.drop_last()) + (size.0 as nat) * (size.1 as nat)
    }
}

/// The cells that a layout asks for, the largest `usize` where they are more;
/// the host refuses a layout that asks for more than its budget.
pub fn requested_cells(rects: &Vec<Rect>) -> (n: usize)
    ensures
        n == (if total_cells(rects@) <= usize::MAX {
            total_cells(rects@)
        } else {
            usize::MAX as nat
        }),
{
    let mut total: usize = 0;
    let mut k: usize = 0;
    while k < rects.len()
        invariant
            k <= rects.len(),
            total == (if total_cells(rects@.take(k as int)) <= usize::MAX {
                total_cells(rects@.take(k as int))
            } else {
                usize::MAX as nat
            }),
        decreases rects.len() - k,
    {
        let (rows, columns) = content_size(rects[k]);
        assert(rows as int * columns as int <= 0xffff * 0xffff) by (nonlinear_arith)
            requires
                rows <= 0xffff,
                columns <= 0xffff,
        ;
        let cells: usize = (rows as usize) * (columns as usize);
        proof {
            assert(rects@.take(k + 1).drop_last() =~= rects@.take(k as int));
            assert(rects@.take(k + 1).last() == rects@[k as int]);
        }
        total = total.saturating_add(cells);
        k = k + 1;
    }
    assert(rects@.take(rects.len() as int) =~= rects@);
    total
}

/// A pane laid out on the screen, with the modes its terminal is in where
/// the host holds its view.
#[derive(Clone, Copy, Debug, PartialEq, Eq, Structural)]
pub struct PaneArea {
    pub pane: PaneId,
    pub rect: Rect,
    pub modes: Option<PaneModes>,
}

/// What a mouse event does to the pane it reaches.
#[derive(Clone, Copy, Debug, PartialEq, Eq, Structural)]
pub enum MouseEffect {
    /// Nothing.
    Nothing,
    /// The event is reported to the pane's program at a cell of its
    /// rectangle, encoded in its modes (which may encode nothing).
    Report { pane: PaneId, column: u16, row: u16, modes: PaneModes },
    /// A selection is drawn in the pane, to a cell of its content.
    Select { pane: PaneId, row: u16, column: u16, release: bool },
    /// The pane's view scrolls back (`up`) or forth.
    Scroll { pane: PaneId, up: bool },
}

/// Where a mouse event goes: the pane it focuses, if any, and its effect.
#[derive(Clone, Copy, Debug, PartialEq, Eq, Structural)]
pub struct MouseRoute {
    pub focus: Option<PaneId>,
    pub effect: MouseEffect,
}

/// Whether the cell lies in `rect`, its far edges taken as they are held in
/// `u16`.
pub open spec fn within(rect: Rect, x: u16, y: u16) -> bool {
    rect.x <= x < sat_add(rect.x, rect.w) && rect.y <= y < sat_add(rect.y, rect.h)
}

/// `rect` less a border of one cell.
pub open spec fn inset(rect: Rect) -> Rect {
    Rect { x: sat_add(rect.x, 1), y: sat_add(rect.y, 1), w: sat_sub(rect.w, 2), h: sat_sub(rect.h, 2) }
}

/// Whether the cell lies strictly inside the border of `rect`.
pub open spec fn in_content(rect: Rect, x: u16, y: u16) -> bool {
    rect.x < x < sat_sub(sat_add(rect.x, rect.w), 1) && rect.y < y < sat_sub(
        sat_add(rect.y, rect.h),
        1,
    )
}

/// Whether `areas[i]` is the first area that holds the cell.
pub open spec fn is_first_hit(areas: Seq<PaneArea>, x: u16, y: u16, i: int) -> bool {
    &&& 0 <= i < areas.len()
    &&& within(areas[i].rect, x, y)
    &&& forall|j: int| 0 <= j < i ==> !within(#[trigger] areas[j].rect, x, y)
}

/// The first area that holds the cell, if any does.
pub open spec fn first_hit(areas: Seq<PaneArea>, x: u16, y: u16) -> Option<int> {
    if exists|i: int| is_first_hit(areas, x, y, i) {
        Some(choose|i: int| is_first_hit(areas, x, y, i))
    } else {
        None
    }
}

/// Where a mouse event goes. Its cell is taken from the event's one-based
/// column and row. A popup, where one is shown, takes every event: one
/// inside its border is reported to it, at the cell of its rectangle, and
/// no pane is focused. Otherwise the event goes to the first pane whose
/// rectangle holds the cell: with shift held, it draws a selection in the
/// pane; a press focuses the pane; a wheel scrolls a pane whose program
/// takes no mouse events; and an event inside the border of a pane whose
/// program takes them is reported to it.
pub open spec fn mouse_route_of(
    mouse: MouseEvent,
    popup: Option<PaneArea>,
    areas: Seq<PaneArea>,
) -> MouseRoute {
    let x = sat_sub(mouse.column, 1);
    let y = sat_sub(mouse.row, 1);
    match popup {
        Some(p) => MouseRoute {
            focus: None,
            effect: match p.modes {
                Some(m) => if within(inset(p.rect), x, y) {
                    MouseEffect::Report {
                        pane: p.pane,
                        column: sat_sub(x, p.rect.x),
                        row: sat_sub(y, p.rect.y),
                        modes: m,
                    }
                } else {
                    MouseEffect::Nothing
                },
                None => MouseEffect::Nothing,
            },
        },
        None => match first_hit(areas, x, y) {
            None => MouseRoute { focus: None, effect: MouseEffect::Nothing },
            Some(i) => {
                let a = areas[i];
                if mouse.code & 4 != 0 {
                    MouseRoute {
                        focus: None,
                        effect: match a.modes {
                            Some(_) => MouseEffect::Select {
                                pane: a.pane,
                                row: sat_sub(y, sat_add(a.rect.y, 1)),
                                column: sat_sub(x, sat_add(a.rect.x, 1)),
                                release: mouse.release,
                            },
                            None => MouseEffect::Nothing,
                        },
                    }
                } else {
                    let focus = if mouse.code & 3 == 0 {
                        Some(a.pane)
                    } else {
                        None
                    };
                    MouseRoute {
                        focus,
                        effect: match a.modes {
                            None => MouseEffect::Nothing,
                            Some(m) => if mouse.code & 64 != 0 && m.mouse_mode == MouseMode::Off {
                                MouseEffect::Scroll { pane: a.pane, up: mouse.code & 1 == 0 }
                            } else if m.mouse_mode != MouseMode::Off && in_content(a.rect, x, y) {
                                MouseEffect::Report {
                                    pane: a.pane,
                                    column: sat_sub(x, a.rect.x),
                                    row: sat_sub(y, a.rect.y),
                                    modes: m,
                                }
                            } else {
                                MouseEffect::Nothing
                            },
                        },
                    }
                }
            },
        },
    }
}

/// The rectangle of what a mouse event reaches: the popup's where one is
/// shown, else that of the first pane holding the cell.
pub open spec fn reached_rect(mouse: MouseEvent, popup: Option<PaneArea>, areas: Seq<PaneArea>) -> Rect {
    match popup {
        Some(p) => p.rect,
        None => areas[first_hit(areas, sat_sub(mouse.column, 1), sat_sub(mouse.row, 1))->0].rect,
    }
}

/// A report never lands on a border: its cell lies inside the border of the
/// rectangle the event reached, neither in the first nor in the last row or
/// column.
pub proof fn lemma_reports_stay_inside_border(
    mouse: MouseEvent,
    popup: Option<PaneArea>,
    areas: Seq<PaneArea>,
)
    ensures
        match mouse_route_of(mouse, popup, areas).effect {
            MouseEffect::Report { column, row, .. } => {
                &&& 1 <= column
                &&& column + 2 <= reached_rect(mouse, popup, areas).w
                &&& 1 <= row
                &&& row + 2 <= reached_rect(mouse, popup, areas).h
            },
            _ => true,
        },
{
}

/// Whether the cell lies in `rect`, computed as [`within`] states it.
fn holds(rect: Rect, x: u16, y: u16) -> (r: bool)
    ensures
        r == within(rect, x, y),
{
    x >= rect.x && x < rect.x.saturating_add(rect.w) && y >= rect.y && y < rect.y.saturating_add(
        rect.h,
    )
}

/// The first area holding the cell.
fn find_hit(areas: &Vec<PaneArea>, x: u16, y: u16) -> (r: Option<usize>)
    ensures
        match r {
            None => first_hit(areas@, x, y) is None,
            Some(i) => first_hit(areas@, x, y) == Some(i as int),
        },
{
    let mut k: usize = 0;
    while k < areas.len()
        invariant
            k <= areas.len(),
            forall|j: int| 0 <= j < k ==> !within(#[trigger] areas@[j].rect, x, y),
        decreases areas.len() - k,
    {
        if holds(areas[k].rect, x, y) {
            proof {
                assert(is_first_hit(areas@, x, y, k as int));
                let c = choose|i: int| is_first_hit(areas@, x, y, i);
                if c < k {
                    assert(!within(areas@[c].rect, x, y));
                } else if c > k {
                    assert(!within(areas@[k as int].rect, x, y));
                }
            }
            return Some(k);
        }
        k = k + 1;
    }
    proof {
        if exists|i: int| is_first_hit(areas@, x, y, i) {
            let c = choose|i: int| is_first_hit(areas@, x, y, i);
            assert(!within(areas@[c].rect, x, y));
        }
    }
    None
}

/// Where a mouse event goes, given the popup on top (with its rectangle)
/// where one is shown, and otherwise the active tab's panes as laid out.
pub fn mouse_route(mouse: MouseEvent, popup: Option<PaneArea>, areas: &Vec<PaneArea>) -> (r:
    MouseRoute)
    ensures
        r == mouse_route_of(mouse, popup, areas@),
{
    let x = mouse.column.saturating_sub(1);
    let y = mouse.row.saturating_sub(1);
    if let Some(p) = popup {
        let content = Rect {
            x: p.rect.x.saturating_add(1),
            y: p.rect.y.saturating_add(1),
            w: p.rect.w.saturating_sub(2),
            h: p.rect.h.saturating_sub(2),
        };
        let effect = match p.modes {
            Some(m) => if holds(content, x, y) {
                MouseEffect::Report {
                    pane: p.pane,
                    column: x.saturating_sub(p.rect.x),
                    row: y.saturating_sub(p.rect.y),
                    modes: m,
                }
            } else {
                MouseEffect::Nothing
            },
            None => MouseEffect::Nothing,
        };
        return MouseRoute { focus: None, effect };
    }
    let i = match find_hit(areas, x, y) {
        None => {
            return MouseRoute { focus: None, effect: MouseEffect::Nothing };
        },
        Some(i) => i,
    };
    let a = areas[i];
    if mouse.code & 4 != 0 {
        let effect = match a.modes {
            Some(_) => MouseEffect::Select {
                pane: a.pane,
                row: y.saturating_sub(a.rect.y.saturating_add(1)),
                column: x.saturating_sub(a.rect.x.saturating_add(1)),
                release: mouse.release,
            },
            None => MouseEffect::Nothing,
        };
        return MouseRoute { focus: None, effect };
    }
    let focus = if mouse.code & 3 == 0 {
        Some(a.pane)
    } else {
        None
    };
    let effect = match a.modes {
        None => MouseEffect::Nothing,
        Some(m) => {
            let off = match m.mouse_mode {
                MouseMode::Off => true,
                _ => false,
            };
            let inside = x > a.rect.x && x < a.rect.x.saturating_add(a.rect.w).saturating_sub(1)
                && y > a.rect.y && y < a.rect.y.saturating_add(a.rect.h).saturating_sub(1);
            if mouse.code & 64 != 0 && off {
                MouseEffect::Scroll { pane: a.pane, up: mouse.code & 1 == 0 }
            } else if !off && inside {
                MouseEffect::Report {
                    pane: a.pane,
                    column: x.saturating_sub(a.rect.x),
                    row: y.saturating_sub(a.rect.y),
                    modes: m,
                }
            } else {
                MouseEffect::Nothing
            }
        },
    };
    MouseRoute { focus, effect }
}

} // verus!
