use fux::keys::Direction;
use fux::layout::{neighbor, place, remove, resize, split, swap, Axis, Node, PaneId, Rect, Separator, MIN};

fn p(n: u32) -> PaneId {
    PaneId(n)
}
fn area(w: u16, h: u16) -> Rect {
    Rect { x: 0, y: 0, w, h }
}
/// `0 | 1`.
fn tree() -> Option<Node> {
    let mut root = Some(Node::Pane(p(0)));
    split(&mut root, p(0), p(1), Axis::Horizontal, true);
    root
}

#[test]
fn splitting_shares_the_space_with_one_separator() {
    let root = tree();
    let Some(node) = &root else { return };
    let placed = place(node, area(80, 24));
    assert_eq!(
        placed.panes,
        vec![
            (p(0), Rect { x: 0, y: 0, w: 40, h: 24 }),
            (p(1), Rect { x: 41, y: 0, w: 39, h: 24 })
        ]
    );
    assert_eq!(
        placed.separators,
        vec![Separator { vertical: true, x: 40, y: 0, len: 24 }]
    );
    // A second split of the right pane shares its weight: 1000:500:500.
    let mut root = tree();
    assert!(split(&mut root, p(1), p(2), Axis::Horizontal, true));
    let Some(node) = &root else { return };
    let widths: Vec<u16> = place(node, area(80, 24)).panes.iter().map(|(_, r)| r.w).collect();
    assert_eq!(widths, vec![39, 20, 19]);
}

#[test]
fn nested_splits_place_every_pane_without_overlap() {
    let mut root = tree();
    split(&mut root, p(1), p(2), Axis::Horizontal, true);
    split(&mut root, p(2), p(3), Axis::Vertical, true);
    split(&mut root, p(1), p(4), Axis::Vertical, false);
    let Some(node) = &root else { return };
    assert_eq!(node.panes(), vec![p(0), p(4), p(1), p(2), p(3)]);
    let placed = place(node, area(81, 25));
    assert_eq!(placed.panes.len(), 5);
    let mut covered = vec![0u8; 81 * 25];
    for (_, r) in &placed.panes {
        for y in r.y..r.y + r.h {
            for x in r.x..r.x + r.w {
                if let Some(c) = covered.get_mut(usize::from(y) * 81 + usize::from(x)) {
                    *c += 1;
                }
            }
        }
    }
    for s in &placed.separators {
        for i in 0..s.len {
            let (x, y) = if s.vertical { (s.x, s.y + i) } else { (s.x + i, s.y) };
            if let Some(c) = covered.get_mut(usize::from(y) * 81 + usize::from(x)) {
                *c += 1;
            }
        }
    }
    assert!(covered.iter().all(|c| *c == 1), "every cell is a pane or a separator, once");
}

#[test]
fn a_small_area_keeps_minimums_and_hides_what_does_not_fit() {
    let mut root = tree();
    for n in 2..10 {
        split(&mut root, p(n - 1), p(n), Axis::Horizontal, true);
    }
    let Some(node) = &root else { return };
    let placed = place(node, area(10, 3));
    assert!(placed.panes.iter().all(|(_, r)| r.w >= MIN && r.h >= MIN));
    let used: u16 = placed.panes.iter().map(|(_, r)| r.w).sum::<u16>() + placed.separators.len() as u16;
    assert_eq!(used, 10);
    assert!(placed.panes.len() < 9);
    assert!(place(node, area(0, 5)).panes.is_empty());
}

#[test]
fn removal_collapses_and_merges() {
    let mut root = tree();
    split(&mut root, p(1), p(2), Axis::Vertical, true);
    split(&mut root, p(2), p(3), Axis::Horizontal, true);
    assert!(remove(&mut root, p(1)));
    // (0 | (1 / (2 | 3))) minus 1 is (0 | 2 | 3), merged along one axis.
    assert!(
        matches!(&root, Some(Node::Split { axis: Axis::Horizontal, children }) if children.len() == 3)
    );
    remove(&mut root, p(2));
    remove(&mut root, p(3));
    assert_eq!(root, Some(Node::Pane(p(0))));
    assert!(remove(&mut root, p(0)));
    assert_eq!(root, None);
    assert!(!remove(&mut root, p(0)));
    let mut empty = None;
    assert!(split(&mut empty, p(9), p(5), Axis::Vertical, true));
    assert_eq!(empty, Some(Node::Pane(p(5))));
}

#[test]
fn directional_neighbours_prefer_alignment_then_distance_then_id() {
    // 0 | (1 / 2)
    let mut root = tree();
    split(&mut root, p(1), p(2), Axis::Vertical, true);
    let Some(node) = &root else { return };
    let placed = place(node, area(80, 24));
    assert_eq!(neighbor(&placed, p(0), Direction::Right), Some(p(1)));
    assert_eq!(neighbor(&placed, p(2), Direction::Left), Some(p(0)));
    assert_eq!(neighbor(&placed, p(1), Direction::Down), Some(p(2)));
    assert_eq!(neighbor(&placed, p(2), Direction::Up), Some(p(1)));
    assert_eq!(neighbor(&placed, p(0), Direction::Left), None);
    assert_eq!(neighbor(&placed, p(1), Direction::Right), None);
}

#[test]
fn resizing_moves_the_nearest_border_and_respects_minimums() {
    let mut root = tree();
    let Some(node) = &mut root else { return };
    let a = area(81, 24);
    assert!(resize(node, a, p(0), Direction::Right, 10));
    let placed = place(node, a);
    assert_eq!(placed.rect(p(0)).map(|r| r.w), Some(50));
    assert_eq!(placed.rect(p(1)).map(|r| r.w), Some(30));
    // Left from the leftmost pane shrinks it, moving its right border.
    assert!(resize(node, a, p(0), Direction::Left, 5));
    assert_eq!(place(node, a).rect(p(0)).map(|r| r.w), Some(45));
    // Never below the minimum.
    assert!(resize(node, a, p(1), Direction::Left, 200));
    assert_eq!(place(node, a).rect(p(0)).map(|r| r.w), Some(MIN));
    // No split along the vertical axis: nothing to move.
    assert!(!resize(node, a, p(0), Direction::Up, 1));
}

#[test]
fn swapping_exchanges_places() {
    let mut root = tree();
    let Some(node) = &mut root else { return };
    swap(node, p(0), p(1));
    assert_eq!(node.panes(), vec![p(1), p(0)]);
}

#[test]
fn resizing_and_normalizing_keep_the_panes_in_order() {
    let mut root = tree();
    split(&mut root, p(1), p(2), Axis::Vertical, true);
    split(&mut root, p(0), p(3), Axis::Horizontal, false);
    let Some(node) = &mut root else { return };
    let before = node.panes();
    assert_eq!(before, vec![p(3), p(0), p(1), p(2)]);
    assert!(resize(node, area(80, 24), p(2), Direction::Up, 3));
    assert_eq!(node.panes(), before);
    let mut nested = Node::Split {
        axis: Axis::Horizontal,
        children: vec![
            (1, Node::Split { axis: Axis::Horizontal, children: vec![(1, Node::Pane(p(7))), (1, Node::Pane(p(8)))] }),
            (1, Node::Split { axis: Axis::Vertical, children: vec![(1, Node::Pane(p(9)))] }),
            (1, Node::Split { axis: Axis::Vertical, children: vec![] }),
        ],
    };
    fux::layout::normalize(&mut nested);
    assert_eq!(nested.panes(), vec![p(7), p(8), p(9)]);
    assert!(matches!(&nested, Node::Split { axis: Axis::Horizontal, children } if children.len() == 3));
    let once = nested.clone();
    fux::layout::normalize(&mut nested);
    assert_eq!(nested, once);
}

#[test]
fn a_roomy_area_places_every_pane_at_its_minimum_or_more() {
    let mut root = tree();
    for n in 2..10 {
        split(&mut root, p(n - 1), p(n), Axis::Horizontal, true);
    }
    let Some(node) = &root else { return };
    // Ten panes of two cells and nine separators need 29 cells.
    let placed = place(node, area(29, 2));
    assert_eq!(placed.panes.len(), 10);
    assert!(placed.panes.iter().all(|(_, r)| r.w >= MIN && r.h == 2));
    let ids: Vec<PaneId> = placed.panes.iter().map(|(id, _)| *id).collect();
    assert_eq!(ids, node.panes());
    let mut removed = root;
    assert!(remove(&mut removed, p(4)));
    let left = removed.map(|n| n.panes()).unwrap_or_default();
    assert_eq!(left, vec![p(0), p(1), p(2), p(3), p(5), p(6), p(7), p(8), p(9)]);
}

#[test]
fn a_cloned_layout_places_alike() {
    let root = tree();
    let Some(node) = &root else { return };
    let copy = node.clone();
    assert_eq!(&copy, node);
    assert_eq!(place(&copy, area(80, 24)), place(node, area(80, 24)));
}

#[test]
fn a_roomy_placement_leaves_no_cell_uncovered() {
    let mut root = tree();
    split(&mut root, p(1), p(2), Axis::Vertical, true);
    split(&mut root, p(0), p(3), Axis::Vertical, false);
    split(&mut root, p(2), p(4), Axis::Horizontal, true);
    let Some(node) = &root else { return };
    for (w, h) in [(80u16, 24u16), (17, 9), (33, 7)] {
        let placed = place(node, area(w, h));
        let total: u32 = placed.panes.iter().map(|(_, r)| u32::from(r.w) * u32::from(r.h)).sum::<u32>()
            + placed.separators.iter().map(|s| u32::from(s.len)).sum::<u32>();
        assert_eq!(total, u32::from(w) * u32::from(h));
        for x in 0..w {
            for y in 0..h {
                let in_pane = placed.panes.iter().any(|(_, r)| r.contains(x, y));
                let on_separator = placed.separators.iter().any(|s: &Separator| {
                    if s.vertical {
                        x == s.x && s.y <= y && y < s.y + s.len
                    } else {
                        y == s.y && s.x <= x && x < s.x + s.len
                    }
                });
                assert!(in_pane || on_separator, "{w}x{h}: ({x}, {y})");
            }
        }
    }
}

#[test]
fn panes_in_a_roomy_area_keep_their_minimum_and_separators_touch_no_pane() {
    let mut root = tree();
    split(&mut root, p(1), p(2), Axis::Horizontal, true);
    split(&mut root, p(2), p(3), Axis::Vertical, true);
    split(&mut root, p(0), p(4), Axis::Vertical, false);
    let Some(node) = &root else { return };
    let placed = place(node, area(30, 9));
    assert_eq!(placed.panes.len(), 5);
    for (_, r) in &placed.panes {
        assert!(r.w >= MIN && r.h >= MIN, "{r:?}");
    }
    let sep_cells = |s: &Separator| -> Vec<(u16, u16)> {
        (0..s.len)
            .map(|i| if s.vertical { (s.x, s.y + i) } else { (s.x + i, s.y) })
            .collect()
    };
    let mut seen = std::collections::HashSet::new();
    for s in &placed.separators {
        for (x, y) in sep_cells(s) {
            assert!(x < 30 && y < 9);
            assert!(seen.insert((x, y)), "two separators on ({x}, {y})");
            for (_, r) in &placed.panes {
                assert!(!r.contains(x, y), "separator on a pane at ({x}, {y})");
            }
        }
    }
    assert!(!placed.separators.is_empty());
}
