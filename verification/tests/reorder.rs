use std::collections::HashMap;

use niri_taskbar::reorder::{Child, Placement, Reorder};

fn placement(workspace: u64, column: Option<usize>, order: usize) -> Placement {
    Placement { workspace, column, order }
}

/// A row of buttons ten wide, side by side.
fn row(windows: &[Option<u64>]) -> Vec<Child> {
    windows
        .iter()
        .enumerate()
        .map(|(i, window)| Child { window: *window, x: 10 * i as i32, width: 10 })
        .collect()
}

fn reorder(placements: &[(u64, Placement)]) -> Reorder {
    let mut r = Reorder::new();
    r.set_placements(placements.iter().copied().collect::<HashMap<_, _>>());
    r
}

fn three_columns() -> Reorder {
    reorder(&[
        (1, placement(1, Some(1), 0)),
        (2, placement(1, Some(2), 1)),
        (3, placement(1, Some(2), 2)),
        (4, placement(1, Some(3), 3)),
    ])
}

#[test]
fn columns_land_where_the_pointer_is() {
    let r = three_columns();
    let children = row(&[Some(1), Some(2), Some(3), Some(4)]);
    // The middle of the stack is at 20, and of the last column at 35.
    assert_eq!(r.arrange(1, 1, &children, 40), (vec![0, 1, 2, 3], 1));
    assert_eq!(r.arrange(1, 1, &children, 41), (vec![1, 2, 0, 3], 2));
    assert_eq!(r.arrange(1, 1, &children, 70), (vec![1, 2, 0, 3], 2));
    assert_eq!(r.arrange(1, 1, &children, 71), (vec![1, 2, 3, 0], 3));
    assert_eq!(r.arrange(1, 2, &children, 0), (vec![1, 2, 0, 3], 1));
}

#[test]
fn buttons_without_a_column_are_passed_over() {
    let r = reorder(&[
        (1, placement(1, Some(1), 0)),
        (2, placement(2, Some(1), 1)),
        (3, placement(1, None, 2)),
        (4, placement(1, Some(2), 3)),
    ]);
    let children = row(&[Some(1), Some(2), Some(3), None, Some(4)]);
    assert_eq!(r.arrange(1, 1, &children, 1000), (vec![1, 2, 3, 4, 0], 2));
    assert_eq!(r.arrange(1, 1, &children, 0), (vec![1, 2, 3, 0, 4], 1));
    // Nothing to drag, or nothing to drag it past.
    assert_eq!(r.arrange(1, 9, &children, 0), (vec![0, 1, 2, 3, 4], 9));
    assert_eq!(r.arrange(2, 1, &children, 0), (vec![0, 1, 2, 3, 4], 1));
}

#[test]
fn a_drag_runs_its_course() {
    let mut r = three_columns();
    let children = row(&[Some(1), Some(2), Some(3), Some(4)]);
    assert!(r.press(1, true, (3, 4)));
    assert!(!r.is_dragging());
    assert_eq!(r.waiting_from(), Some((3, 4)));

    let m = r.motion(false, Some(&children), 100);
    assert!(!m.stop && !m.begun && m.order.is_none() && m.request.is_none());
    assert!(!r.is_dragging());

    let m = r.motion(true, Some(&children), 100);
    assert!(m.stop && m.begun);
    assert_eq!(m.order, Some(vec![1, 2, 3, 0]));
    assert_eq!(m.request, Some(3));
    assert!(r.is_dragging());
    assert_eq!(r.waiting_from(), None);
    r.moved(3, true);

    // Niri has been asked already.
    let m = r.motion(false, Some(&children), 100);
    assert!(m.stop && !m.begun);
    assert_eq!(m.request, None);

    // The snapshot that follows hasn't arrived, so the row stays as it is.
    let ended = r.release(Some(&children));
    assert!(ended.dragged && ended.order.is_none());
    assert!(!r.is_dragging());
    assert!(!r.release(Some(&children)).dragged);
}

#[test]
fn a_drag_that_fails_puts_the_row_back() {
    let mut r = three_columns();
    let moved = row(&[Some(2), Some(3), Some(4), None, Some(1)]);
    assert!(!r.press(1, false, (0, 0)));
    let m = r.motion(true, Some(&moved), 0);
    assert_eq!(m.request, None);
    let ended = r.release(Some(&moved));
    assert_eq!(ended.order, Some(vec![4, 0, 1, 2, 3]));

    r.press(1, true, (0, 0));
    r.motion(true, Some(&moved), 1000);
    r.moved(3, false);
    assert_eq!(r.motion(true, Some(&moved), 1000).request, None);
    assert_eq!(r.release(Some(&moved)).order, Some(vec![4, 0, 1, 2, 3]));
}

#[test]
fn a_drag_that_is_settled_lines_the_row_up() {
    let mut r = three_columns();
    let children = row(&[Some(4), Some(1)]);
    r.press(1, true, (0, 0));
    r.motion(true, None, 0);
    assert_eq!(r.release(Some(&children)).order, Some(vec![1, 0]));
}

#[test]
fn a_drag_that_is_broken_off_puts_the_row_back() {
    let mut r = three_columns();
    let children = row(&[Some(4), Some(1)]);
    r.press(1, true, (0, 0));
    assert!(!r.cancel(Some(&children)).dragged);
    r.press(1, true, (0, 0));
    r.motion(true, Some(&children), 0);
    assert_eq!(r.cancel(Some(&children)).order, Some(vec![1, 0]));
    assert!(!r.is_dragging());
}

#[test]
fn floating_windows_cannot_be_dragged() {
    let mut r = reorder(&[(1, placement(1, None, 0))]);
    assert!(r.press(1, true, (0, 0)));
    assert_eq!(r.waiting_from(), None);
    assert!(!r.motion(true, None, 0).stop);
}
