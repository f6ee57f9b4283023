use niri_taskbar::config::ColumnGrouping;
use niri_taskbar::group::{
    crossing_counts, Change, Fired, Grouping, Refresh, Reshown, Swap, TimerStep, CLOSE_DELAY, OPEN_DELAY,
};
use niri_taskbar::niri::Window;

fn window(id: u64, position: Option<(usize, usize)>) -> Window {
    Window {
        id,
        title: None,
        app_id: None,
        pid: None,
        workspace: 1,
        output: None,
        is_focused: false,
        is_floating: false,
        is_urgent: false,
        position,
    }
}

/// A stack of three, between two windows on their own, with one of them focused.
fn windows(focused: u64) -> Vec<Window> {
    let mut all = vec![
        window(1, Some((1, 1))),
        window(2, Some((2, 1))),
        window(3, Some((2, 2))),
        window(9, None),
        window(4, Some((2, 3))),
        window(5, Some((3, 1))),
    ];
    for window in all.iter_mut() {
        window.is_focused = window.id == focused;
    }
    all
}

fn show(grouping: &mut Grouping, windows: Vec<Window>) -> (Vec<u64>, Vec<u64>, Vec<Change>) {
    let order = grouping.order(&windows);
    let mut slots: Vec<Option<Window>> = windows.into_iter().map(Some).collect();
    let ordered: Vec<Window> = order.iter().map(|i| slots[*i].take().unwrap()).collect();
    let ids = ordered.iter().map(|w| w.id).collect();
    let buttons = vec![true; ordered.len()];
    let applied = grouping.apply(&ordered, &buttons);
    (ids, applied.unstacked, applied.changes)
}

fn open(grouping: &mut Grouping, id: u64) {
    assert_eq!(grouping.enter(id, false), TimerStep::Start(OPEN_DELAY));
    match grouping.fired() {
        Fired::Open(opened) => grouping.opened(opened.opening.unwrap()),
        other => panic!("{other:?}"),
    }
}

#[test]
fn columns_are_told_apart_by_workspace() {
    let mut a = window(1, Some((2, 3)));
    assert_eq!(niri_taskbar::group::column(&a), Some((1, 2)));
    a.workspace = 7;
    assert_eq!(niri_taskbar::group::column(&a), Some((7, 2)));
    assert_eq!(niri_taskbar::group::column(&window(1, None)), None);
}

#[test]
fn stacks_sit_together_with_the_shown_window_first() {
    let mut grouping = Grouping::new(ColumnGrouping::Collapse);
    let (ids, unstacked, changes) = show(&mut grouping, windows(3));
    assert_eq!(ids, vec![1, 3, 2, 4, 9, 5]);
    assert!(unstacked.is_empty());
    assert_eq!(
        changes,
        vec![
            Change::Front { id: 3, cards: 2 },
            Change::Back { id: 2 },
            Change::Back { id: 4 },
        ]
    );
    assert_eq!(grouping.scroll_stop(4), 3);
    assert_eq!(grouping.scroll_stop(5), 5);
    assert_eq!(grouping.scroll_stops(&ids), vec![1, 3, 9, 5]);
    for id in ids.iter() {
        let stop = grouping.scroll_stop(*id);
        assert_eq!(grouping.scroll_stop(stop), stop);
    }
    for id in [2, 3, 4] {
        assert_eq!(grouping.scroll_stop(id), 3);
    }

    // The window that was focused last keeps showing once the focus has gone elsewhere.
    let (ids, ..) = show(&mut grouping, windows(5));
    assert_eq!(ids, vec![1, 3, 2, 4, 9, 5]);
    let (ids, ..) = show(&mut grouping, windows(4));
    assert_eq!(ids, vec![1, 4, 2, 3, 9, 5]);
    assert_eq!(grouping.focus_count(), 3);
}

#[test]
fn the_top_of_a_column_shows_to_start_with() {
    let mut grouping = Grouping::new(ColumnGrouping::Collapse);
    let (ids, ..) = show(&mut grouping, windows(1));
    assert_eq!(ids, vec![1, 2, 3, 4, 9, 5]);
}

#[test]
fn windows_that_leave_a_stack_get_their_buttons_back() {
    let mut grouping = Grouping::new(ColumnGrouping::Collapse);
    show(&mut grouping, windows(3));
    let (_, unstacked, changes) = show(&mut grouping, vec![window(2, Some((2, 1))), window(3, Some((3, 1)))]);
    assert_eq!(unstacked, vec![2, 3, 4]);
    assert!(changes.is_empty());
    assert!(grouping.stack(2).is_none());
}

#[test]
fn nothing_is_grouped_unless_it_is_wanted() {
    let mut grouping = Grouping::new(ColumnGrouping::Separate);
    let (ids, unstacked, changes) = show(&mut grouping, windows(3));
    assert_eq!(ids, vec![1, 2, 3, 9, 4, 5]);
    assert!(unstacked.is_empty() && changes.is_empty());
    let urgency = grouping.update_urgency(&vec![2], &vec![]);
    assert!(urgency.flyout.is_empty() && urgency.stacks.is_empty());
}

#[test]
fn stacks_open_once_the_pointer_has_rested() {
    let mut grouping = Grouping::new(ColumnGrouping::Collapse);
    show(&mut grouping, windows(3));
    assert_eq!(grouping.enter(1, false), TimerStep::Keep);
    assert_eq!(grouping.enter(3, true), TimerStep::Keep);
    assert_eq!(grouping.enter(3, false), TimerStep::Start(OPEN_DELAY));
    assert_eq!(grouping.stack_scope(), Some(&vec![3, 2, 4]));
    match grouping.fired() {
        Fired::Open(opened) => {
            assert!(opened.closed.is_none());
            let opening = opened.opening.unwrap();
            assert_eq!(opening.shown, 3);
            assert_eq!(opening.order, vec![3, 2, 4]);
            grouping.opened(opening);
        }
        other => panic!("{other:?}"),
    }
    assert_eq!(grouping.enter(4, false), TimerStep::Cancel);
    assert_eq!(grouping.enter(5, false), TimerStep::Start(CLOSE_DELAY));
    assert_eq!(grouping.stack_scope(), None);
    assert!(matches!(grouping.fired(), Fired::Close(Some(_))));
    assert!(matches!(grouping.fired(), Fired::Nothing));
}

#[test]
fn stacks_stay_open_while_the_pointer_is_over_them() {
    let mut grouping = Grouping::new(ColumnGrouping::Collapse);
    show(&mut grouping, windows(3));
    assert_eq!(grouping.leave(3), TimerStep::Cancel);
    open(&mut grouping, 3);
    assert_eq!(grouping.leave(3), TimerStep::Start(CLOSE_DELAY));
    assert_eq!(grouping.enter(4, false), TimerStep::Cancel);
    assert_eq!(grouping.leave(9), TimerStep::Start(CLOSE_DELAY));
    assert!(matches!(grouping.fired(), Fired::Nothing));
    assert_eq!(grouping.leave(4), TimerStep::Start(CLOSE_DELAY));
    assert!(matches!(grouping.fired(), Fired::Close(Some(_))));
}

#[test]
fn shutting_a_flyout_settles_what_its_stack_shows() {
    let mut grouping = Grouping::new(ColumnGrouping::Collapse);
    show(&mut grouping, windows(3));
    open(&mut grouping, 3);
    // While it's open, the focus moving on changes nothing.
    let (ids, ..) = show(&mut grouping, windows(4));
    assert_eq!(ids, vec![1, 3, 2, 4, 9, 5]);
    let closed = grouping.close().unwrap();
    assert_eq!(closed.shown, 3);
    assert_eq!(
        closed.reshown,
        Some(Reshown {
            swap: Some(Swap { from: 3, to: 4, cards: 2 }),
            collapse: Some(4),
            stuck: false,
        })
    );
    assert_eq!(grouping.scroll_stop(2), 4);
    let stack = grouping.stack(3).unwrap();
    assert_eq!(stack.buttons, vec![4, 3, 2]);
    assert_eq!(grouping.shut_stacks(), vec![(4, 2, 3)]);
    assert!(grouping.close().is_none());
}

#[test]
fn a_stack_without_the_button_it_needs_is_stuck() {
    let mut grouping = Grouping::new(ColumnGrouping::Collapse);
    let mut pair = vec![window(1, Some((1, 1))), window(2, Some((1, 2)))];
    grouping.order(&pair);
    grouping.apply(&pair, &vec![true, false]);
    open(&mut grouping, 1);
    pair[1].is_focused = true;
    grouping.order(&pair);
    grouping.apply(&pair, &vec![true, false]);
    let closed = grouping.close().unwrap();
    assert_eq!(closed.reshown, Some(Reshown { swap: None, collapse: None, stuck: true }));
}

#[test]
fn flyouts_keep_their_order_as_windows_come_and_go() {
    let mut grouping = Grouping::new(ColumnGrouping::Collapse);
    show(&mut grouping, windows(3));
    assert!(matches!(grouping.refresh_flyout(), Refresh::Nothing));
    open(&mut grouping, 3);
    show(&mut grouping, windows(4));
    match grouping.refresh_flyout() {
        Refresh::Update { uncollapse, focus } => {
            assert_eq!((uncollapse, focus), (Some(3), Some(4)));
        }
        other => panic!("{other:?}"),
    }

    // One goes, and another comes.
    let mut next = windows(4);
    next.remove(1);
    next.insert(0, window(7, Some((2, 4))));
    show(&mut grouping, next);
    match grouping.refresh_flyout() {
        Refresh::Reopen { closed, opened } => {
            let reshown = closed.unwrap().reshown.unwrap();
            assert_eq!(reshown.swap, Some(Swap { from: 3, to: 4, cards: 2 }));
            let opening = opened.unwrap().opening.unwrap();
            assert_eq!(opening.shown, 4);
            assert_eq!(opening.order, vec![3, 4, 7]);
            grouping.opened(opening);
        }
        other => panic!("{other:?}"),
    }

    show(&mut grouping, vec![window(1, None)]);
    assert!(matches!(grouping.refresh_flyout(), Refresh::Close(Some(_))));
}

#[test]
fn stacks_are_urgent_for_what_they_hide() {
    let mut grouping = Grouping::new(ColumnGrouping::Collapse);
    show(&mut grouping, windows(3));
    assert_eq!(grouping.update_urgency(&vec![3], &vec![]).stacks, vec![(3, false)]);
    assert_eq!(grouping.update_urgency(&vec![3, 4], &vec![]).stacks, vec![(3, true)]);
    assert!(grouping.update_urgency(&vec![4], &vec![]).flyout.is_empty());
    open(&mut grouping, 3);
    assert_eq!(grouping.update_urgency(&vec![2, 4, 5], &vec![2]).flyout, vec![4]);
    assert!(grouping.shut_stacks().is_empty());
}

#[test]
fn a_pair_has_one_card() {
    let mut grouping = Grouping::new(ColumnGrouping::Collapse);
    let pair = vec![window(1, Some((1, 1))), window(2, Some((1, 2)))];
    let (_, _, changes) = show(&mut grouping, pair);
    assert_eq!(changes, vec![Change::Front { id: 1, cards: 1 }, Change::Back { id: 2 }]);
    assert!(grouping.stack(1).unwrap().contains(2));
    assert_eq!(grouping.stack(1).unwrap().cards(), 1);
}

#[test]
fn crossings_count_unless_they_are_from_a_grab_or_inside() {
    assert!(crossing_counts(true, false));
    assert!(!crossing_counts(true, true));
    assert!(!crossing_counts(false, false));
}
