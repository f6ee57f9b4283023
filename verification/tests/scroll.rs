use niri_taskbar::scroll::{Direction, Outcome, Reach, ScrollEvent, ScrollState, Sum};

fn showing(ids: &[u64], focused: Option<u64>) -> ScrollState {
    let mut state = ScrollState::new();
    state.show(ids.to_vec(), focused);
    state
}

fn event(direction: Direction, time: u32) -> ScrollEvent {
    ScrollEvent { direction, time }
}

#[test]
fn scrolling_goes_one_window_at_a_time() {
    let mut state = showing(&[10, 20, 30], Some(20));
    assert_eq!(state.cycle_target(true, false), Some(30));
    assert_eq!(state.cycle_target(true, false), None);
    assert_eq!(state.current_idx(), Some(2));
    assert_eq!(state.cycle_target(true, true), Some(10));
    assert_eq!(state.cycle_target(false, false), None);
    assert_eq!(state.cycle_target(false, true), Some(30));
    assert_eq!(state.cycle_target(false, true), Some(20));
}

#[test]
fn scrolling_from_nowhere_starts_at_an_end() {
    assert_eq!(showing(&[10, 20], None).cycle_target(true, false), Some(10));
    assert_eq!(showing(&[10, 20], None).cycle_target(false, false), Some(20));
}

#[test]
fn there_may_be_nothing_to_scroll_through() {
    let mut state = showing(&[1, 2], Some(2));
    state.show(vec![], None);
    assert_eq!(state.current_idx(), Some(0));
    assert_eq!(state.cycle_target(true, true), None);
    assert_eq!(state.current_idx(), None);
}

#[test]
fn the_place_is_kept_as_far_as_it_can_be() {
    let mut state = showing(&[1, 2, 3, 4], Some(3));
    state.show(vec![1, 2, 5, 6], None);
    assert_eq!(state.current_idx(), Some(2));
    state.show(vec![1, 2], Some(9));
    assert_eq!(state.current_idx(), Some(1));
    state.show(vec![7, 8, 8], Some(8));
    assert_eq!(state.current_idx(), Some(1));
}

#[test]
fn one_window_can_stand_in_for_another() {
    let mut state = showing(&[1, 2, 1], Some(2));
    state.restop(1, 9);
    assert_eq!(*state.visible_window_ids(), vec![9, 2, 9]);
    assert_eq!(state.current_idx(), Some(1));
}

#[test]
fn the_wheel_goes_through_the_windows() {
    let mut state = showing(&[1, 2, 3], Some(2));
    let moved = |id| Outcome {
        stop: true,
        vertical: Sum::Kept,
        horizontal: Sum::Kept,
        activate: id,
    };
    assert_eq!(state.handle_bar_scroll_event(false, false, &event(Direction::Up, 5)), moved(Some(3)));
    assert_eq!(state.handle_bar_scroll_event(false, false, &event(Direction::Down, 5)), moved(None));
    assert_eq!(state.handle_bar_scroll_event(false, false, &event(Direction::Left, 6)), moved(Some(2)));
    assert_eq!(state.handle_bar_scroll_event(false, true, &event(Direction::Right, 7)), moved(Some(1)));
    assert_eq!(state.handle_bar_scroll_event(false, false, &event(Direction::Down, 8)), moved(None));
    assert_eq!(state.handle_bar_scroll_event(true, false, &event(Direction::Down, 8)), moved(Some(3)));
}

#[test]
fn smooth_scrolling_adds_up() {
    let mut state = showing(&[1, 2, 3], Some(2));
    let mut handle = |direction, time| state.handle_bar_scroll_event(false, false, &event(direction, time));
    let r = handle(Direction::SmoothVertical(Reach::Within), 1);
    assert_eq!((r.stop, r.vertical, r.horizontal, r.activate), (true, Sum::Stored, Sum::Kept, None));
    let r = handle(Direction::SmoothVertical(Reach::Low), 2);
    assert_eq!((r.vertical, r.horizontal, r.activate), (Sum::Cleared, Sum::Kept, Some(3)));
    let r = handle(Direction::SmoothHorizontal(Reach::Low), 3);
    assert_eq!((r.vertical, r.horizontal, r.activate), (Sum::Kept, Sum::Cleared, Some(2)));
    let r = handle(Direction::SmoothHorizontal(Reach::Within), 4);
    assert_eq!((r.vertical, r.horizontal, r.activate), (Sum::Kept, Sum::Stored, None));
    let r = handle(Direction::SmoothHorizontal(Reach::High), 5);
    assert_eq!(r.activate, Some(3));
    let r = handle(Direction::SmoothVertical(Reach::High), 6);
    assert_eq!(r.activate, Some(2));
    let r = handle(Direction::SmoothStop, 7);
    assert_eq!((r.stop, r.vertical, r.horizontal, r.activate), (true, Sum::Cleared, Sum::Cleared, None));
}

#[test]
fn other_events_go_on_their_way() {
    let mut state = showing(&[1], None);
    let r = state.handle_bar_scroll_event(true, false, &event(Direction::Other, 1));
    assert!(!r.stop);
    let mut state = ScrollState::new();
    let r = state.handle_bar_scroll_event(true, false, &event(Direction::SmoothVertical(Reach::Low), 1));
    assert_eq!((r.stop, r.vertical, r.activate), (false, Sum::Kept, None));
}

#[test]
fn wrapping_goes_round_either_way() {
    for (forward, ids) in [(true, [30, 10, 20]), (false, [10, 30, 20])] {
        let mut state = showing(&[10, 20, 30], Some(20));
        for id in ids {
            assert_eq!(state.cycle_target(forward, true), Some(id));
        }
        assert_eq!(state.current_idx(), Some(1));
    }
}
