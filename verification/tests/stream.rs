use niri_taskbar::niri::{Action, Niri, Request, Snapshot};
use niri_taskbar::stream::{
    event_of, items_for, read_failed, Backoff, Ended, Event, Item, ReadError,
};

fn snapshot() -> Snapshot {
    Snapshot { windows: vec![], workspaces: vec![] }
}

#[test]
fn hints_come_before_snapshots() {
    assert!(matches!(
        items_for(true, Some(snapshot()))[..],
        [Item::WorkspacesChanged, Item::Snapshot(_)]
    ));
    assert!(matches!(items_for(false, Some(snapshot()))[..], [Item::Snapshot(_)]));
    assert!(matches!(items_for(true, None)[..], [Item::WorkspacesChanged]));
    assert!(items_for(false, None).is_empty());
}

#[test]
fn items_become_events() {
    assert!(matches!(event_of::<u8>(Item::WorkspacesChanged), Event::OutputsChanged));
    assert!(matches!(event_of::<u8>(Item::Snapshot(snapshot())), Event::WindowSnapshot(_)));
}

#[test]
fn waits_double_up_to_a_limit() {
    let mut backoff = Backoff::new();
    let waits: Vec<_> = (0..6).map(|_| backoff.ended(Ended::Failed).unwrap()).collect();
    assert_eq!(waits, vec![1000, 2000, 4000, 8000, 10_000, 10_000]);
    backoff.connected();
    assert_eq!(backoff.ended(Ended::Failed), Some(1000));
    assert_eq!(backoff.ended(Ended::ReceiverGone), None);
}

#[test]
fn events_that_are_not_known_are_skipped() {
    assert_eq!(read_failed(ReadError::InvalidData), None);
    assert_eq!(read_failed(ReadError::Other), Some(Ended::Failed));
}

#[test]
fn requests_say_what_they_are_for() {
    let niri = Niri::new();
    assert!(matches!(niri.activate_window(3), Request::Action(Action::FocusWindow { id: 3 })));
    assert!(matches!(
        niri.move_column_to_index(2),
        Request::Action(Action::MoveColumnToIndex { index: 2 })
    ));
    assert!(matches!(niri.focus_workspace(4), Request::Action(Action::FocusWorkspace { id: 4 })));
    assert!(matches!(
        niri.action(Action::MaximizeColumn),
        Request::Action(Action::MaximizeColumn)
    ));
    assert!(matches!(niri.windows(), Request::Windows));
    assert!(matches!(niri.workspaces(), Request::Workspaces));
    assert!(matches!(niri.outputs(), Request::Outputs));
}
