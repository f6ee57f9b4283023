use niri_taskbar::niri::{Snapshot, Workspace};
use niri_taskbar::snapshot::{collect, Toplevel};

fn toplevel(id: u64, workspace_id: Option<u64>) -> Toplevel {
    Toplevel {
        id,
        title: Some(format!("window {}", id)),
        app_id: None,
        pid: Some(100),
        workspace_id,
        is_focused: id == 4,
        is_floating: false,
        is_urgent: false,
        position: Some((1, 1)),
    }
}

fn workspace(id: u64, idx: u8, output: &str) -> Workspace {
    Workspace {
        id,
        idx,
        name: None,
        output: Some(output.to_string()),
        is_urgent: false,
        is_active: true,
        is_focused: false,
    }
}

fn ids(snapshot: &Snapshot) -> Vec<u64> {
    snapshot.windows.iter().map(|window| window.id).collect()
}

#[test]
fn windows_follow_workspace_index_and_then_their_id() {
    let windows = vec![
        toplevel(9, Some(1)),
        toplevel(4, Some(7)),
        toplevel(2, Some(1)),
        toplevel(3, Some(7)),
    ];
    // Workspace 7 comes first, since it's the index that counts.
    let snapshot = collect(&windows, vec![workspace(1, 2, "DP-1"), workspace(7, 1, "DP-2")]);

    assert_eq!(ids(&snapshot), vec![3, 4, 2, 9]);
    assert_eq!(snapshot.windows[1].workspace, 7);
    assert_eq!(snapshot.windows[1].output.as_deref(), Some("DP-2"));
    assert_eq!(snapshot.windows[1].title.as_deref(), Some("window 4"));
    assert!(snapshot.windows[1].is_focused);
    assert_eq!(snapshot.workspaces.len(), 2);
    assert_eq!(snapshot.workspaces[0].id, 1);
}

#[test]
fn the_same_index_on_two_outputs_is_ordered_by_id() {
    let windows = vec![toplevel(5, Some(1)), toplevel(6, Some(2)), toplevel(1, Some(2))];
    let snapshot = collect(&windows, vec![workspace(1, 1, "DP-1"), workspace(2, 1, "DP-2")]);

    assert_eq!(ids(&snapshot), vec![1, 5, 6]);
}

#[test]
fn windows_on_no_workspace_are_left_out() {
    let windows = vec![toplevel(1, None), toplevel(2, Some(8)), toplevel(3, Some(1))];
    let snapshot = collect(&windows, vec![workspace(1, 1, "DP-1")]);

    assert_eq!(ids(&snapshot), vec![3]);
    assert!(ids(&collect(&Vec::new(), Vec::new())).is_empty());
}
