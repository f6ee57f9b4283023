use niri_taskbar::niri::{Snapshot, Window, Workspace};
use niri_taskbar::output::Filter;
use niri_taskbar::taskbar::{Instance, PageKey, Step, Transition};

fn window(id: u64, workspace: u64, output: &str) -> Window {
    Window {
        id,
        title: None,
        app_id: None,
        pid: None,
        workspace,
        output: Some(output.to_string()),
        is_focused: false,
        is_floating: false,
        is_urgent: false,
        position: None,
    }
}

fn workspace(id: u64, idx: u8, output: &str, active: bool, focused: bool) -> Workspace {
    Workspace {
        id,
        idx,
        name: None,
        output: Some(output.to_string()),
        is_urgent: false,
        is_active: active,
        is_focused: focused,
    }
}

fn snapshot(windows: Vec<Window>, workspaces: Vec<Workspace>) -> Snapshot {
    Snapshot { windows, workspaces }
}

#[test]
fn pages_have_names() {
    assert_eq!(PageKey::All.name(), "all");
    assert_eq!(PageKey::Workspace(120).name(), "workspace-120");
}

#[test]
fn buttons_come_and_go() {
    let mut taskbar = Instance::new();
    let all = PageKey::All;
    let layout = taskbar.process_window_snapshot(
        &snapshot(vec![window(5, 1, "A"), window(3, 2, "A"), window(4, 1, "B")], vec![]),
        &Filter::Only("A".to_string()),
        false,
    );
    assert_eq!(
        layout.steps,
        vec![
            Step::AddPage(all),
            Step::NewButton { id: 5, page: all },
            Step::Update { window: 0, id: 5, page: all },
            Step::NewButton { id: 3, page: all },
            Step::Update { window: 1, id: 3, page: all },
        ]
    );
    assert_eq!(layout.target, all);
    assert_eq!(layout.target_idx, None);
    assert_eq!(layout.visible, vec![5, 3]);
    assert_eq!(layout.focused, None);
    assert!(taskbar.has_button(5) && taskbar.has_button(3) && !taskbar.has_button(4));

    let mut focused = window(4, 1, "B");
    focused.is_focused = true;
    let layout = taskbar.process_window_snapshot(
        &snapshot(vec![focused], vec![]),
        &Filter::ShowAll,
        false,
    );
    assert_eq!(
        layout.steps,
        vec![
            Step::NewButton { id: 4, page: all },
            Step::Update { window: 0, id: 4, page: all },
            Step::RemoveButton { id: 3, from: Some(all) },
            Step::RemoveButton { id: 5, from: Some(all) },
        ]
    );
    assert_eq!(layout.focused, Some(4));
    assert!(!taskbar.has_button(5));
}

#[test]
fn only_the_active_workspace_shows() {
    let mut taskbar = Instance::new();
    let (one, two) = (PageKey::Workspace(1), PageKey::Workspace(2));
    let workspaces = || {
        vec![
            workspace(1, 1, "A", true, false),
            workspace(2, 1, "B", true, true),
            workspace(3, 2, "B", false, false),
        ]
    };
    let layout = taskbar.process_window_snapshot(
        &snapshot(vec![window(7, 1, "A"), window(8, 2, "B")], workspaces()),
        &Filter::ShowAll,
        true,
    );
    assert_eq!((layout.target, layout.target_idx), (two, Some(1)));
    assert_eq!(layout.visible, vec![8]);

    // The window moves to the other workspace, and its button with it.
    let layout = taskbar.process_window_snapshot(
        &snapshot(vec![window(8, 1, "A"), window(7, 1, "A")], workspaces()),
        &Filter::Only("A".to_string()),
        true,
    );
    assert_eq!((layout.target, layout.target_idx), (one, Some(1)));
    assert_eq!(
        layout.steps,
        vec![
            Step::MoveButton { id: 8, from: Some(two), to: one },
            Step::Update { window: 0, id: 8, page: one },
            Step::Update { window: 1, id: 7, page: one },
        ]
    );
    assert_eq!(layout.visible, vec![8, 7]);
}

#[test]
fn an_empty_workspace_still_has_a_page() {
    let mut taskbar = Instance::new();
    let layout = taskbar.process_window_snapshot(
        &snapshot(vec![], vec![workspace(4, 3, "A", true, false)]),
        &Filter::ShowAll,
        true,
    );
    assert_eq!(layout.steps, vec![Step::AddPage(PageKey::Workspace(4))]);
    assert_eq!((layout.target, layout.target_idx), (PageKey::Workspace(4), Some(3)));
    let layout = taskbar.process_window_snapshot(&snapshot(vec![], vec![]), &Filter::ShowAll, true);
    assert_eq!((layout.target, layout.target_idx), (PageKey::All, None));
}

#[test]
fn pages_slide_the_way_workspaces_do() {
    let mut taskbar = Instance::new();
    let page = PageKey::Workspace;
    assert_eq!(taskbar.switch_page(None, page(1), Some(1), 250), Some(Transition::Cut));
    assert_eq!(taskbar.switch_page(Some("workspace-1"), page(2), Some(2), 250), Some(Transition::SlideUp));
    assert_eq!(taskbar.switch_page(Some("workspace-2"), page(2), Some(2), 250), None);
    assert_eq!(taskbar.switch_page(Some("workspace-2"), page(1), Some(1), 250), Some(Transition::SlideDown));
    assert_eq!(taskbar.switch_page(Some("workspace-1"), page(3), Some(1), 250), Some(Transition::Cut));
    assert_eq!(taskbar.switch_page(Some("workspace-3"), page(2), Some(2), 0), Some(Transition::Cut));
    assert_eq!(taskbar.switch_page(Some("x"), PageKey::All, None, 250), Some(Transition::Cut));
}

#[test]
fn stale_pages_are_pruned_once_nothing_slides() {
    let mut taskbar = Instance::new();
    for id in [3, 1, 2, 9] {
        assert!(taskbar.ensure_page(PageKey::Workspace(id)));
    }
    assert!(!taskbar.ensure_page(PageKey::Workspace(3)));
    assert!(taskbar.ensure_page(PageKey::All));
    let workspaces = vec![workspace(2, 1, "A", false, false)];
    assert!(taskbar.prune_pages(&workspaces, PageKey::Workspace(9), true).is_empty());
    assert_eq!(taskbar.prune_pages(&workspaces, PageKey::Workspace(9), false), vec![1, 3]);
    assert!(taskbar.prune_pages(&workspaces, PageKey::Workspace(9), false).is_empty());
    assert!(!taskbar.ensure_page(PageKey::All));
    assert!(taskbar.ensure_page(PageKey::Workspace(1)));
}

#[test]
fn rows_end_up_in_the_order_of_the_snapshot() {
    let mut taskbar = Instance::new();
    let mut row: Vec<u64> = Vec::new();
    for ids in [vec![1, 2, 3, 4], vec![4, 2, 5], vec![6, 5, 4, 1], vec![]] {
        let windows = ids.iter().map(|id| window(*id, 1, "A")).collect();
        let layout = taskbar.process_window_snapshot(&snapshot(windows, vec![]), &Filter::ShowAll, false);
        for step in layout.steps {
            match step {
                Step::NewButton { id, .. } => row.push(id),
                Step::Update { id, .. } => {
                    row.retain(|x| *x != id);
                    row.push(id);
                }
                Step::RemoveButton { id, .. } => row.retain(|x| *x != id),
                Step::AddPage(_) | Step::MoveButton { .. } => {}
            }
        }
        assert_eq!(row, ids);
    }
}
