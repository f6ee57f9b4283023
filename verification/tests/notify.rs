use niri_taskbar::config::Config;
use niri_taskbar::niri::{Snapshot, Window};
use niri_taskbar::notify::{
    by_app_id, by_lowered, by_pid, process_notification, Lowered, PidWindowMap,
};
use niri_taskbar::output::Filter;
use niri_taskbar::taskbar::Instance;

fn window(id: u64, pid: Option<i32>, app_id: Option<&str>) -> Window {
    Window {
        id,
        title: None,
        app_id: app_id.map(|s| s.to_string()),
        pid,
        workspace: 1,
        output: None,
        is_focused: false,
        is_floating: false,
        is_urgent: false,
        position: None,
    }
}

fn with_buttons(windows: Vec<Window>) -> (Snapshot, Instance) {
    let snapshot = Snapshot { windows, workspaces: vec![] };
    let mut taskbar = Instance::new();
    taskbar.process_window_snapshot(&snapshot, &Filter::ShowAll, false);
    (snapshot, taskbar)
}

#[test]
fn the_last_window_of_a_process_counts() {
    let windows = vec![window(1, Some(7), None), window(2, None, None), window(3, Some(7), None)];
    let map = PidWindowMap::new(&windows);
    assert_eq!(map.get(7), Some(2));
    assert_eq!(map.get(8), None);
    assert_eq!(map.get(i64::from(i32::MAX) + 1), None);
}

#[test]
fn senders_are_followed_up_to_their_windows() {
    let mut windows = vec![
        window(1, Some(10), None),
        window(2, Some(20), None),
        window(3, Some(30), None),
    ];
    windows[1].is_focused = true;
    let (snapshot, taskbar) = with_buttons(windows);
    assert_eq!(by_pid(&snapshot.windows, &taskbar, &vec![99, 30, 20, 10]), vec![3, 1]);
    assert!(by_pid(&snapshot.windows, &taskbar, &vec![20]).is_empty());
    assert!(by_pid(&snapshot.windows, &Instance::new(), &vec![30]).is_empty());
}

#[test]
fn exact_matches_come_before_fuzzy_ones() {
    let (snapshot, taskbar) = with_buttons(vec![
        window(1, None, Some("org.example.App")),
        window(2, None, Some("ORG.EXAMPLE.APP")),
        window(3, None, Some("com.other.app")),
        window(4, None, Some("app")),
        window(5, None, None),
    ]);
    let windows = &snapshot.windows;
    assert_eq!(by_app_id(windows, &taskbar, "org.example.App", true), vec![1]);
    assert_eq!(by_app_id(windows, &taskbar, "Org.Example.App", true), vec![1, 2, 3]);
    assert!(by_app_id(windows, &taskbar, "Org.Example.App", false).is_empty());
    assert_eq!(by_app_id(windows, &taskbar, "App", true), vec![1, 2, 3, 4]);
    assert_eq!(by_app_id(windows, &taskbar, "ÉTÉ.APP", true), vec![1, 2, 3]);
}

#[test]
fn case_is_folded_by_unicode() {
    let (snapshot, taskbar) = with_buttons(vec![window(1, None, Some("ÉTÉ"))]);
    assert_eq!(by_app_id(&snapshot.windows, &taskbar, "été", true), vec![1]);
}

#[test]
fn lower_case_names_decide_fuzzy_matches() {
    let (snapshot, taskbar) = with_buttons(vec![
        window(1, None, Some("A.B")),
        window(2, None, Some("B")),
        window(3, None, Some("C")),
    ]);
    let lowered = |whole: &str, last: &str| Lowered {
        whole: whole.to_string(),
        last: last.to_string(),
    };
    let own = vec![lowered("x", "last"), lowered("y", "last"), lowered("whole", "z")];
    let mapped = lowered("whole", "last");
    assert_eq!(by_lowered(&snapshot.windows, &taskbar, &own, "m", &mapped, true), vec![1, 3]);
    assert!(by_lowered(&snapshot.windows, &taskbar, &own, "m", &mapped, false).is_empty());
    assert_eq!(by_lowered(&snapshot.windows, &taskbar, &own, "B", &mapped, true), vec![2]);
}

#[test]
fn notifications_lead_to_windows() {
    let (snapshot, taskbar) = with_buttons(vec![
        window(1, Some(10), Some("mail")),
        window(2, Some(20), Some("chat")),
    ]);
    let mut config = Config::default();
    let none: Vec<i64> = vec![];
    let process = |config: &Config, pids: &Vec<i64>, entry| {
        process_notification(Some(&snapshot), &taskbar, config, pids, entry)
    };
    assert_eq!(process(&config, &vec![5, 20], Some("mail")), vec![2]);
    assert_eq!(process(&config, &vec![5], Some("mail")), vec![1]);
    assert!(process(&config, &none, None).is_empty());
    assert!(process_notification(None, &taskbar, &config, &vec![20], Some("mail")).is_empty());
    config
        .notifications
        .map_app_ids
        .insert("org.mail".to_string(), "mail".to_string());
    assert_eq!(process(&config, &none, Some("org.mail")), vec![1]);
    config.notifications.use_desktop_entry = false;
    assert!(process(&config, &none, Some("mail")).is_empty());
    assert_eq!(process(&config, &vec![10], None), vec![1]);
}
