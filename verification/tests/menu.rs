use niri_taskbar::binds::{Bind, Binds};
use niri_taskbar::menu::{accelerator, describe_output, pick_keyval, popup, Choice, Item, Modifiers};
use niri_taskbar::niri::{Action, Listed, Output, Workspace};

fn window(id: u64, workspace: u64, position: Option<(usize, usize)>) -> Listed {
    Listed {
        id,
        workspace_id: Some(workspace),
        is_focused: false,
        is_floating: position.is_none(),
        position,
    }
}

fn workspace(id: u64, idx: u8, name: Option<&str>, output: Option<&str>) -> Workspace {
    Workspace {
        id,
        idx,
        name: name.map(|s| s.to_string()),
        output: output.map(|s| s.to_string()),
        is_urgent: false,
        is_active: false,
        is_focused: false,
    }
}

fn output(name: &str, make: &str, model: &str) -> Output {
    Output {
        name: name.to_string(),
        make: make.to_string(),
        model: model.to_string(),
        logical: None,
    }
}

fn bind(keys: &str, action: &str, args: &[&str]) -> Bind {
    Bind {
        keys: keys.to_string(),
        action: action.to_string(),
        args: args.iter().map(|s| s.to_string()).collect(),
    }
}

fn labels(menu: &[Item]) -> Vec<String> {
    menu.iter()
        .map(|item| match item {
            Item::Choice(choice) => choice.label.clone(),
            Item::Submenu { label, choices } => {
                let inside: Vec<_> = choices.iter().map(|c| c.label.as_str()).collect();
                format!("{label}: {}", inside.join(", "))
            }
            Item::Separator => "-".to_string(),
        })
        .collect()
}

fn choice<'a>(menu: &'a [Item], label: &str) -> &'a Choice {
    menu.iter()
        .find_map(|item| match item {
            Item::Choice(choice) if choice.label == label => Some(choice),
            Item::Submenu { choices, .. } => choices.iter().find(|c| c.label == label),
            _ => None,
        })
        .unwrap()
}

#[test]
fn a_window_that_is_gone_has_no_menu() {
    assert!(popup(9, &vec![window(1, 1, None)], &vec![], &vec![], &Binds(vec![])).is_none());
}

#[test]
fn a_floating_window_has_a_short_menu() {
    let menu = popup(1, &vec![window(1, 1, None)], &vec![], &vec![], &Binds(vec![])).unwrap();
    assert_eq!(labels(&menu), vec!["Tile window", "Fullscreen", "-", "Close window"]);
    assert!(matches!(
        choice(&menu, "Close window").actions[..],
        [Action::CloseWindow { id: 1 }]
    ));
    assert!(matches!(
        choice(&menu, "Tile window").actions[..],
        [Action::ToggleWindowFloating { id: 1 }]
    ));
}

#[test]
fn maximizing_focuses_on_the_way() {
    let menu = popup(1, &vec![window(1, 1, Some((1, 1)))], &vec![], &vec![], &Binds(vec![])).unwrap();
    assert_eq!(
        labels(&menu),
        vec!["Float window", "Fullscreen", "Maximize column", "-", "Close window"]
    );
    assert!(matches!(
        choice(&menu, "Maximize column").actions[..],
        [Action::FocusWindow { id: 1 }, Action::MaximizeColumn]
    ));
}

#[test]
fn stacking_goes_whichever_way_there_is_a_column() {
    let windows = vec![
        window(1, 1, Some((1, 1))),
        window(2, 1, Some((2, 1))),
        window(3, 1, Some((3, 1))),
        window(4, 2, Some((9, 1))),
    ];
    let menu = |id| labels(&popup(id, &windows, &vec![], &vec![], &Binds(vec![])).unwrap());
    assert!(!menu(1).contains(&"Stack into left column".to_string()));
    assert!(menu(1).contains(&"Stack into right column".to_string()));
    assert!(menu(2).contains(&"Stack into left column".to_string()));
    assert!(menu(2).contains(&"Stack into right column".to_string()));
    assert!(menu(3).contains(&"Stack into left column".to_string()));
    assert!(!menu(3).contains(&"Stack into right column".to_string()));
    assert!(!menu(4).iter().any(|label| label.starts_with("Stack into")));
}

#[test]
fn cycling_a_stack_walks_the_bottom_window_up() {
    let mut windows = vec![
        window(1, 1, Some((1, 2))),
        window(2, 1, Some((1, 3))),
        window(3, 1, Some((1, 1))),
        window(4, 1, Some((2, 5))),
    ];
    windows[3].is_focused = true;
    let menu = popup(1, &windows, &vec![], &vec![], &Binds(vec![])).unwrap();
    assert!(labels(&menu).contains(&"Unstack window".to_string()));
    assert!(matches!(
        choice(&menu, "Cycle stack").actions[..],
        [
            Action::FocusWindow { id: 2 },
            Action::MoveWindowUp,
            Action::MoveWindowUp,
            Action::FocusWindow { id: 4 },
        ]
    ));
    windows[3].is_focused = false;
    let menu = popup(1, &windows, &vec![], &vec![], &Binds(vec![])).unwrap();
    assert_eq!(choice(&menu, "Cycle stack").actions.len(), 3);
}

#[test]
fn other_workspaces_are_offered_by_output_and_index() {
    let workspaces = vec![
        workspace(10, 2, None, Some("DP-2")),
        workspace(11, 1, None, Some("DP-2")),
        workspace(12, 1, Some("mail"), Some("DP-1")),
        workspace(13, 1, None, None),
        workspace(14, 2, None, Some("DP-1")),
    ];
    let windows = vec![window(1, 14, None)];
    let one = vec![output("DP-1", "", "")];
    let menu = popup(1, &windows, &workspaces, &one, &Binds(vec![])).unwrap();
    assert!(labels(&menu).contains(&"Move to workspace: 1, mail, 1, 2".to_string()));

    let two = vec![output("DP-2", "B", "2"), output("DP-1", "A", "1")];
    let menu = popup(1, &windows, &workspaces, &two, &Binds(vec![])).unwrap();
    assert!(labels(&menu)
        .contains(&"Move to workspace: 1, mail (DP-1), 1 (DP-2), 2 (DP-2)".to_string()));
    assert!(labels(&menu).contains(&"Move to monitor: B 2 (DP-2)".to_string()));
    assert!(matches!(
        choice(&menu, "mail (DP-1)").actions[..],
        [Action::MoveWindowToWorkspace { id: 1, workspace: 12 }]
    ));
    match &choice(&menu, "B 2 (DP-2)").actions[..] {
        [Action::MoveWindowToMonitor { id: 1, output }] => assert_eq!(output, "DP-2"),
        other => panic!("{other:?}"),
    }
}

#[test]
fn shortcuts_are_shown_where_they_do_the_same() {
    let binds = Binds(vec![
        bind("Mod+1", "move-column-to-workspace", &["1"]),
        bind("Mod+2", "move-window-to-workspace", &["2"]),
        bind("Mod+M", "move-window-to-workspace", &["mail"]),
        bind("Mod+Q", "close-window", &[]),
        bind("Mod+O", "move-window-to-monitor", &["B"]),
    ]);
    let mut workspaces = vec![
        workspace(1, 1, None, Some("A")),
        workspace(2, 2, None, Some("A")),
        workspace(3, 2, None, Some("B")),
        workspace(4, 3, Some("mail"), Some("B")),
        workspace(5, 5, None, Some("A")),
    ];
    workspaces[4].is_focused = true;
    let outputs = vec![output("A", "x", "y"), output("B", "x", "y")];

    let alone = vec![window(7, 5, Some((1, 1)))];
    let menu = popup(7, &alone, &workspaces, &outputs, &binds).unwrap();
    assert_eq!(choice(&menu, "1 (A)").keys.as_deref(), Some("Mod+1"));
    assert_eq!(choice(&menu, "2 (A)").keys.as_deref(), Some("Mod+2"));
    assert_eq!(choice(&menu, "2 (B)").keys, None);
    assert_eq!(choice(&menu, "mail (B)").keys.as_deref(), Some("Mod+M"));
    assert_eq!(choice(&menu, "Close window").keys.as_deref(), Some("Mod+Q"));
    assert_eq!(choice(&menu, "x y (B)").keys.as_deref(), Some("Mod+O"));

    let stacked = vec![window(7, 5, Some((1, 1))), window(8, 5, Some((1, 2)))];
    let menu = popup(7, &stacked, &workspaces, &outputs, &binds).unwrap();
    assert_eq!(choice(&menu, "1 (A)").keys, None);
    assert_eq!(choice(&menu, "2 (A)").keys.as_deref(), Some("Mod+2"));
}

#[test]
fn outputs_are_described_by_make_and_model() {
    let outputs = vec![output("DP-1", "Dell", "U2720Q")];
    assert_eq!(describe_output(&outputs, "DP-1"), "Dell U2720Q (DP-1)");
    assert_eq!(describe_output(&outputs, "DP-2"), "DP-2");
}

#[test]
fn shortcuts_come_apart() {
    let found = accelerator("Mod+Shift+BracketLeft").unwrap();
    assert_eq!(found.key, "BracketLeft");
    assert_eq!(found.lower, "bracketleft");
    assert_eq!(
        found.mods,
        Modifiers {
            logo: true,
            control: false,
            shift: true,
            alt: false,
            level3: false,
        }
    );
    let found = accelerator("CTRL+Alt+ISO_Level3_Shift+win+x").unwrap();
    assert_eq!(
        found.mods,
        Modifiers {
            logo: true,
            control: true,
            shift: false,
            alt: true,
            level3: true,
        }
    );
    assert_eq!(accelerator("F1").unwrap().key, "F1");
    assert!(accelerator("Hyper+x").is_none());
    assert!(accelerator("Mod++").is_none());
}

#[test]
fn a_key_goes_by_the_first_name_that_means_something() {
    assert_eq!(pick_keyval(0x41, 0x61), Some(0x41));
    assert_eq!(pick_keyval(0xffffff, 0x61), Some(0x61));
    assert_eq!(pick_keyval(0, 0x61), Some(0x61));
    assert_eq!(pick_keyval(0xffffff, 0), None);
}
