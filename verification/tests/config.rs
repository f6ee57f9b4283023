use niri_taskbar::config::{
    default_drag_reorder_slide_ms, default_hover_indicator_ms, default_indicator_height,
    default_indicator_ms, default_true, default_urgent_pulse_ms, matching_classes, AppConfig,
    ColumnGrouping, Config, Mode, Notifications, ScrollScope,
};
use niri_taskbar::gradient::{Config as GradientConfig, Hue, Space};
use niri_taskbar::pattern::Pattern;

fn rule(pattern: &str, class: &str) -> AppConfig {
    AppConfig {
        pattern: Pattern::new(pattern).unwrap(),
        class: class.to_string(),
    }
}

fn with_rules() -> Config {
    let mut config = Config::default();
    config.apps.insert(
        "signal".to_string(),
        vec![
            rule("\\([0-9]+\\)$", "unread"),
            rule("^Signal", "plain"),
            rule("never$", "rare"),
        ],
    );
    config
}

#[test]
fn every_rule_that_matches_adds_its_class() {
    let config = with_rules();
    assert_eq!(config.app_matches("signal", "Signal (1)"), vec!["unread", "plain"]);
    assert_eq!(config.app_matches("signal", "Signal"), vec!["plain"]);
    assert!(config.app_matches("signal", "something else").is_empty());
    assert!(config.app_matches("Signal", "Signal (1)").is_empty());
}

#[test]
fn every_class_there_is_can_be_listed() {
    let config = with_rules();
    assert_eq!(config.app_classes("signal"), vec!["unread", "plain", "rare"]);
    assert!(config.app_classes("other").is_empty());
}

#[test]
fn patterns_match_anywhere_or_are_turned_down() {
    let pattern = Pattern::new("b+$").unwrap();
    assert!(pattern.is_match("abb"));
    assert!(!pattern.is_match("bba"));
    assert!(Pattern::new("(").is_err());
}

#[test]
fn the_rules_that_matched_give_their_classes() {
    let rules = vec![rule("a", "1"), rule("b", "2"), rule("c", "3")];
    assert_eq!(matching_classes(&rules, &vec![true, false, true]), vec!["1", "3"]);
    assert!(matching_classes(&rules, &vec![false, false, false]).is_empty());
}

#[test]
fn notifications_start_out_on() {
    let notifications = Notifications::default();
    assert!(notifications.enabled);
    assert!(notifications.use_desktop_entry);
    assert!(!notifications.use_fuzzy_matching);
    assert!(notifications.map_app_ids.get("x").is_none());
}

#[test]
fn app_ids_can_be_mapped() {
    let mut config = Config::default();
    config
        .notifications
        .map_app_ids
        .insert("from".to_string(), "to".to_string());
    assert_eq!(config.notifications_app_map("from"), Some("to"));
    assert_eq!(config.notifications_app_map("to"), None);
}

#[test]
fn the_default_configuration_has_everything_off() {
    let config = Config::default();
    assert_eq!(config.mode(), Mode::Taskbar);
    assert_eq!(config.scroll_scope(), ScrollScope::Bar);
    assert_eq!(config.column_grouping(), ColumnGrouping::Separate);
    assert!(config.notifications_enabled());
    assert!(config.notifications_use_desktop_entry());
    assert!(!config.notifications_use_fuzzy_matching());
    assert!(!config.show_all_outputs());
    assert!(!config.active_workspace_only());
    assert!(!config.focus_indicator());
    assert!(!config.hover_indicator());
    assert!(!config.urgent_indicator());
    assert!(!config.scroll_windows());
    assert!(!config.scroll_wrap());
    assert!(!config.scroll_reverse());
    assert!(!config.drag_reorder());
    assert_eq!(config.workspace_animation_ms(), 0);
    assert_eq!(config.focus_indicator_ms(), 0);
    assert_eq!(config.focus_indicator_height(), 0);
    assert_eq!(config.hover_indicator_ms(), 0);
    assert_eq!(config.hover_indicator_height(), 0);
    assert_eq!(config.urgent_indicator_height(), 0);
    assert_eq!(config.urgent_indicator_pulse_ms(), 0);
    assert_eq!(config.drag_reorder_slide_ms(), 0);
    assert!(config.drag_indicator_gradient(Some(1u8), Some(2u8)).is_none());
}

#[test]
fn the_focus_pill_grows_a_little_unless_told_otherwise() {
    let mut config = Config::default();
    config.focus_indicator_height = 3;
    assert_eq!(config.focus_indicator_hover_height(), 5);
    config.focus_indicator_hover_height = Some(4);
    assert_eq!(config.focus_indicator_hover_height(), 4);
}

#[test]
fn a_hover_space_that_is_not_known_is_ignored() {
    let mut config = Config::default();
    assert_eq!(config.focus_indicator_hover_space(), Space::Srgb);
    config.focus_indicator_hover_in = Some("oklch longer hue".to_string());
    assert_eq!(config.focus_indicator_hover_space(), Space::Oklch(Hue::Longer));
    config.focus_indicator_hover_in = Some("nonsense".to_string());
    assert_eq!(config.focus_indicator_hover_space(), Space::Srgb);
}

#[test]
fn a_gradient_that_is_wrong_is_ignored() {
    let mut config = Config::default();
    config.drag_indicator_gradient = Some(GradientConfig {
        from: "a".to_string(),
        to: "b".to_string(),
        space: None,
        cycle_ms: 1,
        fade_ms: 2,
    });
    let found = config.drag_indicator_gradient(Some(1u8), Some(2u8)).unwrap();
    assert_eq!((found.from, found.to, found.space), (1, 2, Space::Srgb));
    assert_eq!((found.cycle_ms, found.fade_ms), (1, 2));
    assert!(config.drag_indicator_gradient(None, Some(2u8)).is_none());
    assert!(config.drag_indicator_gradient(Some(1u8), None).is_none());
}

#[test]
fn defaults_are_what_they_are_documented_to_be() {
    assert!(default_true());
    assert_eq!(default_drag_reorder_slide_ms(), 150);
    assert_eq!(default_indicator_ms(), 180);
    assert_eq!(default_hover_indicator_ms(), 150);
    assert_eq!(default_urgent_pulse_ms(), 1200);
    assert_eq!(default_indicator_height(), 3);
}

#[test]
fn all_matching_classes_are_added_in_order() {
    let mut config = Config::default();
    config.apps.insert(
        "mail".to_string(),
        vec![rule("a", "1"), rule("z", "2"), rule("b", "3"), rule("^a", "4")],
    );
    assert_eq!(config.app_matches("mail", "ab"), vec!["1", "3", "4"]);
}

#[test]
fn notifications_can_just_be_switched() {
    for enabled in [true, false] {
        let notifications = Notifications::switched(enabled);
        assert_eq!(notifications.enabled, enabled);
        assert!(notifications.use_desktop_entry);
        assert!(!notifications.use_fuzzy_matching);
        assert!(notifications.map_app_ids.get("x").is_none());
    }
}
