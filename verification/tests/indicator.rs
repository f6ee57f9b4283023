use niri_taskbar::config::Config;
use niri_taskbar::gradient::{Config as GradientConfig, Space};
use niri_taskbar::indicator::{button_rect, Focus, Kind, Options, Pills, Pointing, Spot};

fn options(focus: bool, hover: bool) -> Options<u8> {
    let mut config = Config::default();
    config.focus_indicator = focus;
    config.focus_indicator_ms = 180;
    config.focus_indicator_height = 3;
    config.hover_indicator = hover;
    config.hover_indicator_ms = 150;
    Options::from_config(&config, None, None)
}

fn pointing(focus_prelit: bool, hover_prelit: bool) -> Pointing<i32> {
    Pointing {
        focus_prelit,
        focus_hover_extent: 7,
        hover_prelit,
        hover_extent: 9,
        zero: 0,
    }
}

const MS: u64 = 1_000_000;

#[test]
fn pills_have_classes() {
    assert_eq!(Kind::Focus.class(), None);
    assert_eq!(Kind::FocusHover.class(), Some("focus-hover"));
    assert_eq!(Kind::Hover.class(), Some("hover"));
    assert_eq!(Kind::Urgent.class(), Some("urgent"));
}

#[test]
fn options_come_from_the_configuration() {
    let mut config = Config::default();
    config.focus_indicator = true;
    config.focus_indicator_height = 3;
    config.urgent_indicator_pulse_ms = 1200;
    config.focus_indicator_hover_in = Some("oklab".to_string());
    config.drag_indicator_gradient = Some(GradientConfig {
        from: String::new(),
        to: String::new(),
        space: None,
        cycle_ms: 1,
        fade_ms: 2,
    });
    let options = Options::from_config(&config, Some(1u8), Some(2u8));
    assert!(options.focus && !options.hover && !options.urgent);
    assert_eq!(options.focus_hover_height, 5);
    assert_eq!(options.focus_hover_space, Space::Oklab);
    assert_eq!(options.urgent_pulse_ms, 1200);
    assert_eq!(options.drag_gradient.map(|g| (g.from, g.to, g.fade_ms)), Some((1, 2, 2)));
    assert!(options.any());
    assert!(!Options::<u8>::from_config(&Config::default(), None, None).any());
}

#[test]
fn the_hover_pill_grows_and_retracts() {
    let mut pills: Pills<i32, ()> = Pills::new(0);
    assert!(!pills.update_hover(1, false, 5, 0, 10));
    assert!(pills.update_hover(1, true, 5, 0, 20));
    assert_eq!((pills.hover.button, pills.hover.from, pills.hover.out), (Some(1), 0, true));
    assert_eq!(pills.hover.started, Some(20));
    assert!(!pills.update_hover(1, true, 5, 0, 30));
    assert!(!pills.update_hover(2, false, 5, 0, 30));
    assert!(pills.update_hover(1, false, 5, 0, 40));
    assert_eq!((pills.hover.button, pills.hover.from, pills.hover.out), (Some(1), 5, false));
    assert!(pills.update_hover(2, true, 5, 0, 50));
    assert_eq!((pills.hover.button, pills.hover.from, pills.hover.out), (Some(2), 0, true));
}

#[test]
fn focus_takes_the_hover_pill_away_and_brings_it_back() {
    let options = options(true, true);
    let mut pills: Pills<i32, &str> = Pills::new(0);
    assert!(pills.wants_hover(&options, 1, true));
    assert!(!pills.wants_hover(&options, 1, false));
    pills.update_hover(1, true, 0, 0, 5);

    assert!(pills.needs_focus(&options, Some(1), false));
    pills.set_focus(&options, Some(1), true, None, &pointing(true, true), 10);
    assert_eq!(pills.focus.button, Some(1));
    assert_eq!((pills.focus.from, pills.focus.started), (None, None));
    assert!(!pills.hover.out);
    assert_eq!(pills.hover.from, 9);
    assert!(pills.focus_hover.out);
    assert_eq!((pills.focus_hover.from, pills.focus_hover.started), (7, Some(10)));
    assert!(!pills.wants_hover(&options, 1, true));
    assert!(!pills.needs_focus(&options, Some(1), false));
    assert!(pills.needs_focus(&options, Some(1), true));

    pills.set_focus(&options, Some(2), true, Some("here"), &pointing(false, true), 20);
    assert_eq!((pills.focus.from, pills.focus.started), (Some("here"), Some(20)));
    assert!(pills.hover.out);
    assert!(!pills.focus_hover.out);

    pills.set_focus(&options, None, true, Some("here"), &pointing(false, false), 30);
    assert_eq!((pills.focus.button, pills.focus.from, pills.focus.started), (None, None, None));
}

#[test]
fn pills_that_are_off_do_nothing() {
    let off = options(false, true);
    let mut pills: Pills<i32, ()> = Pills::new(0);
    assert!(!pills.needs_focus(&off, Some(1), true));
    assert!(!pills.update_focus_hover(&off, true, 1, 1));
    let on = options(true, true);
    assert!(!pills.update_focus_hover(&on, true, 1, 1));
    pills.set_focus(&on, Some(1), false, None, &pointing(false, false), 1);
    assert!(pills.update_focus_hover(&on, true, 1, 1));
    assert!(!pills.update_focus_hover(&on, true, 1, 1));
}

#[test]
fn frames_are_drawn_for_as_long_as_anything_moves() {
    let mut options = options(true, true);
    let mut pills: Pills<i32, ()> = Pills::new(0);
    assert!(!pills.animating(&options, false, false, 0));
    pills.update_hover(1, true, 0, 0, 0);
    assert!(pills.animating(&options, false, false, 150 * MS - 1));
    assert!(!pills.animating(&options, false, false, 150 * MS));
    assert!(pills.animating(&options, false, true, 150 * MS));
    assert!(!pills.animating(&options, true, false, 150 * MS));
    options.urgent = true;
    options.urgent_pulse_ms = 1;
    assert!(pills.animating(&options, true, false, 150 * MS));
    assert!(pills.wake());
    assert!(!pills.wake());
    pills.ticked(true);
    assert!(!pills.wake());
    pills.ticked(false);
    assert!(pills.wake());
}

#[test]
fn the_drag_gradient_fades_in_and_out() {
    let mut config = Config::default();
    config.drag_indicator_gradient = Some(GradientConfig {
        from: String::new(),
        to: String::new(),
        space: None,
        cycle_ms: 1,
        fade_ms: 2,
    });
    config.focus_indicator = true;
    let options = Options::from_config(&config, Some(1u8), Some(2u8));
    let mut pills: Pills<i32, ()> = Pills::new(0);
    assert!(!pills.sync_drag(&options, true, 3, 1));
    pills.set_focus(&options, Some(1), false, None, &pointing(false, false), 1);
    assert!(pills.sync_drag(&options, true, 3, 2));
    assert_eq!((pills.drag_fade.from, pills.drag_fade.out, pills.drag_fade.started), (3, true, Some(2)));
    assert!(!pills.sync_drag(&options, true, 4, 3));
    assert!(pills.animating(&options, false, false, u64::MAX));
    assert!(pills.sync_drag(&options, false, 4, 4));
}

#[test]
fn pills_sit_under_their_buttons() {
    let spot = Spot {
        visible: true,
        in_row: true,
        x: 110,
        y: 50,
        width: 40,
        height: 30,
        row_x: 100,
        row_y: 48,
        margin_left: 6,
        margin_right: 4,
        margin_bottom: 1,
    };
    let base = button_rect(&spot).unwrap();
    assert_eq!((base.x, base.baseline, base.width), (16, 31, 30));
    assert!(button_rect(&Spot { visible: false, ..spot }).is_none());
    assert!(button_rect(&Spot { in_row: false, ..spot }).is_none());
    assert!(button_rect(&Spot { width: 10, ..spot }).is_none());
}

#[test]
fn without_a_focus_pill_focus_changes_nothing() {
    let off = options(false, true);
    let mut pills: Pills<i32, &str> = Pills::new(0);
    pills.update_hover(1, false, 5, 0, 10);
    pills.set_focus(&off, Some(1), true, Some("here"), &pointing(true, true), 20);
    assert_eq!((pills.focus.button, pills.focus.from, pills.focus.started), (None, None, None));
    assert_eq!((pills.hover.button, pills.hover.out), (None, false));
    assert!(!pills.focus_hover.out);
}

#[test]
fn the_focus_pill_jumps_without_a_duration() {
    let focus = Focus { button: Some(1), from: Some("here"), started: Some(0) };
    assert_eq!(focus.slides_from(180), Some("here"));
    assert_eq!(focus.slides_from(0), None);
    let settled: Focus<&str> = Focus { button: Some(1), from: None, started: None };
    assert_eq!(settled.slides_from(180), None);
}
