use niri_taskbar::niri::{Logical, Output};
use niri_taskbar::output::{build, Filter, Geometry, Matcher, Monitor, Tracker};

fn monitor(width: i32, model: Option<&str>) -> Monitor {
    Monitor {
        x: 0,
        y: 0,
        width,
        height: 1080,
        scale_factor: 1,
        model: model.map(|s| s.to_string()),
        manufacturer: Some("Dell".to_string()),
    }
}

fn output(name: &str, width: u32, model: &str) -> Output {
    Output {
        name: name.to_string(),
        make: "Dell".to_string(),
        model: model.to_string(),
        logical: Some(Logical {
            x: 0,
            y: 0,
            width,
            height: 1080,
            scale: 1,
        }),
    }
}

#[test]
fn a_filter_shows_its_output_or_all() {
    assert!(Filter::ShowAll.should_show("anything"));
    assert!(Filter::Only("DP-1".to_string()).should_show("DP-1"));
    assert!(!Filter::Only("DP-1".to_string()).should_show("DP-2"));
}

#[test]
fn widths_may_be_a_little_off() {
    let close = |a: i64, b: i64| {
        let at = |width| Geometry { width, height: 100, x: 0, y: 0 };
        at(a).same_as(&at(b))
    };
    for a in [-4000i64, -103, 0, 1, 96, 97, 98, 99, 100, 101, 102, 103, 104, 1864, 1977, 1978] {
        for b in [-4000i64, -100, 0, 1, 100, 200, 1920] {
            let delta = (a as f64) / (b as f64) - 1.0;
            assert_eq!(close(a, b), delta.abs() < 0.03, "{a} {b}");
        }
    }
}

#[test]
fn places_may_not() {
    let at = |x, y| Geometry { width: 100, height: 100, x, y };
    assert!(at(1, 2).same_as(&at(1, 2)));
    assert!(!at(1, 2).same_as(&at(2, 2)));
    assert!(!at(1, 2).same_as(&at(1, 3)));
}

#[test]
fn geometry_is_in_pixels() {
    let mut m = monitor(960, None);
    m.scale_factor = 2;
    m.x = 10;
    let g = Geometry::from_gdk_monitor(&m);
    assert_eq!((g.width, g.height, g.x, g.y), (1920, 2160, 20, 0));
    let logical = Logical { x: -5, y: 6, width: 100, height: 50, scale: 3 };
    let g = Geometry::from_niri_output(&logical);
    assert_eq!((g.width, g.height, g.x, g.y), (300, 150, -15, 18));
}

#[test]
fn a_matcher_says_what_lines_up() {
    let all = Matcher::new(&monitor(1920, Some("U")), &output("DP-1", 1920, "U"));
    assert_eq!(all, Matcher::all());
    let m = Matcher::new(&monitor(1920, None), &output("DP-1", 1000, "U"));
    assert_eq!(m, Matcher { geometry: false, model: false, manufacturer: true });
    let m = Matcher::new(&monitor(1920, None), &output("DP-1", 1920, ""));
    assert_eq!(m, Matcher::all());
    let mut off = output("DP-1", 1920, "U");
    off.logical = None;
    assert_eq!(Matcher::new(&monitor(1920, Some("U")), &off), Matcher::empty());
}

#[test]
fn the_output_that_fits_is_the_one() {
    let outputs = vec![output("DP-1", 1000, "U"), output("DP-2", 1920, "U")];
    let m = monitor(1920, Some("U"));
    assert_eq!(build(false, Some(&outputs), Some(&m)), Some(Filter::Only("DP-2".to_string())));
    assert_eq!(build(true, None, None), Some(Filter::ShowAll));
    assert_eq!(build(false, None, Some(&m)), None);
    assert_eq!(build(false, Some(&outputs), None), None);
    assert_eq!(build(false, Some(&vec![]), Some(&m)), None);
    let other = monitor(500, Some("U"));
    assert_eq!(build(false, Some(&outputs), Some(&other)), None);
    let one = vec![output("DP-1", 1000, "U")];
    assert_eq!(build(false, Some(&one), Some(&other)), Some(Filter::Only("DP-1".to_string())));
}

#[test]
fn a_tracker_keeps_the_last_good_answer() {
    let mut tracker = Tracker::new();
    assert_eq!(*tracker.filter(), Filter::ShowAll);
    assert!(tracker.maybe_retry(0));
    assert!(tracker.refresh(0, Some(Filter::Only("A".to_string()))));
    assert!(!tracker.maybe_retry(u64::MAX));
    assert!(!tracker.refresh(1, Some(Filter::Only("A".to_string()))));
    assert!(!tracker.refresh(5, None));
    assert_eq!(*tracker.filter(), Filter::Only("A".to_string()));
    assert!(!tracker.maybe_retry(5 + 1_999_999_999));
    assert!(tracker.maybe_retry(5 + 2_000_000_000));
    assert!(!tracker.maybe_retry(3));
    assert!(tracker.refresh(9, Some(Filter::ShowAll)));
}
