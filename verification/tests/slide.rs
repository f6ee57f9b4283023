use niri_taskbar::slide::{clamp, Showing, Slide, Slot};

fn slot(x: i32) -> Slot {
    Slot { x, y: 0, width: 10, height: 20 }
}

const MS: u64 = 1_000_000;

#[test]
fn buttons_slide_only_around_a_drag() {
    let mut slide: Slide<f64> = Slide::new(100 * MS);
    assert!(slide.allocated(&vec![(1, slot(0)), (2, slot(10))], 0).is_empty());
    assert_eq!(slide.slot(2), Some(slot(10)));
    assert_eq!(slide.slot(3), None);
    // Without a drag, buttons just jump.
    assert!(slide.allocated(&vec![(2, slot(0)), (1, slot(10))], 0).is_empty());

    slide.start();
    assert!(slide.animating(0));
    let starts = slide.allocated(&vec![(1, slot(0)), (2, slot(10)), (3, slot(20))], 0);
    let told: Vec<_> = starts.iter().map(|s| (s.child, s.old_x, s.along.is_some())).collect();
    assert_eq!(told, vec![(1, 10, false), (2, 0, false)]);
    slide.begin(1, 10.0, 5);
    assert!(slide.any_moving());
    let starts = slide.allocated(&vec![(2, slot(10)), (1, slot(20))], 0);
    assert_eq!(starts.len(), 1);
    assert_eq!(starts[0].along.map(|m| (m.from, m.started)), Some((10.0, 5)));
}

#[test]
fn the_dragged_button_floats() {
    let mut slide: Slide<f64> = Slide::new(100 * MS);
    slide.start();
    slide.allocated(&vec![(1, slot(0)), (2, slot(10))], 0);
    slide.float(1, 4.5);
    assert!(matches!(slide.place(1), Showing::Floating(x) if x == 4.5));
    assert!(matches!(slide.place(2), Showing::InSlot));
    assert_eq!(slide.raised(), Some(1));
    assert!(slide.hides(1) && !slide.hides(2));
    slide.set_drawing_raised(true);
    assert!(!slide.hides(1));
    slide.set_drawing_raised(false);
    let starts = slide.allocated(&vec![(2, slot(0)), (1, slot(10))], 0);
    assert_eq!(starts.iter().map(|s| s.child).collect::<Vec<_>>(), vec![2]);
}

#[test]
fn a_finished_drag_comes_home() {
    let mut slide: Slide<f64> = Slide::new(100 * MS);
    slide.start();
    slide.allocated(&vec![(1, slot(0))], 0);
    slide.float(1, 4.5);
    slide.finish(1000 * MS);
    assert!(matches!(slide.place(1), Showing::Moving(m) if m.from == 4.5 && m.started == 1000 * MS));
    assert!(slide.animating(1599 * MS));
    assert!(!slide.animating(1600 * MS));
    assert!(slide.tick());
    assert!(!slide.tick());
    assert_eq!(slide.moving_children(), vec![1]);
    let step = slide.ticked(1099 * MS);
    assert!(step.go_on && step.stopped.is_empty());
    assert_eq!(slide.raised(), Some(1));
    let step = slide.ticked(1100 * MS);
    assert!(!step.go_on);
    assert_eq!(step.stopped, vec![1]);
    assert_eq!(slide.raised(), None);
    assert!(slide.tick());
    slide.untick();
    assert!(slide.tick());
}

#[test]
fn children_that_have_gone_are_forgotten() {
    let mut slide: Slide<f64> = Slide::new(100 * MS);
    slide.allocated(&vec![(1, slot(0)), (2, slot(10))], 0);
    slide.begin(1, 0.0, 0);
    slide.allocated(&vec![(2, slot(0))], 0);
    assert_eq!(slide.slot(1), None);
    assert!(!slide.any_moving());
}

#[test]
fn buttons_stay_within_the_row() {
    assert_eq!(clamp(5, 100, 20), (5, 85));
    assert_eq!(clamp(5, 10, 20), (5, 5));
    assert_eq!(clamp(i32::MAX, i32::MAX, 0), (i64::from(i32::MAX), 2 * i64::from(i32::MAX)));
}
