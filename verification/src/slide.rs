//! Animated movement for the buttons in a row while they're being dragged around.
//!
//! A box only knows how to put its children in their slots, so this sits on top of it: after every
//! allocation the box makes, the dragged button goes to wherever the pointer has it, which leaves
//! its slot empty, and any button whose slot changed slides from where it was showing to where it
//! now belongs.
//!
//! Buttons are told apart by numbers, times are in nanoseconds from some fixed point, and where a
//! button is partway between slots is whatever `P` is.

use std::collections::BTreeMap;
use vstd::prelude::*;

use crate::ids::{ids_in, lemma_take_contains};

verus! {

/// How long sliding stays on after a drag, beyond the length of a slide, in nanoseconds.
pub const SETTLE: u64 = 500_000_000;

/// Where a box puts a child.
#[derive(Debug, Clone, Copy, PartialEq, Eq, Structural)]
pub struct Slot {
    pub x: i32,
    pub y: i32,
    pub width: i32,
    pub height: i32,
}

/// A child on its way from one slot to another.
#[derive(Debug, Clone, Copy)]
pub struct Move<P> {
    pub from: P,
    pub started: u64,
}

/// Where a child should be showing.
#[derive(Debug, Clone, Copy)]
pub enum Showing<P> {
    /// Where the pointer has it.
    Floating(P),
    /// Partway to its slot.
    Moving(Move<P>),
    /// In its slot.
    InSlot,
}

/// A child that's about to slide, and where it starts from.
#[derive(Debug, Clone, Copy)]
pub struct Start<P> {
    pub child: u64,
    /// The slot it had.
    pub old_x: i32,
    /// The move it was on already, if any, in which case it starts from wherever that has got to.
    pub along: Option<Move<P>>,
}

/// What a [`Slide`] holds.
#[verifier::ext_equal]
pub struct SlideView<P> {
    pub duration: u64,
    /// The slot the box last gave each child, which is where it belongs once it stops moving.
    pub slots: Map<u64, Slot>,
    /// Children on their way from one slot to another.
    pub moving: Map<u64, Move<P>>,
    /// The button being dragged, and where the pointer has it.
    pub floating: Option<(u64, P)>,
    /// The button drawn over the others: the dragged one, until it's back in its slot.
    pub raised: Option<u64>,
    /// Whether the raised button is being drawn on top, which is the only time it's drawn at all.
    pub drawing_raised: bool,
    /// Whether a drag is on.
    pub animate: bool,
    /// When slot changes stop sliding after a drag.
    pub animate_until: Option<u64>,
    pub ticking: bool,
}

impl<P> SlideView<P> {
    /// Whether slot changes should slide rather than jump, which is only while a drag is on and for a
    /// moment after.
    pub open spec fn sliding(self, now: u64) -> bool {
        self.animate || match self.animate_until {
            Some(until) => now < until,
            None => false,
        }
    }

    /// Whether a child is the one being dragged.
    pub open spec fn floats(self, child: u64) -> bool {
        match self.floating {
            Some((button, _)) => button == child,
            None => false,
        }
    }

    /// Whether a child starts to slide on being given a slot.
    pub open spec fn starts(self, child: u64, slot: Slot, now: u64) -> bool {
        &&& self.sliding(now)
        &&& self.slots.contains_key(child)
        &&& self.slots[child].x != slot.x
        &&& !self.floats(child)
    }

    /// Where a child should be showing.
    pub open spec fn showing(self, child: u64) -> Showing<P> {
        match self.floating {
            Some((button, x)) if button == child => Showing::Floating(x),
            _ => if self.moving.contains_key(child) {
                Showing::Moving(self.moving[child])
            } else {
                Showing::InSlot
            },
        }
    }

    /// Whether a child skips drawing itself.
    pub open spec fn hidden(self, child: u64) -> bool {
        !self.drawing_raised && self.raised == Some(child)
    }

    /// The row with a button floating where the pointer has it.
    pub open spec fn floated(self, button: u64, x: P) -> SlideView<P> {
        SlideView {
            floating: Some((button, x)),
            raised: Some(button),
            moving: self.moving.remove(button),
            ..self
        }
    }

    /// The row once a drag has ended.
    pub open spec fn finished(self, now: u64) -> SlideView<P> {
        SlideView {
            animate: false,
            animate_until: Some((now + self.duration + SETTLE) as u64),
            floating: None,
            moving: match self.floating {
                Some((button, x)) => self.moving.insert(button, Move { from: x, started: now }),
                None => self.moving,
            },
            ..self
        }
    }

    /// The row once the box has given its children their slots.
    pub open spec fn given(self, children: Seq<(u64, Slot)>) -> SlideView<P> {
        SlideView {
            slots: slots_of(children, children.len() as int),
            moving: self.moving.restrict(
                Set::new(|child: u64| is_child(children, children.len() as int, child)),
            ),
            ..self
        }
    }

    /// The row with a child set moving.
    pub open spec fn begun(self, child: u64, from: P, now: u64) -> SlideView<P> {
        SlideView { moving: self.moving.insert(child, Move { from, started: now }), ..self }
    }

    /// The row once a step of the animation has been taken.
    pub open spec fn stepped(self, now: u64) -> SlideView<P> {
        let moving = self.moving.restrict(
            Set::new(|child: u64| !self.arrived(self.moving[child], now)),
        );
        SlideView {
            moving,
            raised: if self.floating is None && self.raised is Some && !moving.contains_key(
                self.raised->0,
            ) {
                None
            } else {
                self.raised
            },
            ticking: self.ticking && !(moving =~= Map::empty()),
            ..self
        }
    }

    /// Whether a move has got to its end.
    pub open spec fn arrived(self, m: Move<P>, now: u64) -> bool {
        elapsed(m.started, now) >= self.duration
    }
}

/// How long it's been since something started.
pub open spec fn elapsed(started: u64, now: u64) -> int {
    if now > started {
        now - started
    } else {
        0
    }
}

/// Whether a child is among the first ones.
pub open spec fn is_child(children: Seq<(u64, Slot)>, n: int, child: u64) -> bool {
    exists|i: int| 0 <= i < n && (#[trigger] children[i]).0 == child
}

/// Whether no child comes up twice.
pub open spec fn distinct(children: Seq<(u64, Slot)>) -> bool {
    forall|i: int, j: int|
        0 <= i < j < children.len() ==> (#[trigger] children[i]).0 != (#[trigger] children[j]).0
}

/// The slots of the first children.
pub open spec fn slots_of(children: Seq<(u64, Slot)>, n: int) -> Map<u64, Slot>
    decreases n,
{
    if n <= 0 {
        Map::empty()
    } else {
        slots_of(children, n - 1).insert(children[n - 1].0, children[n - 1].1)
    }
}

/// Those of the first children that start to slide.
pub open spec fn starts_of<P>(
    view: SlideView<P>,
    children: Seq<(u64, Slot)>,
    now: u64,
    n: int,
) -> Seq<Start<P>>
    decreases n,
{
    if n <= 0 {
        Seq::empty()
    } else {
        let rest = starts_of(view, children, now, n - 1);
        let (child, slot) = children[n - 1];
        if view.starts(child, slot, now) {
            rest.push(
                Start {
                    child,
                    old_x: view.slots[child].x,
                    along: if view.moving.contains_key(child) {
                        Some(view.moving[child])
                    } else {
                        None
                    },
                },
            )
        } else {
            rest
        }
    }
}

/// What came of a step of the animation.
#[derive(Debug)]
pub struct Ticked {
    /// The children that have arrived, in order.
    pub stopped: Vec<u64>,
    /// Whether anything is still moving.
    pub go_on: bool,
}

pub struct Slide<P> {
    duration: u64,
    slots: BTreeMap<u64, Slot>,
    moving: BTreeMap<u64, Move<P>>,
    floating: Option<(u64, P)>,
    raised: Option<u64>,
    drawing_raised: bool,
    animate: bool,
    animate_until: Option<u64>,
    ticking: bool,
}

impl<P> View for Slide<P> {
    type V = SlideView<P>;

    closed spec fn view(&self) -> SlideView<P> {
        SlideView {
            duration: self.duration,
            slots: self.slots@,
            moving: self.moving@,
            floating: self.floating,
            raised: self.raised,
            drawing_raised: self.drawing_raised,
            animate: self.animate,
            animate_until: self.animate_until,
            ticking: self.ticking,
        }
    }
}

impl<P: Copy> Slide<P> {
    /// Starts managing a row.
    pub fn new(duration: u64) -> (r: Self)
        ensures
            r@ == (SlideView::<P> {
                duration,
                slots: Map::empty(),
                moving: Map::empty(),
                floating: None,
                raised: None,
                drawing_raised: false,
                animate: false,
                animate_until: None,
                ticking: false,
            }),
    {
        Slide {
            duration,
            slots: BTreeMap::new(),
            moving: BTreeMap::new(),
            floating: None,
            raised: None,
            drawing_raised: false,
            animate: false,
            animate_until: None,
            ticking: false,
        }
    }

    /// Returns true if the given child should skip drawing itself right now, because it's raised and
    /// will be drawn on top of the others instead.
    pub fn hides(&self, child: u64) -> (r: bool)
        ensures
            r == (!self@.drawing_raised && self@.raised == Some(child)),
            r == self@.hidden(child),
    {
        !self.drawing_raised && match self.raised {
            Some(raised) => raised == child,
            None => false,
        }
    }

    /// The button to draw over the others, if there's one.
    pub fn raised(&self) -> (r: Option<u64>)
        ensures
            r == self@.raised,
    {
        self.raised
    }

    /// Takes in whether the raised button is being drawn on top.
    pub fn set_drawing_raised(&mut self, drawing: bool)
        ensures
            final(self)@ == (SlideView { drawing_raised: drawing, ..old(self)@ }),
    {
        self.drawing_raised = drawing;
    }

    /// The slot the box has given a child, as opposed to wherever it's being shown right now, if it's
    /// given it one.
    pub fn slot(&self, child: u64) -> (r: Option<Slot>)
        ensures
            r == if self@.slots.contains_key(child) {
                Some(self@.slots[child])
            } else {
                None
            },
    {
        match self.slots.get(&child) {
            Some(slot) => Some(*slot),
            None => None,
        }
    }

    /// Turns sliding on for the length of a drag.
    pub fn start(&mut self)
        ensures
            final(self)@ == (SlideView { animate: true, ..old(self)@ }),
    {
        self.animate = true;
    }

    /// Floats the given button at `x`.
    pub fn float(&mut self, button: u64, x: P)
        ensures
            final(self)@ == (SlideView {
                floating: Some((button, x)),
                raised: Some(button),
                moving: old(self)@.moving.remove(button),
                ..old(self)@
            }),
            final(self)@ == old(self)@.floated(button, x),
    {
        self.floating = Some((button, x));
        self.raised = Some(button);
        self.moving.remove(&button);
    }

    /// Ends a drag, sliding the floating button back into its slot. Sliding stays on for a little
    /// while after, so the row catching up with Niri afterwards is animated too.
    pub fn finish(&mut self, now: u64)
        requires
            now + old(self)@.duration + SETTLE <= u64::MAX,
        ensures
            final(self)@ == (SlideView {
                animate: false,
                animate_until: Some((now + old(self)@.duration + SETTLE) as u64),
                floating: None,
                moving: match old(self)@.floating {
                    Some((button, x)) => old(self)@.moving.insert(
                        button,
                        Move { from: x, started: now },
                    ),
                    None => old(self)@.moving,
                },
                ..old(self)@
            }),
            final(self)@ == old(self)@.finished(now),
    {
        self.animate = false;
        self.animate_until = Some(now + self.duration + SETTLE);
        if let Some((button, x)) = self.floating {
            self.moving.insert(button, Move { from: x, started: now });
        }
        self.floating = None;
    }

    /// Returns true if slot changes should slide rather than jump.
    pub fn animating(&self, now: u64) -> (r: bool)
        ensures
            r == self@.sliding(now),
    {
        self.animate || match self.animate_until {
            Some(until) => now < until,
            None => false,
        }
    }

    /// Takes in the slots that the box has given its children, returning the ones that start to
    /// slide. Children that have gone are forgotten.
    pub fn allocated(&mut self, children: &Vec<(u64, Slot)>, now: u64) -> (r: Vec<Start<P>>)
        requires
            distinct(children@),
        ensures
            r@ == starts_of(old(self)@, children@, now, children@.len() as int),
            final(self)@ == (SlideView {
                slots: slots_of(children@, children@.len() as int),
                moving: old(self)@.moving.restrict(
                    Set::new(|child: u64| is_child(children@, children@.len() as int, child)),
                ),
                ..old(self)@
            }),
            final(self)@ == old(self)@.given(children@),
    {
        let animate: bool = self.animating(now);
        let ghost before = self@;
        let mut r: Vec<Start<P>> = Vec::new();
        let mut slots: BTreeMap<u64, Slot> = BTreeMap::new();
        let mut moving: BTreeMap<u64, Move<P>> = BTreeMap::new();
        let mut i: usize = 0;
        while i < children.len()
            invariant
                i <= children@.len(),
                before == self@,
                animate == before.sliding(now),
                r@ == starts_of(before, children@, now, i as int),
                slots@ == slots_of(children@, i as int),
                forall|child: u64| #[trigger]
                    moving@.contains_key(child) <==> before.moving.contains_key(child) && is_child(
                        children@,
                        i as int,
                        child,
                    ),
                forall|child: u64| #[trigger]
                    moving@.contains_key(child) ==> moving@[child] == before.moving[child],
            decreases children@.len() - i,
        {
            let (child, slot) = children[i];
            let along: Option<Move<P>> = match self.moving.get(&child) {
                Some(m) => Some(*m),
                None => None,
            };
            let floats: bool = match self.floating {
                Some((button, _)) => button == child,
                None => false,
            };
            if let Some(old_slot) = self.slots.get(&child) {
                if animate && old_slot.x != slot.x && !floats {
                    r.push(Start { child, old_x: old_slot.x, along });
                }
            }
            slots.insert(child, slot);
            let ghost earlier = moving@;
            if let Some(m) = along {
                moving.insert(child, m);
            }
            proof {
                assert forall|c: u64| #[trigger]
                    moving@.contains_key(c) <==> before.moving.contains_key(c) && is_child(
                        children@,
                        i + 1,
                        c,
                    ) by {
                    assert(earlier.contains_key(c) <==> before.moving.contains_key(c) && is_child(
                        children@,
                        i as int,
                        c,
                    ));
                    assert(is_child(children@, i + 1, c) <==> is_child(children@, i as int, c)
                        || children@[i as int].0 == c);
                }
                assert forall|c: u64| #[trigger] moving@.contains_key(c) implies moving@[c]
                    == before.moving[c] by {
                    if c != child {
                        assert(earlier.contains_key(c));
                    }
                }
            }
            i += 1;
        }
        self.slots = slots;
        self.moving = moving;
        proof {
            assert(self@.moving =~= before.moving.restrict(
                Set::new(|child: u64| is_child(children@, children@.len() as int, child)),
            ));
        }
        r
    }

    /// Sets a child moving from where it's showing.
    pub fn begin(&mut self, child: u64, from: P, now: u64)
        ensures
            final(self)@ == (SlideView {
                moving: old(self)@.moving.insert(child, Move { from, started: now }),
                ..old(self)@
            }),
            final(self)@ == old(self)@.begun(child, from, now),
    {
        self.moving.insert(child, Move { from, started: now });
    }

    /// Returns true if anything is moving.
    pub fn any_moving(&self) -> (r: bool)
        ensures
            r == !(self@.moving =~= Map::<u64, Move<P>>::empty()),
    {
        let ids = ids_in(&self.moving);
        proof {
            if ids@.len() > 0 {
                assert(ids@.contains(ids@[0]));
                assert(self@.moving.contains_key(ids@[0]));
            } else {
                assert forall|child: u64| !self@.moving.contains_key(child) by {
                    if self@.moving.contains_key(child) {
                        assert(ids@.contains(child));
                    }
                }
                assert(self@.moving =~= Map::<u64, Move<P>>::empty());
            }
        }
        ids.len() > 0
    }

    /// Returns where a child should be showing.
    pub fn place(&self, child: u64) -> (r: Showing<P>)
        ensures
            r == self@.showing(child),
    {
        if let Some((button, x)) = self.floating {
            if button == child {
                return Showing::Floating(x);
            }
        }
        match self.moving.get(&child) {
            Some(m) => Showing::Moving(*m),
            None => Showing::InSlot,
        }
    }

    /// Sets the animation going, returning true if it wasn't already.
    pub fn tick(&mut self) -> (r: bool)
        ensures
            r == !old(self)@.ticking,
            final(self)@ == (SlideView { ticking: true, ..old(self)@ }),
    {
        let r: bool = !self.ticking;
        self.ticking = true;
        r
    }

    /// Takes in that the animation couldn't be set going after all.
    pub fn untick(&mut self)
        ensures
            final(self)@ == (SlideView { ticking: false, ..old(self)@ }),
    {
        self.ticking = false;
    }

    /// Lists the children that are moving, in order.
    pub fn moving_children(&self) -> (r: Vec<u64>)
        ensures
            crate::ids::ascending(r@),
            forall|child: u64| r@.contains(child) <==> self@.moving.contains_key(child),
    {
        ids_in(&self.moving)
    }

    /// Takes a step of the animation: anything that's arrived stops moving, and once the dragged
    /// button is home it no longer needs drawing over the others.
    pub fn ticked(&mut self, now: u64) -> (r: Ticked)
        ensures
            crate::ids::ascending(r.stopped@),
            forall|child: u64|
                r.stopped@.contains(child) <==> old(self)@.moving.contains_key(child) && old(
                    self,
                )@.arrived(old(self)@.moving[child], now),
            ({
                let before = old(self)@;
                let moving = before.moving.restrict(
                    Set::new(|child: u64| !before.arrived(before.moving[child], now)),
                );
                let home = before.floating is None && before.raised is Some && !moving.contains_key(
                    before.raised->0,
                );
                &&& r.go_on == !(moving =~= Map::empty())
                &&& final(self)@ == (SlideView {
                    moving,
                    raised: if home {
                        None
                    } else {
                        before.raised
                    },
                    ticking: before.ticking && r.go_on,
                    ..before
                })
            }),
            final(self)@ == old(self)@.stepped(now),
    {
        let ghost before = self@;
        let ghost left = before.moving.restrict(
            Set::new(|child: u64| !before.arrived(before.moving[child], now)),
        );
        let ids = ids_in(&self.moving);
        let mut stopped: Vec<u64> = Vec::new();
        let mut k: usize = 0;
        while k < ids.len()
            invariant
                k <= ids@.len(),
                crate::ids::ascending(ids@),
                crate::ids::ascending(stopped@),
                forall|child: u64| ids@.contains(child) <==> before.moving.contains_key(child),
                self.duration == before.duration,
                self@ == (SlideView { moving: self@.moving, ..before }),
                forall|child: u64|
                    stopped@.contains(child) <==> ids@.take(k as int).contains(child) && before.arrived(
                        before.moving[child],
                        now,
                    ),
                forall|j: int|
                    0 <= j < stopped@.len() && k < ids@.len() ==> #[trigger] stopped@[j] < ids@[k as int],
                forall|child: u64| #[trigger]
                    self@.moving.contains_key(child) <==> before.moving.contains_key(child)
                        && !stopped@.contains(child),
                forall|child: u64| #[trigger]
                    self@.moving.contains_key(child) ==> self@.moving[child] == before.moving[child],
            decreases ids@.len() - k,
        {
            let child: u64 = ids[k];
            let ghost fewer = stopped@;
            let ghost earlier = self@.moving;
            proof {
                assert(ids@.contains(child));
                lemma_take_contains(ids@, k as int);
                if fewer.contains(child) {
                    let j = choose|j: int| 0 <= j < fewer.len() && fewer[j] == child;
                    assert(fewer[j] < ids@[k as int]);
                }
                assert(self@.moving.contains_key(child));
            }
            let done: bool = match self.moving.get(&child) {
                Some(m) => {
                    let since: u64 = if now > m.started {
                        now - m.started
                    } else {
                        0
                    };
                    since >= self.duration
                },
                None => false,
            };
            if done {
                self.moving.remove(&child);
                stopped.push(child);
                proof {
                    crate::ids::lemma_push_contains(fewer, child);
                    assert(self@.moving == earlier.remove(child));
                }
            }
            k += 1;
        }
        proof {
            assert(ids@.take(k as int) =~= ids@);
            assert(self@.moving =~= left);
        }
        if self.floating.is_none() {
            if let Some(raised) = self.raised {
                if !self.moving.contains_key(&raised) {
                    self.raised = None;
                }
            }
        }
        let go_on: bool = self.any_moving();
        if !go_on {
            self.ticking = false;
        }
        Ticked { stopped, go_on }
    }
}

/// The furthest left and right that a button may be, within a row.
pub open spec fn limits(row_x: int, row_width: int, width: int) -> (int, int) {
    let end = row_x + row_width - width;
    (
        row_x,
        if end > row_x {
            end
        } else {
            row_x
        },
    )
}

/// Works out how far left and right a button may be, within a row.
pub fn clamp(row_x: i32, row_width: i32, width: i32) -> (r: (i64, i64))
    ensures
        (r.0 as int, r.1 as int) == limits(row_x as int, row_width as int, width as int),
{
    let start: i64 = row_x as i64;
    let end: i64 = start + row_width as i64 - width as i64;
    if end > start {
        (start, end)
    } else {
        (start, start)
    }
}

/// Outside of a drag and the moment after it, nothing starts to slide.
pub proof fn law_slides_only_around_a_drag<P>(
    view: SlideView<P>,
    children: Seq<(u64, Slot)>,
    now: u64,
    n: int,
)
    requires
        !view.sliding(now),
    ensures
        starts_of(view, children, now, n).len() == 0,
    decreases n,
{
    if n > 0 {
        law_slides_only_around_a_drag(view, children, now, n - 1);
    }
}

/// The button being dragged never slides, and shows where the pointer has it.
pub proof fn law_dragged_button_stays_put<P>(
    view: SlideView<P>,
    children: Seq<(u64, Slot)>,
    now: u64,
    n: int,
    button: u64,
    x: P,
)
    requires
        view.floating == Some((button, x)),
        0 <= n <= children.len(),
    ensures
        forall|k: int|
            0 <= k < starts_of(view, children, now, n).len() ==> (#[trigger] starts_of(
                view,
                children,
                now,
                n,
            )[k]).child != button,
        view.showing(button) == Showing::Floating(x),
    decreases n,
{
    if n > 0 {
        law_dragged_button_stays_put(view, children, now, n - 1, button, x);
    }
}

/// Slot changes slide while a drag is on, and after it until the moment it's given, and otherwise
/// jump.
pub proof fn law_sliding_outlasts_the_drag<P>(view: SlideView<P>, now: u64)
    ensures
        view.animate ==> view.sliding(now),
        !view.animate && view.animate_until is None ==> !view.sliding(now),
        !view.animate && view.animate_until is Some ==> (view.sliding(now) <==> now
            < view.animate_until->0),
{
}

/// The children that start to slide on being given their slots, while slot changes slide, are just
/// those that had a slot further left or right before and aren't being dragged. Each slides from the
/// slot it had, or from where it's got to if it was on its way already.
pub proof fn law_children_slide_from_their_slots<P>(
    view: SlideView<P>,
    children: Seq<(u64, Slot)>,
    now: u64,
    n: int,
    start: Start<P>,
)
    requires
        0 <= n <= children.len(),
    ensures
        starts_of(view, children, now, n).contains(start) <==> exists|i: int|
            0 <= i < n && {
                let (child, slot) = #[trigger] children[i];
                &&& view.animate || (view.animate_until is Some && now < view.animate_until->0)
                &&& start.child == child
                &&& view.slots.contains_key(child)
                &&& view.slots[child].x != slot.x
                &&& start.old_x == view.slots[child].x
                &&& !(view.floating is Some && (view.floating->0).0 == child)
                &&& view.moving.contains_key(child) ==> start.along == Some(view.moving[child])
                &&& !view.moving.contains_key(child) ==> start.along is None
            },
    decreases n,
{
    if n > 0 {
        law_children_slide_from_their_slots(view, children, now, n - 1, start);
        let rest = starts_of(view, children, now, n - 1);
        let all = starts_of(view, children, now, n);
        let (child, slot) = children[n - 1];
        let last = Start {
            child,
            old_x: view.slots[child].x,
            along: if view.moving.contains_key(child) {
                Some(view.moving[child])
            } else {
                None
            },
        };
        crate::ids::lemma_push_contains(rest, last);
        assert(all.contains(start) <==> rest.contains(start) || (view.starts(child, slot, now) && start
            == last));
        if rest.contains(start) {
            let i = choose|i: int|
                0 <= i < n - 1 && {
                    let (child, slot) = #[trigger] children[i];
                    &&& view.animate || (view.animate_until is Some && now < view.animate_until->0)
                    &&& start.child == child
                    &&& view.slots.contains_key(child)
                    &&& view.slots[child].x != slot.x
                    &&& start.old_x == view.slots[child].x
                    &&& !(view.floating is Some && (view.floating->0).0 == child)
                    &&& view.moving.contains_key(child) ==> start.along == Some(view.moving[child])
                    &&& !view.moving.contains_key(child) ==> start.along is None
                };
            assert(children[i] == children[i]);
        } else if all.contains(start) {
            assert(children[n - 1] == (child, slot));
        }
    }
}

/// Each child has the slot it was given last, and nothing else has one.
pub proof fn law_children_have_their_slots(children: Seq<(u64, Slot)>, n: int, child: u64)
    requires
        0 <= n <= children.len(),
        distinct(children),
    ensures
        forall|i: int|
            0 <= i < n ==> slots_of(children, n).contains_key((#[trigger] children[i]).0) && slots_of(
                children,
                n,
            )[children[i].0] == children[i].1,
        slots_of(children, n).contains_key(child) ==> exists|i: int|
            0 <= i < n && (#[trigger] children[i]).0 == child,
    decreases n,
{
    if n > 0 {
        law_children_have_their_slots(children, n - 1, child);
        assert forall|i: int| 0 <= i < n implies slots_of(children, n).contains_key(
            (#[trigger] children[i]).0,
        ) && slots_of(children, n)[children[i].0] == children[i].1 by {
            if i < n - 1 {
                assert(children[i].0 != children[n - 1].0);
            }
        }
        if slots_of(children, n).contains_key(child) && children[n - 1].0 != child {
            let i = choose|i: int| 0 <= i < n - 1 && (#[trigger] children[i]).0 == child;
            assert(children[i].0 == child);
        }
    }
}

/// A child shows where the pointer has it while it's being dragged, then along its way while it's
/// moving, and in its slot otherwise.
pub proof fn law_children_show_where_they_are<P>(view: SlideView<P>, child: u64)
    ensures
        view.floating is Some && (view.floating->0).0 == child ==> view.showing(child)
            == Showing::Floating((view.floating->0).1),
        !(view.floating is Some && (view.floating->0).0 == child) && view.moving.contains_key(child)
            ==> view.showing(child) == Showing::Moving(view.moving[child]),
        !(view.floating is Some && (view.floating->0).0 == child) && !view.moving.contains_key(child)
            ==> view.showing(child) == Showing::<P>::InSlot,
{
}

/// A move has arrived once its time is up, and not before.
pub proof fn law_moves_take_their_time<P>(view: SlideView<P>, m: Move<P>, now: u64)
    ensures
        view.arrived(m, now) <==> view.duration == 0 || now >= m.started + view.duration,
{
}

/// A button may go as far left as its row does, and as far right as still fits into it, or nowhere if
/// it doesn't fit.
pub proof fn law_buttons_stay_in_their_row(row_x: int, row_width: int, width: int)
    ensures
        limits(row_x, row_width, width).0 == row_x,
        width <= row_width ==> limits(row_x, row_width, width).1 + width == row_x + row_width,
        width > row_width ==> limits(row_x, row_width, width).1 == row_x,
{
}

/// A button that's being dragged is drawn over the others and moves with the pointer alone. Let go of,
/// it slides back from there, still over the others, until it's home, and slot changes go on sliding
/// for half a second longer than a slide takes.
pub proof fn law_dragged_buttons_slide_home<P>(view: SlideView<P>, button: u64, x: P, now: u64, later: u64)
    requires
        now + view.duration + 500_000_000 <= u64::MAX,
    ensures
        ({
            let held = view.floated(button, x);
            let after = held.finished(now);
            &&& held.floating == Some((button, x)) && held.raised == Some(button)
            &&& !held.moving.contains_key(button)
            &&& held.showing(button) == Showing::Floating(x)
            &&& after.floating is None && after.raised == Some(button) && !after.animate
            &&& after.showing(button) == Showing::Moving(Move { from: x, started: now })
            &&& after.sliding(later) <==> later < now + view.duration + 500_000_000
            &&& after.slots == view.slots && after.duration == view.duration
            &&& view.duration > 0 && later < now + view.duration ==> after.stepped(later).raised
                == Some(button)
            &&& later >= now + view.duration ==> after.stepped(later).raised is None
                && !after.stepped(later).moving.contains_key(button)
        }),
{
}

/// A step of the animation leaves just those children moving that haven't arrived, as they were, and
/// goes on just while there are any. A button that's being dragged stays raised.
pub proof fn law_only_arrivals_stop<P>(view: SlideView<P>, now: u64, child: u64)
    ensures
        ({
            let after = view.stepped(now);
            &&& after.moving.contains_key(child) <==> view.moving.contains_key(child) && !(
            view.duration == 0 || now >= view.moving[child].started + view.duration)
            &&& after.moving.contains_key(child) ==> after.moving[child] == view.moving[child]
            &&& view.floating is Some ==> after.raised == view.raised
            &&& after.raised is Some ==> after.raised == view.raised
            &&& view.raised == Some(child) && after.moving.contains_key(child) ==> after.raised
                == Some(child)
            &&& after.slots == view.slots && after.floating == view.floating
            &&& view.ticking && after.moving.contains_key(child) ==> after.ticking
            &&& after.moving =~= Map::empty() ==> !after.ticking
        }),
{
    let after = view.stepped(now);
    if after.moving.contains_key(child) {
        assert(!(after.moving =~= Map::<u64, Move<P>>::empty()));
    }
}

/// A child that's gone from the row is forgotten, and one that's still there goes on moving as it was.
pub proof fn law_children_that_go_are_forgotten<P>(
    view: SlideView<P>,
    children: Seq<(u64, Slot)>,
    child: u64,
)
    ensures
        ({
            let after = view.given(children);
            let there = exists|i: int| 0 <= i < children.len() && (#[trigger] children[i]).0 == child;
            &&& after.moving.contains_key(child) <==> view.moving.contains_key(child) && there
            &&& after.moving.contains_key(child) ==> after.moving[child] == view.moving[child]
            &&& after.floating == view.floating && after.raised == view.raised
        }),
        forall|from: P, now: u64|
            #![trigger view.begun(child, from, now)]
            view.begun(child, from, now).moving.contains_key(child) && view.begun(
                child,
                from,
                now,
            ).moving[child] == (Move { from, started: now }),
{
}

/// The raised button is drawn only on top of the others, and every other button only along with them.
pub proof fn law_raised_buttons_are_drawn_on_top<P>(view: SlideView<P>, child: u64)
    ensures
        view.raised != Some(child) ==> !view.hidden(child),
        view.raised == Some(child) ==> view.hidden(child) == !view.drawing_raised,
{
}

} // verus!
