//! Scrolling through the windows that the taskbar shows.

use vstd::prelude::*;

verus! {

/// Which windows scrolling goes through, and how far it's got.
#[derive(Debug)]
pub struct ScrollState {
    visible_window_ids: Vec<u64>,
    current_idx: Option<usize>,
    last_handled_event_time: u32,
}

/// What a [`ScrollState`] holds.
#[verifier::ext_equal]
pub struct ScrollView {
    /// The windows on show, in order.
    pub windows: Seq<u64>,
    /// Where among them scrolling starts from.
    pub at: Option<int>,
    /// The time of the last event that moved.
    pub last: u32,
}

impl ScrollView {
    /// Whether scrolling starts from one of the windows, or from nowhere, or from where the first
    /// one would be.
    pub open spec fn valid(self) -> bool {
        match self.at {
            Some(at) => 0 <= at < self.windows.len() || (at == 0 && self.windows.len() == 0),
            None => true,
        }
    }

    /// Where scrolling goes next, if anywhere.
    pub open spec fn next(self, forward: bool, wrap: bool) -> Option<int> {
        let len = self.windows.len() as int;
        match self.at {
            _ if len == 0 => None,
            Some(at) => if forward {
                if at + 1 < len {
                    Some(at + 1)
                } else if wrap {
                    Some(0)
                } else {
                    None
                }
            } else {
                if at > 0 {
                    Some(at - 1)
                } else if wrap {
                    Some(len - 1)
                } else {
                    None
                }
            },
            None => if forward {
                Some(0)
            } else {
                Some(len - 1)
            },
        }
    }

    /// The state once scrolling has gone on.
    pub open spec fn moved(self, forward: bool, wrap: bool) -> ScrollView {
        match self.next(forward, wrap) {
            Some(at) => ScrollView { at: Some(at), ..self },
            None => if self.windows.len() == 0 {
                ScrollView { at: None, ..self }
            } else {
                self
            },
        }
    }

    /// The window that scrolling goes on to, if any.
    pub open spec fn target(self, forward: bool, wrap: bool) -> Option<u64> {
        match self.next(forward, wrap) {
            Some(at) => Some(self.windows[at]),
            None => None,
        }
    }

    /// The state with other windows on show. Scrolling starts from the focused one, or failing that
    /// stays where it was as far as it can.
    pub open spec fn showing(self, windows: Seq<u64>, focused: Option<u64>) -> ScrollView {
        let found = match focused {
            Some(id) if windows.contains(id) => Some(windows.index_of_first(id)->0),
            _ => None,
        };
        let last: int = if windows.len() == 0 {
            0
        } else {
            windows.len() - 1
        };
        ScrollView {
            windows,
            at: match (found, self.at) {
                (Some(at), _) => Some(at),
                (None, Some(at)) => Some(
                    if at < last {
                        at
                    } else {
                        last
                    },
                ),
                (None, None) => None,
            },
            last: self.last,
        }
    }

    /// The state with one window standing in for another.
    pub open spec fn restopped(self, old_stop: u64, new_stop: u64) -> ScrollView {
        ScrollView {
            windows: self.windows.map_values(
                |id: u64|
                    if id == old_stop {
                        new_stop
                    } else {
                        id
                    },
            ),
            ..self
        }
    }
}

/// How far smooth scrolling along one axis has added up to.
#[derive(Debug, Clone, Copy, PartialEq, Eq, Structural)]
pub enum Reach {
    /// A whole step or more up, or to the left.
    Low,
    /// Less than a step either way.
    Within,
    /// A whole step or more down, or to the right.
    High,
}

/// Which way a scroll event goes.
#[derive(Debug, Clone, Copy, PartialEq, Eq, Structural)]
pub enum Direction {
    Up,
    Down,
    Left,
    Right,
    /// The end of a smooth scroll.
    SmoothStop,
    /// Smooth scrolling that's mostly vertical, with what it adds up to.
    SmoothVertical(Reach),
    /// Smooth scrolling that's mostly horizontal, with what it adds up to.
    SmoothHorizontal(Reach),
    Other,
}

/// A scroll event.
#[derive(Debug, Clone, Copy)]
pub struct ScrollEvent {
    pub direction: Direction,
    pub time: u32,
}

/// What becomes of what smooth scrolling along one axis has added up to.
#[derive(Debug, Clone, Copy, PartialEq, Eq, Structural)]
pub enum Sum {
    /// It stays as it was before the event.
    Kept,
    /// It takes in the event.
    Stored,
    /// It starts again from nothing.
    Cleared,
}

/// What comes of a scroll event.
#[derive(Debug, Clone, Copy, PartialEq, Eq, Structural)]
pub struct Outcome {
    /// Whether the event goes no further.
    pub stop: bool,
    pub vertical: Sum,
    pub horizontal: Sum,
    /// The window to activate.
    pub activate: Option<u64>,
}

/// Whether an event goes forward, if it goes anywhere.
pub open spec fn goes_forward(direction: Direction) -> Option<bool> {
    match direction {
        Direction::Up | Direction::Right => Some(true),
        Direction::Down | Direction::Left => Some(false),
        Direction::SmoothVertical(Reach::Low) | Direction::SmoothHorizontal(Reach::High) => Some(
            true,
        ),
        Direction::SmoothVertical(Reach::High) | Direction::SmoothHorizontal(Reach::Low) => Some(
            false,
        ),
        _ => None,
    }
}

/// What becomes of the vertical sum.
pub open spec fn vertical_sum(direction: Direction) -> Sum {
    match direction {
        Direction::SmoothStop => Sum::Cleared,
        Direction::SmoothVertical(Reach::Within) => Sum::Stored,
        Direction::SmoothVertical(_) => Sum::Cleared,
        _ => Sum::Kept,
    }
}

/// What becomes of the horizontal sum.
pub open spec fn horizontal_sum(direction: Direction) -> Sum {
    match direction {
        Direction::SmoothStop => Sum::Cleared,
        Direction::SmoothHorizontal(Reach::Within) => Sum::Stored,
        Direction::SmoothHorizontal(_) => Sum::Cleared,
        _ => Sum::Kept,
    }
}

/// Whether an event moves at all: there are windows to go through, it goes somewhere, and it isn't
/// the one that was handled last come round again.
pub open spec fn moves(state: ScrollView, event: ScrollEvent) -> bool {
    &&& state.windows.len() > 0
    &&& goes_forward(event.direction) is Some
    &&& state.last != event.time
}

/// The state after a scroll event.
pub open spec fn after_event(
    state: ScrollView,
    wrap: bool,
    reverse: bool,
    event: ScrollEvent,
) -> ScrollView {
    if moves(state, event) {
        let forward = goes_forward(event.direction)->0 != reverse;
        match state.target(forward, wrap) {
            Some(_) => ScrollView { last: event.time, ..state.moved(forward, wrap) },
            None => state,
        }
    } else {
        state
    }
}

/// What comes of a scroll event.
pub open spec fn outcome_of(
    state: ScrollView,
    wrap: bool,
    reverse: bool,
    event: ScrollEvent,
) -> Outcome {
    if state.windows.len() == 0 {
        Outcome { stop: false, vertical: Sum::Kept, horizontal: Sum::Kept, activate: None }
    } else {
        Outcome {
            stop: event.direction != Direction::Other,
            vertical: vertical_sum(event.direction),
            horizontal: horizontal_sum(event.direction),
            activate: if moves(state, event) {
                state.target(goes_forward(event.direction)->0 != reverse, wrap)
            } else {
                None
            },
        }
    }
}

impl View for ScrollState {
    type V = ScrollView;

    closed spec fn view(&self) -> ScrollView {
        ScrollView {
            windows: self.visible_window_ids@,
            at: match self.current_idx {
                Some(at) => Some(at as int),
                None => None,
            },
            last: self.last_handled_event_time,
        }
    }
}

impl ScrollState {
    #[verifier::type_invariant]
    spec fn starts_somewhere(self) -> bool {
        self@.valid()
    }

    /// Nothing to scroll through.
    pub fn new() -> (r: Self)
        ensures
            r@ == (ScrollView { windows: Seq::empty(), at: None, last: 0 }),
    {
        ScrollState { visible_window_ids: Vec::new(), current_idx: None, last_handled_event_time: 0 }
    }

    /// The windows that scrolling goes through, in order.
    pub fn visible_window_ids(&self) -> (r: &Vec<u64>)
        ensures
            r@ == self@.windows,
    {
        &self.visible_window_ids
    }

    /// Where among them scrolling starts from.
    pub fn current_idx(&self) -> (r: Option<usize>)
        ensures
            match self@.at {
                Some(at) => r is Some && r->0 == at,
                None => r is None,
            },
    {
        self.current_idx
    }

    /// Goes on to the next window, returning it, if there's one to go to.
    pub fn cycle_target(&mut self, forward: bool, wrap: bool) -> (r: Option<u64>)
        ensures
            r == old(self)@.target(forward, wrap),
            final(self)@ == old(self)@.moved(forward, wrap),
    {
        proof {
            use_type_invariant(&*self);
        }
        let len: usize = self.visible_window_ids.len();
        if len == 0 {
            self.current_idx = None;
            return None;
        }
        let target: usize = match self.current_idx {
            Some(at) => if forward {
                if at < len - 1 {
                    at + 1
                } else if wrap {
                    0
                } else {
                    return None;
                }
            } else {
                if at > 0 {
                    at - 1
                } else if wrap {
                    len - 1
                } else {
                    return None;
                }
            },
            None => if forward {
                0
            } else {
                len - 1
            },
        };
        self.current_idx = Some(target);
        Some(self.visible_window_ids[target])
    }

    /// Takes in which windows are on show, and which of them is focused.
    pub fn show(&mut self, windows: Vec<u64>, focused: Option<u64>)
        ensures
            final(self)@ == old(self)@.showing(windows@, focused),
    {
        proof {
            use_type_invariant(&*self);
        }
        let found: Option<usize> = match focused {
            Some(id) => position(&windows, id),
            None => None,
        };
        let last: usize = if windows.len() == 0 {
            0
        } else {
            windows.len() - 1
        };
        let at: Option<usize> = match (found, self.current_idx) {
            (Some(at), _) => Some(at),
            (None, Some(at)) => Some(
                if at < last {
                    at
                } else {
                    last
                },
            ),
            (None, None) => None,
        };
        *self = ScrollState {
            visible_window_ids: windows,
            current_idx: at,
            last_handled_event_time: self.last_handled_event_time,
        };
    }

    /// Has one window stand in for another.
    pub fn restop(&mut self, old_stop: u64, new_stop: u64)
        ensures
            final(self)@ == old(self)@.restopped(old_stop, new_stop),
    {
        proof {
            use_type_invariant(&*self);
        }
        let ghost before = self.visible_window_ids@;
        let mut windows: Vec<u64> = Vec::new();
        let mut i: usize = 0;
        while i < self.visible_window_ids.len()
            invariant
                i <= self.visible_window_ids@.len(),
                before == self.visible_window_ids@,
                *self == *old(self),
                windows@.len() == i,
                forall|j: int|
                    0 <= j < i ==> #[trigger] windows@[j] == if before[j] == old_stop {
                        new_stop
                    } else {
                        before[j]
                    },
            decreases self.visible_window_ids@.len() - i,
        {
            let id: u64 = self.visible_window_ids[i];
            windows.push(
                if id == old_stop {
                    new_stop
                } else {
                    id
                },
            );
            i += 1;
        }
        *self = ScrollState {
            visible_window_ids: windows,
            current_idx: self.current_idx,
            last_handled_event_time: self.last_handled_event_time,
        };
        proof {
            assert(self@.windows =~= old(self)@.restopped(old_stop, new_stop).windows);
        }
    }

    /// Takes in a scroll event.
    pub fn handle_bar_scroll_event(&mut self, wrap: bool, reverse: bool, event: &ScrollEvent) -> (r:
        Outcome)
        ensures
            r == outcome_of(old(self)@, wrap, reverse, *event),
            final(self)@ == after_event(old(self)@, wrap, reverse, *event),
    {
        if self.visible_window_ids.len() == 0 {
            return Outcome {
                stop: false,
                vertical: Sum::Kept,
                horizontal: Sum::Kept,
                activate: None,
            };
        }
        let mut r: Outcome = Outcome {
            stop: true,
            vertical: Sum::Kept,
            horizontal: Sum::Kept,
            activate: None,
        };
        let forward: bool = match event.direction {
            Direction::Up | Direction::Right => true,
            Direction::Down | Direction::Left => false,
            Direction::SmoothStop => {
                r.vertical = Sum::Cleared;
                r.horizontal = Sum::Cleared;
                return r;
            },
            Direction::SmoothVertical(reach) => match reach {
                Reach::Low => {
                    r.vertical = Sum::Cleared;
                    true
                },
                Reach::High => {
                    r.vertical = Sum::Cleared;
                    false
                },
                Reach::Within => {
                    r.vertical = Sum::Stored;
                    return r;
                },
            },
            Direction::SmoothHorizontal(reach) => match reach {
                Reach::High => {
                    r.horizontal = Sum::Cleared;
                    true
                },
                Reach::Low => {
                    r.horizontal = Sum::Cleared;
                    false
                },
                Reach::Within => {
                    r.horizontal = Sum::Stored;
                    return r;
                },
            },
            Direction::Other => {
                r.stop = false;
                return r;
            },
        };
        let forward: bool = forward != reverse;
        if self.last_handled_event_time == event.time {
            return r;
        }
        r.activate = self.cycle_target(forward, wrap);
        if r.activate.is_some() {
            proof {
                use_type_invariant(&*self);
            }
            self.last_handled_event_time = event.time;
        }
        r
    }
}

/// Finds the first place a window is in.
fn position(windows: &Vec<u64>, id: u64) -> (r: Option<usize>)
    ensures
        match r {
            Some(at) => windows@.contains(id) && windows@.index_of_first(id) == Some(at as int) && at
                < windows@.len(),
            None => !windows@.contains(id),
        },
{
    let mut i: usize = 0;
    while i < windows.len()
        invariant
            i <= windows@.len(),
            forall|j: int| 0 <= j < i ==> windows@[j] != id,
        decreases windows@.len() - i,
    {
        if windows[i] == id {
            proof {
                windows@.index_of_first_ensures(id);
                let k = windows@.index_of_first(id)->0;
                assert(k == i);
            }
            return Some(i);
        }
        i += 1;
    }
    None
}

/// Whatever gets activated is one of the windows on show.
pub proof fn law_only_shown_windows_activate(
    state: ScrollView,
    wrap: bool,
    reverse: bool,
    event: ScrollEvent,
)
    requires
        state.valid(),
    ensures
        match outcome_of(state, wrap, reverse, event).activate {
            Some(id) => state.windows.contains(id),
            None => true,
        },
{
}

/// Scrolling one way and then the other ends up where it started, unless there was nowhere to go.
pub proof fn law_back_and_forth(state: ScrollView, forward: bool, wrap: bool)
    requires
        state.valid(),
        state.at is Some,
        state.next(forward, wrap) is Some,
    ensures
        state.moved(forward, wrap).moved(!forward, wrap) == state,
{
}

/// Without wrapping, scrolling past either end goes nowhere and changes nothing.
pub proof fn law_ends_stop_without_wrap(state: ScrollView)
    requires
        state.windows.len() > 0,
    ensures
        state.at == Some(state.windows.len() - 1) ==> state.target(true, false) is None && state.moved(
            true,
            false,
        ) == state,
        state.at == Some(0int) ==> state.target(false, false) is None && state.moved(false, false)
            == state,
{
}

/// With wrapping, scrolling past the end jumps back to the beginning, and past the beginning to the
/// end.
pub proof fn law_ends_meet_with_wrap(state: ScrollView)
    requires
        state.windows.len() > 0,
    ensures
        state.at == Some(state.windows.len() - 1) ==> state.target(true, true) == Some(
            state.windows[0],
        ),
        state.at == Some(0int) ==> state.target(false, true) == Some(state.windows.last()),
{
}

/// Scrolling one way a number of times, with wrapping.
pub open spec fn moved_times(state: ScrollView, forward: bool, times: nat) -> ScrollView
    decreases times,
{
    if times == 0 {
        state
    } else {
        moved_times(state, forward, (times - 1) as nat).moved(forward, true)
    }
}

/// With wrapping, scrolling either way goes through every window in turn, and comes back to where it
/// started after as many steps as there are windows.
pub proof fn law_wrap_goes_round(state: ScrollView, forward: bool, at: int, times: nat)
    requires
        state.valid(),
        state.at == Some(at),
        state.windows.len() > 0,
        times <= state.windows.len(),
    ensures
        moved_times(state, forward, times).windows == state.windows,
        moved_times(state, forward, times).at == Some(
            if forward {
                if at + times < state.windows.len() {
                    at + times
                } else {
                    at + times - state.windows.len()
                }
            } else {
                if at - times >= 0 {
                    at - times
                } else {
                    at - times + state.windows.len()
                }
            },
        ),
    decreases times,
{
    if times > 0 {
        law_wrap_goes_round(state, forward, at, (times - 1) as nat);
    }
}

/// The direction opposite to another.
pub open spec fn opposite(direction: Direction) -> Direction {
    match direction {
        Direction::Up => Direction::Down,
        Direction::Down => Direction::Up,
        Direction::Left => Direction::Right,
        Direction::Right => Direction::Left,
        Direction::SmoothVertical(Reach::Low) => Direction::SmoothVertical(Reach::High),
        Direction::SmoothVertical(Reach::High) => Direction::SmoothVertical(Reach::Low),
        Direction::SmoothHorizontal(Reach::Low) => Direction::SmoothHorizontal(Reach::High),
        Direction::SmoothHorizontal(Reach::High) => Direction::SmoothHorizontal(Reach::Low),
        other => other,
    }
}

/// Reversing the direction in the configuration does the same as scrolling the other way.
pub proof fn law_reverse_is_the_other_way(state: ScrollView, wrap: bool, event: ScrollEvent)
    ensures
        ({
            let other = ScrollEvent { direction: opposite(event.direction), time: event.time };
            &&& outcome_of(state, wrap, true, event) == outcome_of(state, wrap, false, other)
            &&& after_event(state, wrap, true, event) == after_event(state, wrap, false, other)
        }),
{
}

/// An event that moved is not acted on a second time.
pub proof fn law_events_count_once(state: ScrollView, wrap: bool, reverse: bool, event: ScrollEvent)
    requires
        outcome_of(state, wrap, reverse, event).activate is Some,
    ensures
        ({
            let after = after_event(state, wrap, reverse, event);
            &&& outcome_of(after, wrap, reverse, event).activate is None
            &&& after_event(after, wrap, reverse, event) == after
        }),
{
}

/// Whether a scroll event is one that goes up or to the right, by a step or by enough smooth
/// scrolling to make one.
pub open spec fn is_up_or_right(direction: Direction) -> bool {
    ||| direction == Direction::Up
    ||| direction == Direction::Right
    ||| direction == Direction::SmoothVertical(Reach::Low)
    ||| direction == Direction::SmoothHorizontal(Reach::High)
}

/// Whether a scroll event is one that goes down or to the left, by a step or by enough smooth
/// scrolling to make one.
pub open spec fn is_down_or_left(direction: Direction) -> bool {
    ||| direction == Direction::Down
    ||| direction == Direction::Left
    ||| direction == Direction::SmoothVertical(Reach::High)
    ||| direction == Direction::SmoothHorizontal(Reach::Low)
}

/// Scrolling up or to the right activates the next window along, and down or to the left the one
/// before, or the other way round in reverse. At either end it comes round to the other where it
/// wraps, and does nothing where it doesn't. From nowhere, it starts at the end it comes from.
pub proof fn law_scrolling_steps_along(
    state: ScrollView,
    wrap: bool,
    reverse: bool,
    event: ScrollEvent,
)
    requires
        state.valid(),
        state.windows.len() > 0,
        state.last != event.time,
        is_up_or_right(event.direction) || is_down_or_left(event.direction),
    ensures
        ({
            let len = state.windows.len() as int;
            let forward = is_up_or_right(event.direction) != reverse;
            let activate = outcome_of(state, wrap, reverse, event).activate;
            let after = after_event(state, wrap, reverse, event);
            let end = if forward {
                len - 1
            } else {
                0
            };
            let start = len - 1 - end;
            let to = match state.at {
                None => Some(start),
                Some(at) if at != end => Some(
                    if forward {
                        at + 1
                    } else {
                        at - 1
                    },
                ),
                Some(_) if wrap => Some(start),
                Some(_) => None,
            };
            match to {
                Some(to) => {
                    &&& activate == Some(state.windows[to])
                    &&& after.at == Some(to)
                    &&& after.last == event.time
                    &&& after.windows == state.windows
                },
                None => activate is None && after == state,
            }
        }),
{
}

/// An event that goes nowhere, that's been handled before, or that comes while there are no windows
/// activates nothing and changes nothing.
pub proof fn law_other_events_do_nothing(
    state: ScrollView,
    wrap: bool,
    reverse: bool,
    event: ScrollEvent,
)
    requires
        state.windows.len() == 0 || state.last == event.time || (!is_up_or_right(event.direction)
            && !is_down_or_left(event.direction)),
    ensures
        outcome_of(state, wrap, reverse, event).activate is None,
        after_event(state, wrap, reverse, event) == state,
{
}

/// Smooth scrolling that hasn't added up to a step is stored on its own axis, one that has clears
/// that axis, and the end of it clears both. Every event that scrolling knows is stopped there, as
/// long as there are windows.
pub proof fn law_smooth_scrolling_adds_up(
    state: ScrollView,
    wrap: bool,
    reverse: bool,
    event: ScrollEvent,
    reach: Reach,
)
    ensures
        ({
            let r = outcome_of(state, wrap, reverse, event);
            let d = event.direction;
            &&& state.windows.len() == 0 ==> !r.stop && r.vertical == Sum::Kept && r.horizontal
                == Sum::Kept
            &&& state.windows.len() > 0 ==> {
                &&& r.stop == (d != Direction::Other)
                &&& d == Direction::SmoothVertical(reach) ==> r.horizontal == Sum::Kept && r.vertical
                    == if reach == Reach::Within {
                    Sum::Stored
                } else {
                    Sum::Cleared
                }
                &&& d == Direction::SmoothHorizontal(reach) ==> r.vertical == Sum::Kept && r.horizontal
                    == if reach == Reach::Within {
                    Sum::Stored
                } else {
                    Sum::Cleared
                }
                &&& d == Direction::SmoothStop ==> r.vertical == Sum::Cleared && r.horizontal
                    == Sum::Cleared
                &&& d == Direction::Up || d == Direction::Down || d == Direction::Left || d
                    == Direction::Right || d == Direction::Other ==> r.vertical == Sum::Kept
                    && r.horizontal == Sum::Kept
            }
        }),
{
}

/// With other windows on show, scrolling starts from the focused one where it's among them. Where it
/// isn't, scrolling stays at the place it was at, or the last one there is.
pub proof fn law_scrolling_starts_at_the_focus(
    state: ScrollView,
    windows: Seq<u64>,
    focused: Option<u64>,
    i: int,
)
    requires
        state.valid(),
    ensures
        ({
            let after = state.showing(windows, focused);
            &&& after.windows == windows
            &&& after.last == state.last
            &&& after.valid()
            &&& 0 <= i < windows.len() && focused == Some(windows[i]) && (forall|j: int|
                0 <= j < i ==> windows[j] != windows[i]) ==> after.at == Some(i)
            &&& focused is None || !windows.contains(focused->0) ==> {
                &&& state.at is None ==> after.at is None
                &&& state.at is Some && state.at->0 < windows.len() ==> after.at == state.at
                &&& state.at is Some && state.at->0 >= windows.len() > 0 ==> after.at == Some(
                    windows.len() - 1,
                )
                &&& state.at is Some && windows.len() == 0 ==> after.at == Some(0int)
            }
        }),
{
    if focused is Some && windows.contains(focused->0) {
        windows.index_of_first_ensures(focused->0);
        let k = windows.index_of_first(focused->0)->0;
        if 0 <= i < windows.len() && focused == Some(windows[i]) && (forall|j: int|
            0 <= j < i ==> windows[j] != windows[i]) {
            assert(k == i);
        }
    }
    if 0 <= i < windows.len() && focused == Some(windows[i]) {
        assert(windows.contains(windows[i]));
    }
}

/// A window that stands in for another takes its place, wherever that is, and every other stays.
pub proof fn law_stand_ins_take_the_place(state: ScrollView, old_stop: u64, new_stop: u64, i: int)
    ensures
        ({
            let after = state.restopped(old_stop, new_stop);
            &&& after.at == state.at
            &&& after.last == state.last
            &&& after.windows.len() == state.windows.len()
            &&& 0 <= i < state.windows.len() && state.windows[i] == old_stop ==> after.windows[i]
                == new_stop
            &&& 0 <= i < state.windows.len() && state.windows[i] != old_stop ==> after.windows[i]
                == state.windows[i]
        }),
{
}

} // verus!
