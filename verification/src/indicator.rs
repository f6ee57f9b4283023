//! Pills that sit under taskbar buttons: one that follows the focused window, and one that grows
//! under whichever button the pointer is over.
//!
//! Buttons are told apart by numbers, and times are in nanoseconds from some fixed point. How far a
//! pill is into a change is whatever `P` is, and where one is drawn is whatever `R` is.

use vstd::prelude::*;

use crate::config::Config;
use crate::gradient::{space_name, space_of, Gradient, Space};
use crate::text::words;

verus! {

/// Which pill is being drawn, and so which style class applies.
#[derive(Debug, Clone, Copy, PartialEq, Eq, Structural)]
pub enum Kind {
    Focus,
    /// The focus pill's look while its button is hovered, which it blends into.
    FocusHover,
    Hover,
    Urgent,
}

impl Kind {
    /// The extra style class this pill carries, alongside `indicator`.
    pub fn class(self) -> (r: Option<&'static str>)
        ensures
            match self {
                Kind::Focus => r is None,
                Kind::FocusHover => r is Some && r->0@ == "focus-hover"@,
                Kind::Hover => r is Some && r->0@ == "hover"@,
                Kind::Urgent => r is Some && r->0@ == "urgent"@,
            },
    {
        match self {
            Kind::Focus => None,
            Kind::FocusHover => Some("focus-hover"),
            Kind::Hover => Some("hover"),
            Kind::Urgent => Some("urgent"),
        }
    }
}

/// How the indicators should behave, from the taskbar configuration, with colours as `C`.
#[derive(Debug, Clone, Copy)]
pub struct Options<C> {
    pub focus: bool,
    pub focus_height: u32,
    pub focus_ms: u32,
    pub focus_hover_height: u32,
    /// The colour space the focus pill fades into its hovered colour through.
    pub focus_hover_space: Space,
    /// Drawn in place of the focus pill's usual look while its button is being dragged.
    pub drag_gradient: Option<Gradient<C>>,
    pub hover: bool,
    pub hover_height: u32,
    pub hover_ms: u32,
    pub urgent: bool,
    pub urgent_height: u32,
    pub urgent_pulse_ms: u32,
}

impl<C> Options<C> {
    /// Whether the options say what the configuration does, given the drag gradient's colours as far
    /// as they could be read.
    pub open spec fn follows(self, config: Config, from: Option<C>, to: Option<C>) -> bool {
        &&& self.focus == config.focus_indicator
        &&& self.focus_height == config.focus_indicator_height
        &&& self.focus_ms == config.focus_indicator_ms
        &&& self.focus_hover_height == match config.focus_indicator_hover_height {
            Some(height) => height as int,
            None => config.focus_indicator_height + 2,
        }
        &&& self.focus_hover_space == match config.focus_indicator_hover_in {
            Some(space) => match space_of(words(space@)) {
                Some(known) => known,
                None => Space::Srgb,
            },
            None => Space::Srgb,
        }
        &&& match config.drag_indicator_gradient {
            Some(gradient) => {
                let space = space_of(words(space_name(gradient)));
                if from is Some && to is Some && space is Some {
                    self.drag_gradient == Some(
                        Gradient {
                            from: from->0,
                            to: to->0,
                            space: space->0,
                            cycle_ms: gradient.cycle_ms,
                            fade_ms: gradient.fade_ms,
                        },
                    )
                } else {
                    self.drag_gradient is None
                }
            },
            None => self.drag_gradient is None,
        }
        &&& self.hover == config.hover_indicator
        &&& self.hover_height == config.hover_indicator_height
        &&& self.hover_ms == config.hover_indicator_ms
        &&& self.urgent == config.urgent_indicator
        &&& self.urgent_height == config.urgent_indicator_height
        &&& self.urgent_pulse_ms == config.urgent_indicator_pulse_ms
    }

    /// Reads the options from the taskbar configuration, given the drag gradient's colours as far as
    /// they could be read.
    pub fn from_config(config: &Config, from: Option<C>, to: Option<C>) -> (r: Self)
        requires
            config.hover_height_fits(),
        ensures
            r.follows(*config, from, to),
    {
        Options {
            focus: config.focus_indicator(),
            focus_height: config.focus_indicator_height(),
            focus_ms: config.focus_indicator_ms(),
            focus_hover_height: config.focus_indicator_hover_height(),
            focus_hover_space: config.focus_indicator_hover_space(),
            drag_gradient: config.drag_indicator_gradient(from, to),
            hover: config.hover_indicator(),
            hover_height: config.hover_indicator_height(),
            hover_ms: config.hover_indicator_ms(),
            urgent: config.urgent_indicator(),
            urgent_height: config.urgent_indicator_height(),
            urgent_pulse_ms: config.urgent_indicator_pulse_ms(),
        }
    }

    /// Returns true if any of the pills are wanted.
    pub fn any(&self) -> (r: bool)
        ensures
            r == (self.focus || self.hover || self.urgent),
    {
        self.focus || self.hover || self.urgent
    }
}

/// A transition between two looks of a pill.
#[derive(Debug, Clone, Copy)]
pub struct Fade<P> {
    /// How far it was when it last changed direction.
    pub from: P,
    /// Whether it's heading for the other look rather than its usual one.
    pub out: bool,
    pub started: Option<u64>,
}

/// The hover pill.
#[derive(Debug, Clone, Copy)]
pub struct Hover<P> {
    /// The button being hovered, kept while the pill retracts after the pointer leaves.
    pub button: Option<u64>,
    /// How far out the pill was when the pointer last entered or left.
    pub from: P,
    /// Where it is heading: fully out, or fully away.
    pub out: bool,
    pub started: Option<u64>,
}

/// The focus pill.
#[derive(Debug, Clone, Copy)]
pub struct Focus<R> {
    /// The button the pill sits under.
    pub button: Option<u64>,
    /// Where the pill was when the target last changed.
    pub from: Option<R>,
    pub started: Option<u64>,
}

/// Where the focus pill slides from, if it slides: with no time to do it in, it jumps.
pub open spec fn slide_start<R>(focus: Focus<R>, ms: u32) -> Option<R> {
    if ms == 0 {
        None
    } else {
        focus.from
    }
}

impl<R: Copy> Focus<R> {
    /// Returns where the pill slides from, given how long in milliseconds a slide takes, or nothing
    /// if it's simply where it belongs.
    pub fn slides_from(&self, ms: u32) -> (r: Option<R>)
        ensures
            r == slide_start(*self, ms),
    {
        if ms == 0 {
            None
        } else {
            self.from
        }
    }
}

/// With a duration of 0, the focus pill jumps instead of sliding, and there's nothing to animate.
pub proof fn law_no_duration_jumps<R>(focus: Focus<R>, now: u64)
    ensures
        slide_start(focus, 0) is None,
        !running(focus.started, 0, now),
{
}

/// What the pills are up to.
#[derive(Debug, Clone, Copy)]
pub struct Pills<P, R> {
    pub focus: Focus<R>,
    /// How far the focus pill has changed into its hovered look, which takes the place of the hover
    /// pill on the focused button.
    pub focus_hover: Fade<P>,
    /// How far the focus pill has changed into the drag gradient.
    pub drag_fade: Fade<P>,
    pub hover: Hover<P>,
    pub ticking: bool,
}

/// Whether a transition of the given length in milliseconds is still running.
pub open spec fn running(started: Option<u64>, ms: u32, now: u64) -> bool {
    match started {
        Some(started) => now - started < ms * 1_000_000 && 0 < ms,
        None => false,
    }
}

/// Returns true if a transition of the given length in milliseconds is still running.
fn is_running(started: Option<u64>, ms: u32, now: u64) -> (r: bool)
    ensures
        r == running(started, ms, now),
{
    match started {
        Some(started) => {
            let since: u64 = if now > started {
                now - started
            } else {
                0
            };
            since < ms as u64 * 1_000_000
        },
        None => false,
    }
}

impl<P, R> Pills<P, R> {
    /// The pills with the drag gradient fading in or out, if that's a change.
    pub open spec fn with_drag(self, dragging: bool, extent: P, now: u64) -> Self {
        if self.drag_fade.out == dragging {
            self
        } else {
            Pills { drag_fade: Fade { from: extent, out: dragging, started: Some(now) }, ..self }
        }
    }

    /// The pills with the focus pill heading for its hovered look or away from it, if that's a
    /// change.
    pub open spec fn with_focus_hover(self, hovered: bool, extent: P, now: u64) -> Self {
        if self.focus_hover.out == hovered {
            self
        } else {
            Pills { focus_hover: Fade { from: extent, out: hovered, started: Some(now) }, ..self }
        }
    }

    /// Whether growing or retracting the hover pill under a button changes anything.
    pub open spec fn hover_changes(self, button: u64, hovered: bool) -> bool {
        let current = self.hover.button == Some(button);
        if hovered {
            !(current && self.hover.out)
        } else {
            current && self.hover.out
        }
    }

    /// The pills with the hover pill growing or retracting under a button, if that's a change. Moving
    /// straight from one button to another restarts the growth on the new one.
    pub open spec fn with_hover(self, button: u64, hovered: bool, extent: P, zero: P, now: u64) -> Self {
        if self.hover_changes(button, hovered) {
            Pills {
                hover: Hover {
                    button: Some(button),
                    from: if self.hover.button == Some(button) {
                        extent
                    } else {
                        zero
                    },
                    out: hovered,
                    started: Some(now),
                },
                ..self
            }
        } else {
            self
        }
    }

    /// The pills with the focus pill pointed at a button, sliding from where it was, if it's to be
    /// animated.
    pub open spec fn with_focus(
        self,
        button: Option<u64>,
        animate: bool,
        previous: Option<R>,
        now: u64,
    ) -> Self {
        let slides = animate && button is Some && previous is Some;
        Pills {
            focus: Focus {
                button,
                from: if slides {
                    previous
                } else {
                    None
                },
                started: if slides {
                    Some(now)
                } else {
                    None
                },
            },
            ..self
        }
    }
}

/// Whether a hover pill belongs under a button: it's hovered, and it doesn't already have the focus
/// pill under it, since the two would just fight over the same spot.
pub open spec fn hover_wanted<C>(
    options: Options<C>,
    focused: Option<u64>,
    button: u64,
    prelit: bool,
) -> bool {
    prelit && !(options.focus && focused == Some(button))
}

/// What there is to know about a button for pointing the focus pill at it.
#[derive(Debug, Clone, Copy)]
pub struct Pointing<P> {
    /// Whether the pointer is over the button that's to be focused.
    pub focus_prelit: bool,
    /// How far the focus pill is into its hovered look.
    pub focus_hover_extent: P,
    /// Whether the pointer is over the button that has the hover pill.
    pub hover_prelit: bool,
    /// How far out the hover pill is.
    pub hover_extent: P,
    /// A pill that's fully away.
    pub zero: P,
}

impl<P: Copy, R: Copy> Pills<P, R> {
    /// Pills that aren't anywhere yet.
    pub fn new(zero: P) -> (r: Self)
        ensures
            r == (Pills::<P, R> {
                focus: Focus { button: None, from: None, started: None },
                focus_hover: Fade { from: zero, out: false, started: None },
                drag_fade: Fade { from: zero, out: false, started: None },
                hover: Hover { button: None, from: zero, out: false, started: None },
                ticking: false,
            }),
    {
        Pills {
            focus: Focus { button: None, from: None, started: None },
            focus_hover: Fade { from: zero, out: false, started: None },
            drag_fade: Fade { from: zero, out: false, started: None },
            hover: Hover { button: None, from: zero, out: false, started: None },
            ticking: false,
        }
    }

    /// Starts the drag gradient fading in or out if a drag has started or stopped, returning true if
    /// it did, given whether the focused button is being dragged and how far the gradient is.
    pub fn sync_drag<C>(&mut self, options: &Options<C>, dragged: bool, extent: P, now: u64) -> (r: bool)
        ensures
            *final(self) == old(self).with_drag(
                options.drag_gradient is Some && old(self).focus.button is Some && dragged,
                extent,
                now,
            ),
            r == (old(self).drag_fade.out != (options.drag_gradient is Some && old(
                self,
            ).focus.button is Some && dragged)),
            *final(self) == old(self).with_drag(
                gradient_wanted(*options, old(self).focus.button, dragged),
                extent,
                now,
            ),
    {
        let dragging: bool = options.drag_gradient.is_some() && self.focus.button.is_some() && dragged;
        if self.drag_fade.out == dragging {
            return false;
        }
        self.drag_fade = Fade { from: extent, out: dragging, started: Some(now) };
        true
    }

    /// Points the focus pill towards or away from its hovered look, depending on whether the pointer
    /// is over the focused button, returning true if anything changed.
    pub fn update_focus_hover<C>(
        &mut self,
        options: &Options<C>,
        prelit: bool,
        extent: P,
        now: u64,
    ) -> (r: bool)
        ensures
            ({
                let hovered = old(self).focus.button is Some && prelit;
                if options.focus && options.hover {
                    &&& *final(self) == old(self).with_focus_hover(hovered, extent, now)
                    &&& r == (old(self).focus_hover.out != hovered)
                } else {
                    &&& *final(self) == *old(self)
                    &&& !r
                }
            }),
            r == focus_hover_changes(*options, *old(self), prelit),
    {
        if !options.focus || !options.hover {
            return false;
        }
        let hovered: bool = self.focus.button.is_some() && prelit;
        if self.focus_hover.out == hovered {
            return false;
        }
        self.focus_hover = Fade { from: extent, out: hovered, started: Some(now) };
        true
    }

    /// Returns true if the hover pill belongs under the given button.
    pub fn wants_hover<C>(&self, options: &Options<C>, button: u64, prelit: bool) -> (r: bool)
        ensures
            r == hover_wanted(*options, self.focus.button, button, prelit),
    {
        prelit && !(options.focus && match self.focus.button {
            Some(focused) => focused == button,
            None => false,
        })
    }

    /// Grows or retracts the hover pill under the given button, returning true if anything changed.
    pub fn update_hover(&mut self, button: u64, hovered: bool, extent: P, zero: P, now: u64) -> (r: bool)
        ensures
            *final(self) == old(self).with_hover(button, hovered, extent, zero, now),
            r == old(self).hover_changes(button, hovered),
    {
        let current: bool = match self.hover.button {
            Some(over) => over == button,
            None => false,
        };
        if hovered {
            if current && self.hover.out {
                return false;
            }
        } else {
            if !current || !self.hover.out {
                return false;
            }
        }
        let from: P = if current {
            extent
        } else {
            zero
        };
        self.hover = Hover { button: Some(button), from, out: hovered, started: Some(now) };
        true
    }

    /// Whether there's anything to draw another frame for.
    pub open spec fn moving<C>(
        self,
        options: Options<C>,
        urgent: bool,
        gradient_showing: bool,
        now: u64,
    ) -> bool {
        ||| running(self.focus.started, options.focus_ms, now)
        ||| running(self.hover.started, options.hover_ms, now)
        ||| running(self.focus_hover.started, options.hover_ms, now)
        ||| options.urgent && options.urgent_pulse_ms > 0 && urgent
        ||| self.drag_fade.out || gradient_showing
    }

    /// Returns true if there's anything to draw another frame for, given whether any button in the
    /// row is urgent and whether any of the drag gradient is showing. The urgent pulse has no end of
    /// its own, and the gradient scrolls for as long as it's showing at all, fading out included.
    pub fn animating<C>(
        &self,
        options: &Options<C>,
        urgent: bool,
        gradient_showing: bool,
        now: u64,
    ) -> (r: bool)
        ensures
            r == self.moving(*options, urgent, gradient_showing, now),
    {
        is_running(self.focus.started, options.focus_ms, now) || is_running(
            self.hover.started,
            options.hover_ms,
            now,
        ) || is_running(self.focus_hover.started, options.hover_ms, now) || (options.urgent
            && options.urgent_pulse_ms > 0 && urgent) || self.drag_fade.out || gradient_showing
    }

    /// Returns true if pointing the focus pill at a button takes anything, given whether there's
    /// anything to draw another frame for: it may already be settled in the right place.
    pub fn needs_focus<C>(&self, options: &Options<C>, button: Option<u64>, animating: bool) -> (r: bool)
        ensures
            r == (options.focus && !(self.focus.button == button && !animating)),
            r == is_unsettled(*options, self.focus.button, button, animating),
    {
        let same: bool = match (self.focus.button, button) {
            (Some(a), Some(b)) => a == b,
            (None, None) => true,
            _ => false,
        };
        options.focus && !(same && !animating)
    }

    /// The pills with the focus pill pointed at a button, if it's wanted at all, and what follows from
    /// that: focus arriving at the hovered button takes the hover pill away, and focus leaving a
    /// button the pointer is still over brings it back.
    pub open spec fn refocused<C>(
        self,
        options: Options<C>,
        button: Option<u64>,
        animate: bool,
        previous: Option<R>,
        at: Pointing<P>,
        now: u64,
    ) -> Self {
        if !options.focus {
            self
        } else {
            let focused = self.with_focus(button, animate, previous, now);
            let lifted = if options.hover {
                focused.with_focus_hover(
                    button is Some && at.focus_prelit,
                    at.focus_hover_extent,
                    now,
                )
            } else {
                focused
            };
            match self.hover.button {
                Some(over) if options.hover => lifted.with_hover(
                    over,
                    hover_wanted(options, button, over, at.hover_prelit),
                    at.hover_extent,
                    at.zero,
                    now,
                ),
                _ => lifted,
            }
        }
    }

    /// Points the focus pill at the given button, sliding from where it was, given where that was,
    /// if it was anywhere. Nothing changes if the focus pill isn't wanted.
    pub fn set_focus<C>(
        &mut self,
        options: &Options<C>,
        button: Option<u64>,
        animate: bool,
        previous: Option<R>,
        at: &Pointing<P>,
        now: u64,
    )
        ensures
            *final(self) == old(self).refocused(*options, button, animate, previous, *at, now),
    {
        if !options.focus {
            return;
        }
        let slides: bool = animate && button.is_some() && previous.is_some();
        self.focus = Focus {
            button,
            from: if slides {
                previous
            } else {
                None
            },
            started: if slides {
                Some(now)
            } else {
                None
            },
        };
        self.update_focus_hover(options, at.focus_prelit, at.focus_hover_extent, now);
        if options.hover {
            if let Some(over) = self.hover.button {
                let wanted: bool = self.wants_hover(options, over, at.hover_prelit);
                self.update_hover(over, wanted, at.hover_extent, at.zero, now);
            }
        }
    }

    /// Sets the redraws going, returning true if they weren't already.
    pub fn wake(&mut self) -> (r: bool)
        ensures
            r == !old(self).ticking,
            *final(self) == (Pills { ticking: true, ..*old(self) }),
    {
        let r: bool = !self.ticking;
        self.ticking = true;
        r
    }

    /// Takes in a frame having been drawn, and whether there's anything to draw another for.
    pub fn ticked(&mut self, animating: bool)
        ensures
            *final(self) == (Pills {
                ticking: old(self).ticking && animating,
                ..*old(self)
            }),
    {
        if !animating {
            self.ticking = false;
        }
    }
}

/// A button and the row it's in, as far as placing a pill under it goes.
#[derive(Debug, Clone, Copy)]
pub struct Spot {
    pub visible: bool,
    /// Whether the button is in this row at all.
    pub in_row: bool,
    pub x: i32,
    pub y: i32,
    pub width: i32,
    pub height: i32,
    pub row_x: i32,
    pub row_y: i32,
    pub margin_left: i16,
    pub margin_right: i16,
    pub margin_bottom: i16,
}

/// Where the bottom of a pill goes, in row coordinates.
#[derive(Debug, Clone, Copy)]
pub struct Base {
    pub x: i64,
    pub baseline: i64,
    pub width: i64,
}

/// Where the bottom of a pill goes, as its left end, its baseline and its width, if it has one.
pub open spec fn base_of(spot: Spot) -> Option<(int, int, int)> {
    let width = spot.width - spot.margin_left - spot.margin_right;
    if spot.visible && spot.in_row && width > 0 {
        Some(
            (
                spot.x - spot.row_x + spot.margin_left,
                spot.y - spot.row_y + spot.height - spot.margin_bottom,
                width,
            ),
        )
    } else {
        None
    }
}

/// A pill goes under a button from its left margin to its right one, right above its bottom margin,
/// wherever the row is. There's none under a button that isn't to be seen, isn't in the row, or is
/// nothing but margins.
pub proof fn law_pills_keep_to_the_margins(spot: Spot)
    ensures
        !spot.visible || !spot.in_row ==> base_of(spot) is None,
        spot.visible && spot.in_row ==> (base_of(spot) is Some <==> spot.margin_left
            + spot.margin_right < spot.width),
        base_of(spot) matches Some((x, baseline, width)) ==> {
            &&& spot.row_x + x == spot.x + spot.margin_left
            &&& spot.row_x + x + width == spot.x + spot.width - spot.margin_right
            &&& spot.row_y + baseline + spot.margin_bottom == spot.y + spot.height
        },
{
}

/// Whether the drag gradient belongs under the focused button.
pub open spec fn gradient_wanted<C>(options: Options<C>, focused: Option<u64>, dragged: bool) -> bool {
    options.drag_gradient is Some && focused is Some && dragged
}

/// Whether the focus pill has to turn towards its hovered look or away from it.
pub open spec fn focus_hover_changes<P, R, C>(
    options: Options<C>,
    pills: Pills<P, R>,
    prelit: bool,
) -> bool {
    options.focus && options.hover && pills.focus_hover.out != (pills.focus.button is Some && prelit)
}

/// Whether pointing the focus pill at a button takes anything.
pub open spec fn is_unsettled<C>(
    options: Options<C>,
    focused: Option<u64>,
    button: Option<u64>,
    animating: bool,
) -> bool {
    options.focus && (focused != button || animating)
}

/// The drag gradient shows under a focused button while it's dragged, where there's one to show. The
/// focus pill has its hovered look where the pointer is over its button and both pills are wanted, and
/// it's left alone once it's settled where it belongs.
pub proof fn law_pills_do_only_what_is_wanted<P, R, C>(
    options: Options<C>,
    pills: Pills<P, R>,
    button: Option<u64>,
    flag: bool,
)
    ensures
        options.drag_gradient is None || pills.focus.button is None || !flag ==> !gradient_wanted(
            options,
            pills.focus.button,
            flag,
        ),
        options.drag_gradient is Some && pills.focus.button is Some && flag ==> gradient_wanted(
            options,
            pills.focus.button,
            flag,
        ),
        !options.focus || !options.hover ==> !focus_hover_changes(options, pills, flag),
        options.focus && options.hover && pills.focus.button is Some ==> focus_hover_changes(
            options,
            pills,
            flag,
        ) == (pills.focus_hover.out != flag),
        options.focus && options.hover && pills.focus.button is None ==> focus_hover_changes(
            options,
            pills,
            flag,
        ) == pills.focus_hover.out,
        !options.focus ==> !is_unsettled(options, pills.focus.button, button, flag),
        options.focus && pills.focus.button != button ==> is_unsettled(
            options,
            pills.focus.button,
            button,
            flag,
        ),
        options.focus && pills.focus.button == button ==> is_unsettled(
            options,
            pills.focus.button,
            button,
            flag,
        ) == flag,
{
}

/// Works out where the bottom of a pill goes. A button that has been pulled out of this row has a
/// meaningless allocation, and one without any room between the margins has no pill.
pub fn button_rect(spot: &Spot) -> (r: Option<Base>)
    ensures
        ({
            let width = spot.width - spot.margin_left - spot.margin_right;
            if spot.visible && spot.in_row && width > 0 {
                &&& r is Some
                &&& r->0.x == spot.x - spot.row_x + spot.margin_left
                &&& r->0.baseline == spot.y - spot.row_y + spot.height - spot.margin_bottom
                &&& r->0.width == width
            } else {
                r is None
            }
        }),
        r is Some == base_of(*spot) is Some,
        r is Some ==> (r->0.x as int, r->0.baseline as int, r->0.width as int) == base_of(*spot)->0,
{
    if !spot.visible || !spot.in_row {
        return None;
    }
    let width: i64 = spot.width as i64 - spot.margin_left as i64 - spot.margin_right as i64;
    if width <= 0 {
        return None;
    }
    Some(
        Base {
            x: spot.x as i64 - spot.row_x as i64 + spot.margin_left as i64,
            baseline: spot.y as i64 - spot.row_y as i64 + spot.height as i64
                - spot.margin_bottom as i64,
            width,
        },
    )
}

/// Once the focus pill is under a button, the hover pill isn't heading out under the same one.
pub proof fn law_pills_never_share_a_button<P: Copy, R: Copy, C>(
    pills: Pills<P, R>,
    options: Options<C>,
    button: u64,
    animate: bool,
    previous: Option<R>,
    at: Pointing<P>,
    now: u64,
)
    requires
        options.focus,
        options.hover,
    ensures
        ({
            let after = pills.refocused(options, Some(button), animate, previous, at, now);
            !(after.hover.button == Some(button) && after.hover.out)
        }),
{
}

/// Focus leaving a button that the pointer is still over brings the hover pill back under it.
pub proof fn law_hover_comes_back<P: Copy, R: Copy, C>(
    pills: Pills<P, R>,
    options: Options<C>,
    over: u64,
    button: Option<u64>,
    animate: bool,
    previous: Option<R>,
    at: Pointing<P>,
    now: u64,
)
    requires
        options.focus,
        options.hover,
        pills.hover.button == Some(over),
        button != Some(over),
        at.hover_prelit,
    ensures
        ({
            let after = pills.refocused(options, button, animate, previous, at, now);
            after.hover.button == Some(over) && after.hover.out
        }),
{
}

/// A transition runs from when it's started until its time is up, and not at all where it has none.
pub proof fn law_transitions_run_out(started: u64, ms: u32, now: u64)
    ensures
        !running(None, ms, now),
        !running(Some(started), 0, now),
        ms > 0 ==> (running(Some(started), ms, now) <==> now < started + ms * 1_000_000),
{
}

/// There's another frame to draw while the focus pill slides, while the hover pill or the focus
/// pill's hovered look comes or goes, while an urgent button pulses, and while the drag gradient is
/// coming or showing, and not otherwise.
pub proof fn law_frames_are_drawn_while_anything_moves<P: Copy, R: Copy, C>(
    pills: Pills<P, R>,
    options: Options<C>,
    urgent: bool,
    gradient_showing: bool,
    now: u64,
)
    ensures
        running(pills.focus.started, options.focus_ms, now) ==> pills.moving(
            options,
            urgent,
            gradient_showing,
            now,
        ),
        running(pills.hover.started, options.hover_ms, now) ==> pills.moving(
            options,
            urgent,
            gradient_showing,
            now,
        ),
        running(pills.focus_hover.started, options.hover_ms, now) ==> pills.moving(
            options,
            urgent,
            gradient_showing,
            now,
        ),
        options.urgent && options.urgent_pulse_ms > 0 && urgent ==> pills.moving(
            options,
            urgent,
            gradient_showing,
            now,
        ),
        pills.drag_fade.out || gradient_showing ==> pills.moving(
            options,
            urgent,
            gradient_showing,
            now,
        ),
        pills.moving(options, urgent, gradient_showing, now) ==> {
            ||| running(pills.focus.started, options.focus_ms, now)
            ||| running(pills.hover.started, options.hover_ms, now)
            ||| running(pills.focus_hover.started, options.hover_ms, now)
            ||| options.urgent && options.urgent_pulse_ms > 0 && urgent
            ||| pills.drag_fade.out
            ||| gradient_showing
        },
{
}

/// A fade that changes direction goes on from how far it's got, starting now. One that doesn't is
/// left as it is, and so are the other pills either way.
pub proof fn law_fades_turn_round<P, R>(pills: Pills<P, R>, out: bool, extent: P, now: u64)
    ensures
        ({
            let after = pills.with_drag(out, extent, now);
            &&& after.drag_fade.out == out
            &&& pills.drag_fade.out == out ==> after == pills
            &&& pills.drag_fade.out != out ==> after.drag_fade.from == extent
                && after.drag_fade.started == Some(now)
            &&& after.focus == pills.focus && after.focus_hover == pills.focus_hover && after.hover
                == pills.hover && after.ticking == pills.ticking
        }),
        ({
            let after = pills.with_focus_hover(out, extent, now);
            &&& after.focus_hover.out == out
            &&& pills.focus_hover.out == out ==> after == pills
            &&& pills.focus_hover.out != out ==> after.focus_hover.from == extent
                && after.focus_hover.started == Some(now)
            &&& after.focus == pills.focus && after.drag_fade == pills.drag_fade && after.hover
                == pills.hover && after.ticking == pills.ticking
        }),
{
}

/// The hover pill grows under a button the pointer comes onto, from nothing where it was elsewhere
/// and from how far out it was where it wasn't. It retracts only under the button it's out under.
pub proof fn law_hover_follows_the_pointer<P, R>(
    pills: Pills<P, R>,
    button: u64,
    extent: P,
    zero: P,
    now: u64,
)
    ensures
        ({
            let after = pills.with_hover(button, true, extent, zero, now);
            &&& after.hover.button == Some(button)
            &&& after.hover.out
            &&& pills.hover.button == Some(button) && pills.hover.out ==> after == pills
                && !pills.hover_changes(button, true)
            &&& !(pills.hover.button == Some(button) && pills.hover.out) ==> after.hover.started
                == Some(now) && pills.hover_changes(button, true)
            &&& pills.hover.button == Some(button) && !pills.hover.out ==> after.hover.from == extent
            &&& pills.hover.button != Some(button) ==> after.hover.from == zero
            &&& after.focus == pills.focus && after.focus_hover == pills.focus_hover
                && after.drag_fade == pills.drag_fade && after.ticking == pills.ticking
        }),
        ({
            let after = pills.with_hover(button, false, extent, zero, now);
            &&& pills.hover.button == Some(button) && pills.hover.out ==> {
                &&& after.hover.button == Some(button)
                &&& !after.hover.out
                &&& after.hover.from == extent
                &&& after.hover.started == Some(now)
                &&& pills.hover_changes(button, false)
            }
            &&& !(pills.hover.button == Some(button) && pills.hover.out) ==> after == pills
                && !pills.hover_changes(button, false)
            &&& after.focus == pills.focus && after.focus_hover == pills.focus_hover
                && after.drag_fade == pills.drag_fade && after.ticking == pills.ticking
        }),
{
}

/// Pointing the focus pill at a button puts it there, sliding from where it was if it's to be
/// animated and was anywhere, and has it heading for its hovered look just if the pointer is over that
/// button. A hover pill that's under another button is out just if the pointer is over that one.
/// Nothing happens where the focus pill isn't wanted.
pub proof fn law_focus_goes_where_it_is_pointed<P: Copy, R: Copy, C>(
    pills: Pills<P, R>,
    options: Options<C>,
    button: Option<u64>,
    animate: bool,
    previous: Option<R>,
    at: Pointing<P>,
    now: u64,
)
    ensures
        ({
            let after = pills.refocused(options, button, animate, previous, at, now);
            let slides = animate && button is Some && previous is Some;
            &&& !options.focus ==> after == pills
            &&& options.focus ==> {
                &&& after.focus.button == button
                &&& slides ==> after.focus.from == previous && after.focus.started == Some(now)
                &&& !slides ==> after.focus.from is None && after.focus.started is None
                &&& options.hover ==> after.focus_hover.out == (button is Some && at.focus_prelit)
                &&& !options.hover ==> after.focus_hover == pills.focus_hover && after.hover
                    == pills.hover
                &&& after.hover.button == pills.hover.button
                &&& options.hover && pills.hover.button is Some && pills.hover.button != button
                    ==> after.hover.out == at.hover_prelit
                &&& after.drag_fade == pills.drag_fade && after.ticking == pills.ticking
            }
        }),
{
}

/// A hover pill belongs under a button just if the pointer is over it and the focus pill, where
/// that's wanted, isn't under it.
pub proof fn law_hover_gives_way_to_the_focus<C>(
    options: Options<C>,
    focused: Option<u64>,
    button: u64,
    prelit: bool,
)
    ensures
        !prelit ==> !hover_wanted(options, focused, button, prelit),
        prelit && options.focus && focused == Some(button) ==> !hover_wanted(
            options,
            focused,
            button,
            prelit,
        ),
        prelit && (!options.focus || focused != Some(button)) ==> hover_wanted(
            options,
            focused,
            button,
            prelit,
        ),
{
}

/// The pills are as the configuration has them: the focus pill's hovered height is two more than its
/// usual one unless it's given, and its hovered look and the drag gradient are mixed in the spaces
/// that are named, as far as they're known.
pub proof fn law_options_follow_the_configuration<C>(
    options: Options<C>,
    config: Config,
    from: Option<C>,
    to: Option<C>,
)
    requires
        options.follows(config, from, to),
    ensures
        options.focus == config.focus_indicator,
        options.focus_height == config.focus_indicator_height,
        options.focus_ms == config.focus_indicator_ms,
        config.focus_indicator_hover_height is Some ==> options.focus_hover_height
            == config.focus_indicator_hover_height->0,
        config.focus_indicator_hover_height is None ==> options.focus_hover_height
            == config.focus_indicator_height + 2,
        config.focus_indicator_hover_in is None ==> options.focus_hover_space == Space::Srgb,
        options.hover == config.hover_indicator,
        options.hover_height == config.hover_indicator_height,
        options.hover_ms == config.hover_indicator_ms,
        options.urgent == config.urgent_indicator,
        options.urgent_height == config.urgent_indicator_height,
        options.urgent_pulse_ms == config.urgent_indicator_pulse_ms,
        from is None || to is None || config.drag_indicator_gradient is None
            ==> options.drag_gradient is None,
        options.drag_gradient matches Some(gradient) ==> {
            let written = config.drag_indicator_gradient->0;
            &&& from == Some(gradient.from)
            &&& to == Some(gradient.to)
            &&& gradient.cycle_ms == written.cycle_ms
            &&& gradient.fade_ms == written.fade_ms
        },
{
}

} // verus!
