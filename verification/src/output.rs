//! Which output the bar is on, and so which windows and workspaces it shows.

use vstd::prelude::*;

use crate::niri::{Logical, Output};
use crate::text::{same_text, text_of};

verus! {

/// A filter to check if we should include a window button.
#[derive(Debug, Clone, PartialEq, Eq)]
pub enum Filter {
    ShowAll,
    Only(String),
}

/// What a [`Filter`] says.
#[verifier::ext_equal]
pub enum FilterView {
    ShowAll,
    Only(Seq<char>),
}

impl FilterView {
    /// Whether toplevels on an output are shown.
    pub open spec fn shows(self, output: Seq<char>) -> bool {
        match self {
            FilterView::ShowAll => true,
            FilterView::Only(only) => only == output,
        }
    }
}

impl View for Filter {
    type V = FilterView;

    open spec fn view(&self) -> FilterView {
        match self {
            Filter::ShowAll => FilterView::ShowAll,
            Filter::Only(only) => FilterView::Only(only@),
        }
    }
}

impl Filter {
    /// Checks if toplevels on this output should be shown.
    pub fn should_show(&self, output: &str) -> (r: bool)
        ensures
            r == self@.shows(output@),
    {
        match self {
            Filter::ShowAll => true,
            Filter::Only(only) => same_text(only.as_str(), output),
        }
    }

    /// Returns true if the filters are the same.
    pub fn same(&self, other: &Filter) -> (r: bool)
        ensures
            r == (self@ == other@),
    {
        match (self, other) {
            (Filter::ShowAll, Filter::ShowAll) => true,
            (Filter::Only(a), Filter::Only(b)) => same_text(a.as_str(), b.as_str()),
            _ => false,
        }
    }
}

/// A monitor as Gdk sees it.
#[derive(Debug)]
pub struct Monitor {
    pub x: i32,
    pub y: i32,
    pub width: i32,
    pub height: i32,
    pub scale_factor: i32,
    pub model: Option<String>,
    pub manufacturer: Option<String>,
}

/// Where a monitor or output is, in pixels.
#[derive(Debug, Clone, Copy)]
pub struct Geometry {
    pub width: i64,
    pub height: i64,
    pub x: i64,
    pub y: i64,
}

/// Whether a length is within three percent of another.
pub open spec fn close_to(a: int, b: int) -> bool {
    let apart = if a < b {
        b - a
    } else {
        a - b
    };
    let size = if b < 0 {
        -b
    } else {
        b
    };
    100 * apart < 3 * size
}

/// Returns true if a length is within three percent of another.
fn is_close_to(a: i64, b: i64) -> (r: bool)
    ensures
        r == close_to(a as int, b as int),
{
    let a: i128 = a as i128;
    let b: i128 = b as i128;
    let apart: i128 = if a < b {
        b - a
    } else {
        a - b
    };
    let size: i128 = if b < 0 {
        -b
    } else {
        b
    };
    100 * apart < 3 * size
}

/// Multiplies a length by a scale.
fn scaled(length: i32, scale: i32) -> (r: i64)
    ensures
        r == length * scale,
{
    proof {
        assert(-0x8000_0000 * 0x8000_0000 <= length * scale <= 0x8000_0000 * 0x8000_0000)
            by (nonlinear_arith)
            requires
                -0x8000_0000 <= length <= 0x7fff_ffff,
                -0x8000_0000 <= scale <= 0x7fff_ffff,
        ;
    }
    (length as i64) * (scale as i64)
}

impl Geometry {
    /// Where Gdk says a monitor is.
    pub open spec fn of_monitor(monitor: Monitor) -> (int, int, int, int) {
        (
            monitor.width * monitor.scale_factor,
            monitor.height * monitor.scale_factor,
            monitor.x * monitor.scale_factor,
            monitor.y * monitor.scale_factor,
        )
    }

    /// Where Niri says an output is.
    pub open spec fn of_output(logical: Logical) -> (int, int, int, int) {
        (
            (logical.width as i32) * logical.scale,
            (logical.height as i32) * logical.scale,
            logical.x * logical.scale,
            logical.y * logical.scale,
        )
    }

    /// The geometry as its width, height, x and y.
    pub open spec fn parts(self) -> (int, int, int, int) {
        (self.width as int, self.height as int, self.x as int, self.y as int)
    }

    pub fn from_gdk_monitor(monitor: &Monitor) -> (r: Self)
        ensures
            r.parts() == Geometry::of_monitor(*monitor),
    {
        let scale: i32 = monitor.scale_factor;
        Geometry {
            width: scaled(monitor.width, scale),
            height: scaled(monitor.height, scale),
            x: scaled(monitor.x, scale),
            y: scaled(monitor.y, scale),
        }
    }

    /// Applies the same general calculation as Gdk 3, where any fractional component of the scale
    /// is rounded up.
    pub fn from_niri_output(logical: &Logical) -> (r: Self)
        ensures
            r.parts() == Geometry::of_output(*logical),
    {
        let scale: i32 = logical.scale;
        let width: i32 = #[verifier::truncate]
        (logical.width as i32);
        let height: i32 = #[verifier::truncate]
        (logical.height as i32);
        Geometry {
            width: scaled(width, scale),
            height: scaled(height, scale),
            x: scaled(logical.x, scale),
            y: scaled(logical.y, scale),
        }
    }

    /// Whether a geometry is close enough to another: x and y should be the same regardless, but
    /// Gdk is apparently special when it comes to calculating the width and height of the monitor.
    pub open spec fn matches(a: (int, int, int, int), b: (int, int, int, int)) -> bool {
        close_to(a.0, b.0) && close_to(a.1, b.1) && a.2 == b.2 && a.3 == b.3
    }

    /// Returns true if this geometry is close enough to another.
    pub fn same_as(&self, other: &Geometry) -> (r: bool)
        ensures
            r == Geometry::matches(self.parts(), other.parts()),
    {
        is_close_to(self.width, other.width) && is_close_to(self.height, other.height) && self.x
            == other.x && self.y == other.y
    }
}

/// A simple matcher to try to figure out if a Gdk 3 monitor and a Niri output are referring to the
/// same output.
#[derive(Debug, Clone, Copy, PartialEq, Eq, Structural)]
pub struct Matcher {
    pub geometry: bool,
    pub model: bool,
    pub manufacturer: bool,
}

/// Whether Gdk and Niri agree on a name, where Gdk not knowing it goes with Niri having none.
pub open spec fn agrees(gdk: Option<Seq<char>>, niri: Seq<char>) -> bool {
    match gdk {
        Some(name) => name == niri,
        None => niri.len() == 0,
    }
}

/// Returns true if Gdk and Niri agree on a name.
fn names_agree(gdk: &Option<String>, niri: &String) -> (r: bool)
    ensures
        r == agrees(text_of(*gdk), niri@),
{
    match gdk {
        Some(name) => same_text(name.as_str(), niri.as_str()),
        None => {
            proof {
                reveal_strlit("");
                assert(niri@.len() == 0 ==> niri@ =~= ""@);
            }
            same_text(niri.as_str(), "")
        },
    }
}

impl Matcher {
    /// What of an output lines up with a monitor.
    pub open spec fn of(monitor: Monitor, output: Output) -> Matcher {
        match output.logical {
            Some(logical) => Matcher {
                geometry: Geometry::matches(
                    Geometry::of_monitor(monitor),
                    Geometry::of_output(logical),
                ),
                model: agrees(text_of(monitor.model), output.model@),
                manufacturer: agrees(text_of(monitor.manufacturer), output.make@),
            },
            None => Matcher { geometry: false, model: false, manufacturer: false },
        }
    }

    pub fn new(monitor: &Monitor, output: &Output) -> (r: Self)
        ensures
            r == Matcher::of(*monitor, *output),
    {
        match &output.logical {
            Some(logical) => {
                let gdk = Geometry::from_gdk_monitor(monitor);
                let niri = Geometry::from_niri_output(logical);
                Matcher {
                    geometry: gdk.same_as(&niri),
                    model: names_agree(&monitor.model, &output.model),
                    manufacturer: names_agree(&monitor.manufacturer, &output.make),
                }
            },
            None => Matcher::empty(),
        }
    }

    /// Nothing lining up.
    pub fn empty() -> (r: Self)
        ensures
            r == (Matcher { geometry: false, model: false, manufacturer: false }),
    {
        Matcher { geometry: false, model: false, manufacturer: false }
    }

    /// Everything lining up.
    pub fn all() -> (r: Self)
        ensures
            r == (Matcher { geometry: true, model: true, manufacturer: true }),
    {
        Matcher { geometry: true, model: true, manufacturer: true }
    }
}

/// Whether everything of an output lines up with a monitor.
pub open spec fn fits(monitor: Monitor, output: Output) -> bool {
    Matcher::of(monitor, output) == (Matcher { geometry: true, model: true, manufacturer: true })
}

/// The name of the first output that fits a monitor.
pub open spec fn first_fit(monitor: Monitor, outputs: Seq<Output>) -> Option<Seq<char>>
    decreases outputs.len(),
{
    if outputs.len() == 0 {
        None
    } else if fits(monitor, outputs[0]) {
        Some(outputs[0].name@)
    } else {
        first_fit(monitor, outputs.skip(1))
    }
}

/// The filter for the bar, or nothing if its output can't be determined.
pub open spec fn filter_for(
    show_all: bool,
    outputs: Option<Seq<Output>>,
    monitor: Option<Monitor>,
) -> Option<FilterView> {
    if show_all {
        Some(FilterView::ShowAll)
    } else {
        match (outputs, monitor) {
            (Some(outputs), Some(monitor)) => match first_fit(monitor, outputs) {
                Some(name) => Some(FilterView::Only(name)),
                // If there's only one output, then this bar must be on it, even if Gdk's idea of
                // the monitor doesn't line up with Niri's.
                None => if outputs.len() == 1 {
                    Some(FilterView::Only(outputs[0].name@))
                } else {
                    None
                },
            },
            _ => None,
        }
    }
}

/// What a filter that may not be there says.
pub open spec fn maybe_filter(filter: Option<Filter>) -> Option<FilterView> {
    match filter {
        Some(filter) => Some(filter@),
        None => None,
    }
}

/// Finds the name of the first output that fits a monitor.
fn find_fit(monitor: &Monitor, outputs: &Vec<Output>) -> (r: Option<String>)
    ensures
        text_of(r) == first_fit(*monitor, outputs@),
{
    let mut i: usize = 0;
    proof {
        assert(outputs@.skip(0) =~= outputs@);
    }
    while i < outputs.len()
        invariant
            i <= outputs@.len(),
            first_fit(*monitor, outputs@) == first_fit(*monitor, outputs@.skip(i as int)),
        decreases outputs@.len() - i,
    {
        proof {
            assert(outputs@.skip(i as int)[0] == outputs@[i as int]);
            assert(outputs@.skip(i as int).skip(1) =~= outputs@.skip(i + 1));
        }
        if Matcher::new(monitor, &outputs[i]) == Matcher::all() {
            return Some(outputs[i].name.clone());
        }
        i += 1;
    }
    None
}

/// Works out which output a bar is on, given the outputs that Niri reports (in the order they're
/// walked in) and the monitor that Gdk reports for the bar, as far as either could be had. Returns
/// `None` if it can't be determined right now.
pub fn build(
    show_all: bool,
    outputs: Option<&Vec<Output>>,
    monitor: Option<&Monitor>,
) -> (r: Option<Filter>)
    ensures
        maybe_filter(r) == filter_for(
            show_all,
            match outputs {
                Some(outputs) => Some(outputs@),
                None => None,
            },
            match monitor {
                Some(monitor) => Some(*monitor),
                None => None,
            },
        ),
{
    if show_all {
        return Some(Filter::ShowAll);
    }
    match (outputs, monitor) {
        (Some(outputs), Some(monitor)) => {
            if let Some(name) = find_fit(monitor, outputs) {
                return Some(Filter::Only(name));
            }
            if outputs.len() == 1 {
                return Some(Filter::Only(outputs[0].name.clone()));
            }
            None
        },
        _ => None,
    }
}

/// If only one output fits, it's the one, whatever order the outputs are walked in.
pub proof fn law_only_fit_wins(monitor: Monitor, outputs: Seq<Output>, i: int)
    requires
        0 <= i < outputs.len(),
        fits(monitor, outputs[i]),
        forall|j: int|
            0 <= j < outputs.len() && fits(monitor, #[trigger] outputs[j]) ==> outputs[j].name@
                == outputs[i].name@,
    ensures
        filter_for(false, Some(outputs), Some(monitor)) == Some(FilterView::Only(outputs[i].name@)),
    decreases outputs.len(),
{
    if !fits(monitor, outputs[0]) {
        let rest = outputs.skip(1);
        assert(rest[i - 1] == outputs[i]);
        assert forall|j: int| 0 <= j < rest.len() && fits(monitor, #[trigger] rest[j]) implies rest[j].name@
            == rest[i - 1].name@ by {
            assert(rest[j] == outputs[j + 1]);
        }
        law_only_fit_wins(monitor, rest, i - 1);
        assert(first_fit(monitor, rest) is Some) by {
            lemma_some_fit(monitor, rest, i - 1);
        }
    }
}

proof fn lemma_some_fit(monitor: Monitor, outputs: Seq<Output>, i: int)
    requires
        0 <= i < outputs.len(),
        fits(monitor, outputs[i]),
    ensures
        first_fit(monitor, outputs) is Some,
    decreases outputs.len(),
{
    if !fits(monitor, outputs[0]) {
        assert(outputs.skip(1)[i - 1] == outputs[i]);
        lemma_some_fit(monitor, outputs.skip(1), i - 1);
    }
}

/// A bar on a single output is on that output, whatever Gdk makes of it.
pub proof fn law_single_output(monitor: Monitor, output: Output)
    ensures
        filter_for(false, Some(seq![output]), Some(monitor)) == Some(FilterView::Only(output.name@)),
{
    assert(first_fit(monitor, seq![output].skip(1)) is None);
}

/// How long to wait, in nanoseconds, before retrying the output match after an attempt that
/// couldn't determine which output the bar is on.
pub const OUTPUT_FILTER_RETRY: u64 = 2_000_000_000;

/// How long after startup, in nanoseconds, to re-check the output match. Gdk may not yet know
/// which monitor the bar is on when the module is first initialised, so an early match can be wrong.
pub const OUTPUT_FILTER_RECHECK: u64 = 2_000_000_000;

/// The filter once it's been worked out anew, as far as it could be.
pub open spec fn kept_filter(before: FilterView, built: Option<FilterView>) -> FilterView {
    match built {
        Some(filter) => filter,
        None => before,
    }
}

/// Works out, and keeps working out, which Niri output a bar is sitting on.
///
/// Outputs come and go, and Gdk doesn't necessarily know which monitor a bar is on the first time
/// we ask, so this re-checks whenever the outputs might have changed and holds on to the last good
/// answer in the meantime. Times are in nanoseconds from some fixed point.
#[derive(Debug)]
pub struct Tracker {
    filter: Filter,
    matched: bool,
    last_attempt: Option<u64>,
}

impl Tracker {
    /// The filter as it currently stands.
    pub closed spec fn current(self) -> FilterView {
        self.filter@
    }

    /// Whether the last attempt worked out which output the bar is on.
    pub closed spec fn has_matched(self) -> bool {
        self.matched
    }

    /// When the last attempt was.
    pub closed spec fn attempted(self) -> Option<u64> {
        self.last_attempt
    }

    pub fn new() -> (r: Self)
        ensures
            r.current() == FilterView::ShowAll,
            !r.has_matched(),
            r.attempted() is None,
    {
        Tracker { filter: Filter::ShowAll, matched: false, last_attempt: None }
    }

    /// The filter as it currently stands.
    pub fn filter(&self) -> (r: &Filter)
        ensures
            r@ == self.current(),
    {
        &self.filter
    }

    /// Takes in what came of re-evaluating the output filter, keeping the previous filter if the
    /// output can't currently be determined. Returns true if the filter changed.
    pub fn refresh(&mut self, now: u64, built: Option<Filter>) -> (r: bool)
        ensures
            final(self).attempted() == Some(now),
            final(self).has_matched() == (built is Some),
            final(self).current() == match built {
                Some(filter) => filter@,
                None => old(self).current(),
            },
            r == (final(self).current() != old(self).current()),
            final(self).current() == kept_filter(old(self).current(), maybe_filter(built)),
    {
        self.last_attempt = Some(now);
        match built {
            Some(filter) => {
                let changed: bool = !self.filter.same(&filter);
                self.filter = filter;
                self.matched = true;
                changed
            },
            None => {
                self.matched = false;
                false
            },
        }
    }

    /// Whether it's time to try the output match again: the last attempt failed, and enough time
    /// has passed.
    pub open spec fn retry_due(self, now: u64) -> bool {
        !self.has_matched() && match self.attempted() {
            Some(attempt) => now - attempt >= OUTPUT_FILTER_RETRY,
            None => true,
        }
    }

    /// Returns true if the output match should be retried.
    pub fn maybe_retry(&self, now: u64) -> (r: bool)
        ensures
            r == self.retry_due(now),
    {
        if self.matched {
            return false;
        }
        match self.last_attempt {
            Some(attempt) => now >= attempt && now - attempt >= OUTPUT_FILTER_RETRY,
            None => true,
        }
    }
}

/// A filter for every output shows them all, and a filter for one shows that one and no other.
pub proof fn law_filters_show_their_output(only: Seq<char>, output: Seq<char>)
    ensures
        FilterView::ShowAll.shows(output),
        FilterView::Only(only).shows(output) <==> only == output,
{
}

/// Whether a length is off by less than three percent of what it should be.
pub open spec fn off_by_little(length: int, should_be: int) -> bool {
    &&& 100 * (length - should_be) < 3 * should_be || 100 * (length - should_be) < -3 * should_be
    &&& 100 * (should_be - length) < 3 * should_be || 100 * (should_be - length) < -3 * should_be
}

/// An output fits a monitor just if it's on, they're in the very same place, with widths and heights
/// that are less than three percent off, all in pixels, and they're of the same make and model, where
/// a monitor that doesn't say goes with an output that has none.
pub proof fn law_fits_go_by_place_and_name(monitor: Monitor, output: Output)
    ensures
        fits(monitor, output) == match output.logical {
            Some(logical) => {
                let (scale, by) = (logical.scale, monitor.scale_factor);
                &&& off_by_little(monitor.width * by, (logical.width as i32) * scale)
                &&& off_by_little(monitor.height * by, (logical.height as i32) * scale)
                &&& monitor.x * by == logical.x * scale
                &&& monitor.y * by == logical.y * scale
                &&& match monitor.model {
                    Some(model) => model@ == output.model@,
                    None => output.model@.len() == 0,
                }
                &&& match monitor.manufacturer {
                    Some(make) => make@ == output.make@,
                    None => output.make@.len() == 0,
                }
            },
            None => false,
        },
{
}

/// A bar that shows every output does so whatever is known of it. One that doesn't is on the first
/// output that fits its monitor, and where none does it can't be told, unless there's only the one
/// output.
pub proof fn law_first_fit_wins(
    outputs: Option<Seq<Output>>,
    monitor: Option<Monitor>,
    i: int,
)
    ensures
        filter_for(true, outputs, monitor) == Some(FilterView::ShowAll),
        outputs is None || monitor is None ==> filter_for(false, outputs, monitor) is None,
        outputs is Some && monitor is Some ==> {
            let all = outputs->0;
            &&& 0 <= i < all.len() && fits(monitor->0, all[i]) && (forall|j: int|
                0 <= j < i ==> !fits(monitor->0, #[trigger] all[j])) ==> filter_for(
                false,
                outputs,
                monitor,
            ) == Some(FilterView::Only(all[i].name@))
            &&& (forall|j: int| 0 <= j < all.len() ==> !fits(monitor->0, #[trigger] all[j]))
                && all.len() != 1 ==> filter_for(false, outputs, monitor) is None
        },
{
    if outputs is Some && monitor is Some {
        let all = outputs->0;
        if 0 <= i < all.len() && fits(monitor->0, all[i]) && (forall|j: int|
            0 <= j < i ==> !fits(monitor->0, #[trigger] all[j])) {
            lemma_first_fit(monitor->0, all, i);
        }
        if forall|j: int| 0 <= j < all.len() ==> !fits(monitor->0, #[trigger] all[j]) {
            lemma_no_fit(monitor->0, all);
        }
    }
}

proof fn lemma_first_fit(monitor: Monitor, outputs: Seq<Output>, i: int)
    requires
        0 <= i < outputs.len(),
        fits(monitor, outputs[i]),
        forall|j: int| 0 <= j < i ==> !fits(monitor, #[trigger] outputs[j]),
    ensures
        first_fit(monitor, outputs) == Some(outputs[i].name@),
    decreases outputs.len(),
{
    if i > 0 {
        let rest = outputs.skip(1);
        assert forall|j: int| 0 <= j < i - 1 implies !fits(monitor, #[trigger] rest[j]) by {
            assert(rest[j] == outputs[j + 1]);
        }
        lemma_first_fit(monitor, rest, i - 1);
        assert(!fits(monitor, outputs[0]));
    }
}

proof fn lemma_no_fit(monitor: Monitor, outputs: Seq<Output>)
    requires
        forall|j: int| 0 <= j < outputs.len() ==> !fits(monitor, #[trigger] outputs[j]),
    ensures
        first_fit(monitor, outputs) is None,
    decreases outputs.len(),
{
    if outputs.len() > 0 {
        let rest = outputs.skip(1);
        assert forall|j: int| 0 <= j < rest.len() implies !fits(monitor, #[trigger] rest[j]) by {
            assert(rest[j] == outputs[j + 1]);
        }
        lemma_no_fit(monitor, rest);
    }
}

/// The output match is tried again only while it hasn't come out, at once where it's never been
/// tried, and otherwise two seconds after the last try at the earliest.
pub proof fn law_failed_matches_are_retried(tracker: Tracker, now: u64)
    ensures
        tracker.has_matched() ==> !tracker.retry_due(now),
        !tracker.has_matched() && tracker.attempted() is None ==> tracker.retry_due(now),
        !tracker.has_matched() && tracker.attempted() is Some ==> (tracker.retry_due(now) <==> now
            >= tracker.attempted()->0 + 2_000_000_000),
{
}

/// A filter that's been worked out anew takes the place of the one before, and one that couldn't be
/// leaves it as it is, to be tried again.
pub proof fn law_last_good_filter_stays(before: FilterView, built: Option<FilterView>)
    ensures
        built is Some ==> kept_filter(before, built) == built->0,
        built is None ==> kept_filter(before, built) == before,
{
}

/// A filter is seen as what it is: one for every output, or one for the output it names.
pub proof fn law_filters_are_seen_as_they_are(filter: Filter)
    ensures
        match filter {
            Filter::ShowAll => filter@ == FilterView::ShowAll,
            Filter::Only(only) => filter@ == FilterView::Only(only@),
        },
{
}

} // verus!
