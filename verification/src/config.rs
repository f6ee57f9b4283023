//! The taskbar configuration.

use vstd::hash_map::StringHashMap;
use vstd::prelude::*;

use crate::gradient::{space_name, space_of, Config as GradientConfig, Gradient, Space};
use crate::ids::lemma_push_contains;
use crate::pattern::{regex_matches, Pattern};
use crate::text::{slice_texts, words};

verus! {

/// The taskbar configuration.
pub struct Config {
    /// The rules for each app ID.
    pub apps: StringHashMap<Vec<AppConfig>>,
    pub notifications: Notifications,
    pub mode: Mode,
    pub show_all_outputs: bool,
    pub active_workspace_only: bool,
    pub workspace_animation_ms: u32,
    pub focus_indicator: bool,
    pub focus_indicator_ms: u32,
    pub focus_indicator_height: u32,
    pub focus_indicator_hover_height: Option<u32>,
    pub focus_indicator_hover_in: Option<String>,
    pub hover_indicator: bool,
    pub hover_indicator_ms: u32,
    pub hover_indicator_height: u32,
    pub urgent_indicator: bool,
    pub urgent_indicator_height: u32,
    pub urgent_indicator_pulse_ms: u32,
    pub scroll_windows: bool,
    pub scroll_scope: ScrollScope,
    pub scroll_wrap: bool,
    pub scroll_reverse: bool,
    pub drag_reorder: bool,
    pub drag_reorder_slide_ms: u32,
    pub drag_indicator_gradient: Option<GradientConfig>,
    pub column_grouping: ColumnGrouping,
}

/// Which of the two widgets this module instance should render.
#[derive(Debug, Clone, Copy, PartialEq, Eq, Structural)]
pub enum Mode {
    Taskbar,
    Workspaces,
}

impl Default for Mode {
    fn default() -> (r: Self)
        ensures
            r == Mode::Taskbar,
    {
        Mode::Taskbar
    }
}

/// How windows that share a Niri column are shown.
#[derive(Debug, Clone, Copy, PartialEq, Eq, Structural)]
pub enum ColumnGrouping {
    /// A button for every window, as though they had columns of their own.
    Separate,
    /// One button for the column, which opens up to show the rest while it's hovered.
    Collapse,
}

impl Default for ColumnGrouping {
    fn default() -> (r: Self)
        ensures
            r == ColumnGrouping::Separate,
    {
        ColumnGrouping::Separate
    }
}

/// Where scrolling is captured.
#[derive(Debug, Clone, Copy, PartialEq, Eq, Structural)]
pub enum ScrollScope {
    Taskbar,
    Bar,
}

impl Default for ScrollScope {
    fn default() -> (r: Self)
        ensures
            r == ScrollScope::Bar,
    {
        ScrollScope::Bar
    }
}

/// How notifications are matched to windows.
pub struct Notifications {
    pub enabled: bool,
    pub map_app_ids: StringHashMap<String>,
    pub use_desktop_entry: bool,
    pub use_fuzzy_matching: bool,
}

impl Default for Notifications {
    fn default() -> (r: Self)
        ensures
            r.enabled,
            r.map_app_ids@ == Map::<Seq<char>, String>::empty(),
            r.use_desktop_entry,
            !r.use_fuzzy_matching,
    {
        Notifications {
            enabled: true,
            map_app_ids: StringHashMap::new(),
            use_desktop_entry: true,
            use_fuzzy_matching: false,
        }
    }
}

impl Notifications {
    /// Notifications switched on or off, with everything else as it is unless the configuration says
    /// otherwise.
    pub fn switched(enabled: bool) -> (r: Self)
        ensures
            r.enabled == enabled,
            r.map_app_ids@ == Map::<Seq<char>, String>::empty(),
            r.use_desktop_entry,
            !r.use_fuzzy_matching,
    {
        Notifications { enabled, ..Notifications::default() }
    }
}

impl Default for Config {
    /// A configuration with everything off, and no thickness or duration to anything.
    fn default() -> (r: Self)
        ensures
            r.apps@ == Map::<Seq<char>, Vec<AppConfig>>::empty(),
            r.notifications.enabled,
            r.notifications.map_app_ids@ == Map::<Seq<char>, String>::empty(),
            r.notifications.use_desktop_entry,
            !r.notifications.use_fuzzy_matching,
            r.mode == Mode::Taskbar,
            !r.show_all_outputs,
            !r.active_workspace_only,
            r.workspace_animation_ms == 0,
            !r.focus_indicator,
            r.focus_indicator_ms == 0,
            r.focus_indicator_height == 0,
            r.focus_indicator_hover_height is None,
            r.focus_indicator_hover_in is None,
            !r.hover_indicator,
            r.hover_indicator_ms == 0,
            r.hover_indicator_height == 0,
            !r.urgent_indicator,
            r.urgent_indicator_height == 0,
            r.urgent_indicator_pulse_ms == 0,
            !r.scroll_windows,
            r.scroll_scope == ScrollScope::Bar,
            !r.scroll_wrap,
            !r.scroll_reverse,
            !r.drag_reorder,
            r.drag_reorder_slide_ms == 0,
            r.drag_indicator_gradient is None,
            r.column_grouping == ColumnGrouping::Separate,
    {
        Config {
            apps: StringHashMap::new(),
            notifications: Notifications::default(),
            mode: Mode::default(),
            show_all_outputs: false,
            active_workspace_only: false,
            workspace_animation_ms: 0,
            focus_indicator: false,
            focus_indicator_ms: 0,
            focus_indicator_height: 0,
            focus_indicator_hover_height: None,
            focus_indicator_hover_in: None,
            hover_indicator: false,
            hover_indicator_ms: 0,
            hover_indicator_height: 0,
            urgent_indicator: false,
            urgent_indicator_height: 0,
            urgent_indicator_pulse_ms: 0,
            scroll_windows: false,
            scroll_scope: ScrollScope::default(),
            scroll_wrap: false,
            scroll_reverse: false,
            drag_reorder: false,
            drag_reorder_slide_ms: 0,
            drag_indicator_gradient: None,
            column_grouping: ColumnGrouping::default(),
        }
    }
}

/// A rule for an application: the class its button gets while its title matches the pattern.
#[derive(Debug)]
pub struct AppConfig {
    pub pattern: Pattern,
    pub class: String,
}

/// The class of each rule, in order.
pub open spec fn rule_classes(rules: Seq<AppConfig>) -> Seq<Seq<char>> {
    rules.map_values(|rule: AppConfig| rule.class@)
}

/// The rules whose patterns match a title, in order.
pub open spec fn matching_rules(rules: Seq<AppConfig>, title: Seq<char>) -> Seq<AppConfig> {
    rules.filter(|rule: AppConfig| regex_matches(rule.pattern@, title))
}

/// The classes of the rules that matched, in order.
pub open spec fn chosen_classes(rules: Seq<AppConfig>, hits: Seq<bool>) -> Seq<Seq<char>>
    decreases rules.len(),
{
    if rules.len() == 0 {
        Seq::empty()
    } else {
        let rest = chosen_classes(rules.drop_last(), hits.take(rules.len() - 1));
        if hits[rules.len() - 1] {
            rest.push(rules.last().class@)
        } else {
            rest
        }
    }
}

/// Returns the classes of the rules that matched, given which of them did.
pub fn matching_classes<'a>(rules: &'a Vec<AppConfig>, hits: &Vec<bool>) -> (r: Vec<&'a str>)
    requires
        hits@.len() == rules@.len(),
    ensures
        slice_texts(r@) == chosen_classes(rules@, hits@),
{
    let mut r: Vec<&str> = Vec::new();
    let mut i: usize = 0;
    proof {
        assert(slice_texts(r@) =~= chosen_classes(rules@.take(0), hits@.take(0)));
    }
    while i < rules.len()
        invariant
            i <= rules@.len(),
            hits@.len() == rules@.len(),
            slice_texts(r@) == chosen_classes(rules@.take(i as int), hits@.take(i as int)),
        decreases rules@.len() - i,
    {
        proof {
            assert(rules@.take(i + 1).drop_last() =~= rules@.take(i as int));
            assert(hits@.take(i + 1).take(i as int) =~= hits@.take(i as int));
        }
        if hits[i] {
            let class: &str = rules[i].class.as_str();
            proof {
                assert(slice_texts(r@.push(class)) =~= slice_texts(r@).push(class@));
            }
            r.push(class);
        }
        i += 1;
    }
    proof {
        assert(rules@.take(i as int) =~= rules@);
        assert(hits@.take(i as int) =~= hits@);
    }
    r
}

/// Where the rules that matched are those whose patterns match a title, so are their classes.
proof fn lemma_chosen_classes(rules: Seq<AppConfig>, title: Seq<char>, hits: Seq<bool>)
    requires
        hits.len() == rules.len(),
        forall|i: int|
            0 <= i < rules.len() ==> #[trigger] hits[i] == regex_matches(rules[i].pattern@, title),
    ensures
        chosen_classes(rules, hits) == rule_classes(matching_rules(rules, title)),
    decreases rules.len(),
{
    reveal(Seq::filter);
    let matches = |rule: AppConfig| regex_matches(rule.pattern@, title);
    if rules.len() > 0 {
        let fewer = rules.drop_last();
        lemma_chosen_classes(fewer, title, hits.take(rules.len() - 1));
        assert(hits[rules.len() - 1] == matches(rules.last()));
        let rest = fewer.filter(matches);
        if matches(rules.last()) {
            assert(rule_classes(rest.push(rules.last())) =~= rule_classes(rest).push(
                rules.last().class@,
            ));
        }
    } else {
        assert(chosen_classes(rules, hits) =~= rule_classes(matching_rules(rules, title)));
    }
}

/// Every class that a rule matches for is one of the classes that the application might have.
pub proof fn law_matches_are_classes(rules: Seq<AppConfig>, title: Seq<char>, class: Seq<char>)
    requires
        rule_classes(matching_rules(rules, title)).contains(class),
    ensures
        rule_classes(rules).contains(class),
    decreases rules.len(),
{
    reveal(Seq::filter);
    let all = rule_classes(rules);
    let matching = matching_rules(rules, title);
    let i = choose|i: int| 0 <= i < matching.len() && rule_classes(matching)[i] == class;
    if rules.len() > 0 {
        let fewer = rules.drop_last();
        let rest = matching_rules(fewer, title);
        if i < rest.len() {
            assert(rule_classes(rest)[i] == class);
            law_matches_are_classes(fewer, title, class);
            let k = choose|k: int| 0 <= k < fewer.len() && rule_classes(fewer)[k] == class;
            assert(all[k] == class);
        } else {
            assert(all[rules.len() - 1] == class);
        }
    }
}

/// Every rule that matches adds its class, however many of them do.
pub proof fn law_every_match_counts(rules: Seq<AppConfig>, title: Seq<char>, i: int)
    requires
        0 <= i < rules.len(),
        regex_matches(rules[i].pattern@, title),
    ensures
        rule_classes(matching_rules(rules, title)).contains(rules[i].class@),
{
    let matches = |rule: AppConfig| regex_matches(rule.pattern@, title);
    rules.filter_lemma(matches);
    let matching = matching_rules(rules, title);
    assert(matches(rules[i]));
    assert(matching.contains(rules[i]));
    let k = choose|k: int| 0 <= k < matching.len() && matching[k] == rules[i];
    assert(rule_classes(matching)[k] == rules[i].class@);
}

impl Config {
    /// The rules for an application, if it has any.
    pub open spec fn rules(self, app_id: Seq<char>) -> Seq<AppConfig> {
        if self.apps@.contains_key(app_id) {
            self.apps@[app_id]@
        } else {
            Seq::empty()
        }
    }

    /// Returns all possible CSS classes that a particular application might have set.
    pub fn app_classes(&self, app_id: &str) -> (r: Vec<&str>)
        ensures
            slice_texts(r@) == rule_classes(self.rules(app_id@)),
    {
        let mut r: Vec<&str> = Vec::new();
        if let Some(rules) = self.apps.get(app_id) {
            let mut i: usize = 0;
            while i < rules.len()
                invariant
                    i <= rules@.len(),
                    slice_texts(r@) =~= rule_classes(rules@).take(i as int),
                decreases rules@.len() - i,
            {
                let class: &str = rules[i].class.as_str();
                proof {
                    assert(slice_texts(r@.push(class)) =~= slice_texts(r@).push(class@));
                }
                r.push(class);
                i += 1;
            }
        }
        proof {
            assert(slice_texts(r@) =~= rule_classes(self.rules(app_id@)));
        }
        r
    }

    /// Returns the actual CSS classes that should be set for the given application and title: those of
    /// all the rules whose patterns match the title, in order.
    pub fn app_matches(&self, app_id: &str, title: &str) -> (r: Vec<&str>)
        ensures
            slice_texts(r@) == rule_classes(matching_rules(self.rules(app_id@), title@)),
    {
        match self.apps.get(app_id) {
            Some(rules) => {
                let mut hits: Vec<bool> = Vec::new();
                let mut i: usize = 0;
                while i < rules.len()
                    invariant
                        i <= rules@.len(),
                        hits@.len() == i,
                        forall|j: int|
                            0 <= j < i ==> #[trigger] hits@[j] == regex_matches(
                                rules@[j].pattern@,
                                title@,
                            ),
                    decreases rules@.len() - i,
                {
                    hits.push(rules[i].pattern.is_match(title));
                    i += 1;
                }
                proof {
                    lemma_chosen_classes(rules@, title@, hits@);
                }
                matching_classes(rules, &hits)
            },
            None => {
                let r: Vec<&str> = Vec::new();
                proof {
                    lemma_chosen_classes(Seq::empty(), title@, Seq::empty());
                    assert(slice_texts(r@) =~= Seq::<Seq<char>>::empty());
                }
                r
            },
        }
    }

    /// Returns true if notification support is enabled.
    pub fn notifications_enabled(&self) -> (r: bool)
        ensures
            r == self.notifications.enabled,
    {
        self.notifications.enabled
    }

    /// Returns any mapping that might exist for this app ID.
    pub fn notifications_app_map(&self, app_id: &str) -> (r: Option<&str>)
        ensures
            if self.notifications.map_app_ids@.contains_key(app_id@) {
                r is Some && r->0@ == self.notifications.map_app_ids@[app_id@]@
            } else {
                r is None
            },
    {
        match self.notifications.map_app_ids.get(app_id) {
            Some(mapped) => Some(mapped.as_str()),
            None => None,
        }
    }

    /// Returns true if notification support should use the desktop entry as a
    /// fallback.
    pub fn notifications_use_desktop_entry(&self) -> (r: bool)
        ensures
            r == self.notifications.use_desktop_entry,
    {
        self.notifications.use_desktop_entry
    }

    /// Returns true if desktop entries may match app IDs loosely.
    pub fn notifications_use_fuzzy_matching(&self) -> (r: bool)
        ensures
            r == self.notifications.use_fuzzy_matching,
    {
        self.notifications.use_fuzzy_matching
    }

    pub fn mode(&self) -> (r: Mode)
        ensures
            r == self.mode,
    {
        self.mode
    }

    pub fn show_all_outputs(&self) -> (r: bool)
        ensures
            r == self.show_all_outputs,
    {
        self.show_all_outputs
    }

    pub fn active_workspace_only(&self) -> (r: bool)
        ensures
            r == self.active_workspace_only,
    {
        self.active_workspace_only
    }

    pub fn workspace_animation_ms(&self) -> (r: u32)
        ensures
            r == self.workspace_animation_ms,
    {
        self.workspace_animation_ms
    }

    pub fn focus_indicator(&self) -> (r: bool)
        ensures
            r == self.focus_indicator,
    {
        self.focus_indicator
    }

    pub fn focus_indicator_ms(&self) -> (r: u32)
        ensures
            r == self.focus_indicator_ms,
    {
        self.focus_indicator_ms
    }

    pub fn focus_indicator_height(&self) -> (r: u32)
        ensures
            r == self.focus_indicator_height,
    {
        self.focus_indicator_height
    }

    /// Whether the thickness that the focus pill grows to is one that can be told.
    pub open spec fn hover_height_fits(self) -> bool {
        self.focus_indicator_hover_height is Some || self.focus_indicator_height + 2 <= u32::MAX
    }

    /// How thick the focus pill grows to while its button is hovered, defaulting to a little
    /// thicker than usual.
    pub fn focus_indicator_hover_height(&self) -> (r: u32)
        requires
            self.hover_height_fits(),
        ensures
            match self.focus_indicator_hover_height {
                Some(height) => r == height,
                None => r == self.focus_indicator_height + 2,
            },
    {
        match self.focus_indicator_hover_height {
            Some(height) => height,
            None => self.focus_indicator_height + 2,
        }
    }

    pub fn hover_indicator(&self) -> (r: bool)
        ensures
            r == self.hover_indicator,
    {
        self.hover_indicator
    }

    pub fn hover_indicator_ms(&self) -> (r: u32)
        ensures
            r == self.hover_indicator_ms,
    {
        self.hover_indicator_ms
    }

    pub fn hover_indicator_height(&self) -> (r: u32)
        ensures
            r == self.hover_indicator_height,
    {
        self.hover_indicator_height
    }

    pub fn urgent_indicator(&self) -> (r: bool)
        ensures
            r == self.urgent_indicator,
    {
        self.urgent_indicator
    }

    pub fn urgent_indicator_height(&self) -> (r: u32)
        ensures
            r == self.urgent_indicator_height,
    {
        self.urgent_indicator_height
    }

    pub fn urgent_indicator_pulse_ms(&self) -> (r: u32)
        ensures
            r == self.urgent_indicator_pulse_ms,
    {
        self.urgent_indicator_pulse_ms
    }

    pub fn scroll_windows(&self) -> (r: bool)
        ensures
            r == self.scroll_windows,
    {
        self.scroll_windows
    }

    pub fn scroll_scope(&self) -> (r: ScrollScope)
        ensures
            r == self.scroll_scope,
    {
        self.scroll_scope
    }

    pub fn scroll_wrap(&self) -> (r: bool)
        ensures
            r == self.scroll_wrap,
    {
        self.scroll_wrap
    }

    pub fn scroll_reverse(&self) -> (r: bool)
        ensures
            r == self.scroll_reverse,
    {
        self.scroll_reverse
    }

    pub fn drag_reorder(&self) -> (r: bool)
        ensures
            r == self.drag_reorder,
    {
        self.drag_reorder
    }

    pub fn column_grouping(&self) -> (r: ColumnGrouping)
        ensures
            r == self.column_grouping,
    {
        self.column_grouping
    }

    pub fn drag_reorder_slide_ms(&self) -> (r: u32)
        ensures
            r == self.drag_reorder_slide_ms,
    {
        self.drag_reorder_slide_ms
    }

    /// The colour space the focus pill fades between its usual and hovered colours in. One that
    /// isn't known is ignored.
    pub fn focus_indicator_hover_space(&self) -> (r: Space)
        ensures
            r == match self.focus_indicator_hover_in {
                Some(space) => match space_of(words(space@)) {
                    Some(known) => known,
                    None => Space::Srgb,
                },
                None => Space::Srgb,
            },
    {
        match &self.focus_indicator_hover_in {
            Some(space) => match Space::parse(space.as_str()) {
                Ok(known) => known,
                Err(_) => Space::default(),
            },
            None => Space::default(),
        }
    }

    /// The gradient the focus pill cycles through while its button is being dragged, if any, given
    /// what came of reading its two colours. One that's wrong in some way is ignored.
    pub fn drag_indicator_gradient<C>(&self, from: Option<C>, to: Option<C>) -> (r: Option<Gradient<C>>)
        ensures
            match self.drag_indicator_gradient {
                Some(config) => {
                    let space = space_of(words(space_name(config)));
                    if from is Some && to is Some && space is Some {
                        r == Some(
                            Gradient {
                                from: from->0,
                                to: to->0,
                                space: space->0,
                                cycle_ms: config.cycle_ms,
                                fade_ms: config.fade_ms,
                            },
                        )
                    } else {
                        r is None
                    }
                },
                None => r is None,
            },
    {
        match &self.drag_indicator_gradient {
            Some(config) => match Gradient::parse(config, from, to) {
                Ok(gradient) => Some(gradient),
                Err(_) => None,
            },
            None => None,
        }
    }
}

/// What a switch is set to unless the configuration says otherwise, for those that start out on.
pub fn default_true() -> (r: bool)
    ensures
        r,
{
    true
}

/// How long the buttons slide for unless the configuration says otherwise.
pub fn default_drag_reorder_slide_ms() -> (ms: u32)
    ensures
        ms == 150,
{
    150
}

/// How long the focus pill slides for unless the configuration says otherwise.
pub fn default_indicator_ms() -> (ms: u32)
    ensures
        ms == 180,
{
    180
}

/// How long the hover pill grows for unless the configuration says otherwise.
pub fn default_hover_indicator_ms() -> (ms: u32)
    ensures
        ms == 150,
{
    150
}

/// How long one pulse of the urgent pill takes unless the configuration says otherwise.
pub fn default_urgent_pulse_ms() -> (ms: u32)
    ensures
        ms == 1200,
{
    1200
}

/// How thick the pills are unless the configuration says otherwise.
pub fn default_indicator_height() -> (height: u32)
    ensures
        height == 3,
{
    3
}

/// The classes that are chosen are those of the rules that matched, and no others, and one more rule
/// leaves them as they are but for its own class at the end where it matched.
pub proof fn law_only_matches_are_chosen(rules: Seq<AppConfig>, hits: Seq<bool>, class: Seq<char>)
    requires
        hits.len() == rules.len(),
    ensures
        chosen_classes(rules, hits).contains(class) <==> exists|i: int|
            0 <= i < rules.len() && hits[i] && (#[trigger] rules[i]).class@ == class,
        rules.len() > 0 ==> {
            let rest = chosen_classes(rules.drop_last(), hits.drop_last());
            &&& hits.last() ==> chosen_classes(rules, hits) == rest.push(rules.last().class@)
            &&& !hits.last() ==> chosen_classes(rules, hits) == rest
        },
    decreases rules.len(),
{
    if rules.len() > 0 {
        let fewer = rules.drop_last();
        let few_hits = hits.drop_last();
        assert(hits.take(rules.len() - 1) =~= few_hits);
        law_only_matches_are_chosen(fewer, few_hits, class);
        let rest = chosen_classes(fewer, few_hits);
        lemma_push_contains(rest, rules.last().class@);
        if rest.contains(class) {
            let i = choose|i: int|
                0 <= i < fewer.len() && few_hits[i] && (#[trigger] fewer[i]).class@ == class;
            assert(hits[i] && rules[i].class@ == class);
        } else {
            if chosen_classes(rules, hits).contains(class) {
                assert(rules[rules.len() - 1].class@ == class);
            }
            if exists|i: int| 0 <= i < rules.len() && hits[i] && (#[trigger] rules[i]).class@ == class {
                let i = choose|i: int|
                    0 <= i < rules.len() && hits[i] && (#[trigger] rules[i]).class@ == class;
                if i < fewer.len() {
                    assert(few_hits[i] && fewer[i].class@ == class);
                }
            }
        }
    }
}

/// An application's classes are those of the rules it's configured with, in order, and none where it
/// isn't. With a title, they're those of just the rules whose patterns match it.
pub proof fn law_rules_are_the_applications_own(config: Config, app_id: Seq<char>, title: Seq<char>)
    ensures
        config.apps@.contains_key(app_id) ==> {
            let rules = config.apps@[app_id]@;
            &&& rule_classes(config.rules(app_id)).len() == rules.len()
            &&& forall|i: int|
                0 <= i < rules.len() ==> rule_classes(config.rules(app_id))[i]
                    == (#[trigger] rules[i]).class@
            &&& forall|class: Seq<char>| #[trigger]
                rule_classes(matching_rules(config.rules(app_id), title)).contains(class)
                    <==> exists|i: int|
                    0 <= i < rules.len() && regex_matches((#[trigger] rules[i]).pattern@, title)
                        && rules[i].class@ == class
        },
        !config.apps@.contains_key(app_id) ==> rule_classes(config.rules(app_id)).len() == 0
            && rule_classes(matching_rules(config.rules(app_id), title)).len() == 0,
{
    reveal(Seq::filter);
    if config.apps@.contains_key(app_id) {
        let rules = config.apps@[app_id]@;
        let hits = Seq::new(rules.len(), |i: int| regex_matches(rules[i].pattern@, title));
        lemma_chosen_classes(rules, title, hits);
        assert forall|class: Seq<char>| #[trigger]
            rule_classes(matching_rules(config.rules(app_id), title)).contains(class) <==> exists|i: int|
            0 <= i < rules.len() && regex_matches((#[trigger] rules[i]).pattern@, title)
                && rules[i].class@ == class by {
            law_only_matches_are_chosen(rules, hits, class);
            if exists|i: int|
                0 <= i < rules.len() && regex_matches((#[trigger] rules[i]).pattern@, title)
                    && rules[i].class@ == class {
                let i = choose|i: int|
                    0 <= i < rules.len() && regex_matches((#[trigger] rules[i]).pattern@, title)
                        && rules[i].class@ == class;
                assert(hits[i] && rules[i].class@ == class);
            }
            if exists|i: int| 0 <= i < rules.len() && hits[i] && (#[trigger] rules[i]).class@ == class {
                let i = choose|i: int|
                    0 <= i < rules.len() && hits[i] && (#[trigger] rules[i]).class@ == class;
                assert(regex_matches(rules[i].pattern@, title));
            }
        }
    }
}

} // verus!
