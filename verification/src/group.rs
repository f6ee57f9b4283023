//! Collapsing the windows that share a Niri column down to a single button, which opens a flyout
//! holding the rest while the pointer is over it.
//!
//! The button that shows for a stack is its focused window, or failing that whichever of its windows
//! was focused last, so moving around a column with the keyboard changes which one is on show. The
//! stack's other buttons stay in the row, hidden, so the row keeps its width whatever the stacks are
//! doing.

use std::collections::BTreeMap;
use vstd::multiset::Multiset;
use vstd::prelude::*;

use crate::config::ColumnGrouping;
use crate::ids::{ascending, ids_in, lemma_push_contains, lemma_take_contains};
use crate::kept::{kept, lemma_kept_contains, other_than, without};
use crate::niri::Window;
use crate::order::{
    in_order, in_place, law_sorted_in_order, law_sorted_is_stable, law_sorted_rearranges,
    lemma_sorted_from, lemma_sorted_len, places, sorted, stable_sort, total_preorder, within,
};
use crate::taskbar::distinct;
use crate::text::{first_from, lemma_first_from};

verus! {

/// How long the pointer has to rest on a stack before it opens, in milliseconds, so sweeping across
/// the bar doesn't set every stack along the way flapping open and shut.
pub const OPEN_DELAY: u64 = 200;

/// How long a stack stays open after the pointer leaves it, in milliseconds, so there's time to get
/// from the stack to its flyout.
pub const CLOSE_DELAY: u64 = 300;

/// The column a tiled window is in, told apart from same-numbered columns on other workspaces.
pub open spec fn column_of(window: Window) -> Option<(u64, usize)> {
    match window.position {
        Some((column, _)) => Some((window.workspace, column)),
        None => None,
    }
}

/// Returns the column a tiled window is in, told apart from same-numbered columns on other
/// workspaces.
pub fn column(window: &Window) -> (r: Option<(u64, usize)>)
    ensures
        r == column_of(*window),
{
    match window.position {
        Some((column, _)) => Some((window.workspace, column)),
        None => None,
    }
}

/// A window in a stack.
#[derive(Debug, Clone, Copy)]
pub struct Member {
    pub id: u64,
    pub is_focused: bool,
    pub is_urgent: bool,
    pub position: Option<(usize, usize)>,
}

/// A window, as it is in a stack.
pub open spec fn member_of(window: Window) -> Member {
    Member {
        id: window.id,
        is_focused: window.is_focused,
        is_urgent: window.is_urgent,
        position: window.position,
    }
}

/// Takes what a stack needs of a window.
fn member(window: &Window) -> (r: Member)
    ensures
        r == member_of(*window),
{
    Member {
        id: window.id,
        is_focused: window.is_focused,
        is_urgent: window.is_urgent,
        position: window.position,
    }
}

/// The windows that share a column.
#[derive(Debug)]
pub struct Stack {
    /// The window whose button shows in the row.
    pub shown: u64,
    /// Every window in the stack with its button in the row, the shown one first.
    pub buttons: Vec<u64>,
    /// Every window in the stack, in the same order.
    pub windows: Vec<Member>,
}

/// What a [`Stack`] holds.
#[verifier::ext_equal]
pub struct StackView {
    pub shown: u64,
    pub buttons: Seq<u64>,
    pub windows: Seq<Member>,
}

impl View for Stack {
    type V = StackView;

    open spec fn view(&self) -> StackView {
        StackView { shown: self.shown, buttons: self.buttons@, windows: self.windows@ }
    }
}

/// The IDs of the windows in a stack.
pub open spec fn member_ids(members: Seq<Member>) -> Seq<u64> {
    members.map_values(|m: Member| m.id)
}

/// Returns true if the ID is among the given ones.
fn is_in(ids: &Vec<u64>, id: u64) -> (r: bool)
    ensures
        r == ids@.contains(id),
{
    let mut i: usize = 0;
    while i < ids.len()
        invariant
            i <= ids@.len(),
            forall|j: int| 0 <= j < i ==> ids@[j] != id,
        decreases ids@.len() - i,
    {
        if ids[i] == id {
            return true;
        }
        i += 1;
    }
    false
}

impl Stack {
    /// Returns true if a window of the stack has a button in the row.
    pub fn contains(&self, id: u64) -> (r: bool)
        ensures
            r == self@.buttons.contains(id),
    {
        is_in(&self.buttons, id)
    }

    /// How many cards peek out from behind the stack: one for a pair, two for anything bigger.
    pub fn cards(&self) -> (r: usize)
        requires
            self@.buttons.len() > 0,
        ensures
            r == card_count(self@),
    {
        let behind: usize = self.buttons.len() - 1;
        if behind < 2 {
            behind
        } else {
            2
        }
    }
}

/// How many cards peek out from behind a stack.
pub open spec fn card_count(stack: StackView) -> int {
    if stack.buttons.len() - 1 < 2 {
        stack.buttons.len() - 1
    } else {
        2
    }
}

/// When each window was last focused, as a count of focus changes.
pub open spec fn last_focus(focused_at: Map<u64, u64>, id: u64) -> u64 {
    if focused_at.contains_key(id) {
        focused_at[id]
    } else {
        0
    }
}

/// Whether a place in a column is above another, or the same, where not being in one comes first.
pub open spec fn place_le(a: Option<(usize, usize)>, b: Option<(usize, usize)>) -> bool {
    match (a, b) {
        (None, _) => true,
        (Some(_), None) => false,
        (Some(a), Some(b)) => a.0 < b.0 || (a.0 == b.0 && a.1 <= b.1),
    }
}

/// Whether a window has no better a claim to be shown than another: the focused one has the best,
/// then the one focused last, and otherwise the one at the top of the column.
pub open spec fn claim_le(focused_at: Map<u64, u64>, a: Member, b: Member) -> bool {
    let (a_at, b_at) = (last_focus(focused_at, a.id), last_focus(focused_at, b.id));
    if a.is_focused != b.is_focused {
        b.is_focused
    } else if a_at != b_at {
        a_at < b_at
    } else {
        place_le(b.position, a.position)
    }
}

/// Which of the first windows has the best claim, the last of them where several do.
pub open spec fn best_of(focused_at: Map<u64, u64>, members: Seq<Member>, n: int) -> int
    decreases n,
{
    if n <= 1 {
        0
    } else {
        let best = best_of(focused_at, members, n - 1);
        if claim_le(focused_at, members[best], members[n - 1]) {
            n - 1
        } else {
            best
        }
    }
}

/// The window a stack shows: the one already showing while its flyout is open, so the flyout doesn't
/// lose its footing, and otherwise the one with the best claim.
pub open spec fn shown_of(
    open: Option<u64>,
    focused_at: Map<u64, u64>,
    members: Seq<Member>,
) -> u64 {
    match open {
        Some(open) if member_ids(members).contains(open) => open,
        _ => if members.len() == 0 {
            0
        } else {
            members[best_of(focused_at, members, members.len() as int)].id
        },
    }
}

proof fn lemma_best_of(focused_at: Map<u64, u64>, members: Seq<Member>, n: int)
    requires
        1 <= n <= members.len(),
    ensures
        0 <= best_of(focused_at, members, n) < n,
    decreases n,
{
    if n > 1 {
        lemma_best_of(focused_at, members, n - 1);
    }
}

/// The window a stack shows is one of its own, and while its flyout is shut no other has a better
/// claim.
pub proof fn law_shown_window_has_the_best_claim(
    focused_at: Map<u64, u64>,
    members: Seq<Member>,
    n: int,
)
    requires
        1 <= n <= members.len(),
    ensures
        0 <= best_of(focused_at, members, n) < n,
        forall|i: int|
            0 <= i < n ==> claim_le(
                focused_at,
                #[trigger] members[i],
                members[best_of(focused_at, members, n)],
            ),
    decreases n,
{
    if n > 1 {
        law_shown_window_has_the_best_claim(focused_at, members, n - 1);
        let b = members[best_of(focused_at, members, n - 1)];
        let m = members[n - 1];
        assert forall|i: int| 0 <= i < n implies claim_le(
            focused_at,
            #[trigger] members[i],
            members[best_of(focused_at, members, n)],
        ) by {
            if i < n - 1 {
                assert(claim_le(focused_at, members[i], b));
            }
        }
    }
}

/// A flyout.
#[derive(Debug)]
pub struct Flyout {
    /// The shown window of the stack it belongs to.
    pub shown: u64,
    /// The windows it has buttons for, in order.
    pub order: Vec<u64>,
}

/// What a [`Flyout`] holds.
#[verifier::ext_equal]
pub struct FlyoutView {
    pub shown: u64,
    pub order: Seq<u64>,
}

/// What the timer is for.
#[derive(Debug, Clone, Copy, PartialEq, Eq, Structural)]
pub enum Timer {
    /// Opening whichever stack the pointer is over by then.
    Open,
    /// Shutting the flyout.
    Close,
    /// Shutting the flyout unless the pointer is over its stack by then.
    CloseUnlessOver,
}

/// What to do about the timer.
#[derive(Debug, Clone, Copy, PartialEq, Eq, Structural)]
pub enum TimerStep {
    Keep,
    Cancel,
    /// Starts the timer over, with the given delay.
    Start(u64),
}

/// What a [`Grouping`] holds.
#[verifier::ext_equal]
pub struct GroupingView {
    pub enabled: bool,
    /// Every stack there's been since they were last worked out.
    pub all: Seq<StackView>,
    /// Which of them each window is in.
    pub stacks: Map<u64, usize>,
    /// The flyout for the stack that's open, if one is.
    pub flyout: Option<FlyoutView>,
    /// The window whose button the pointer is over, in the row or the flyout.
    pub hovered: Option<u64>,
    pub timer: Option<Timer>,
    /// When each window was last focused, as a count of focus changes, for picking which window a
    /// stack shows.
    pub focused_at: Map<u64, u64>,
    pub focus_count: u64,
    pub last_focused: Option<u64>,
    /// The windows that scrolling keeps to, in order, if it keeps to a stack.
    pub scope: Option<Seq<u64>>,
}

impl GroupingView {
    /// The stack a window is in.
    pub open spec fn stack_of(self, id: u64) -> Option<int> {
        if self.stacks.contains_key(id) && self.stacks[id] < self.all.len() {
            Some(self.stacks[id] as int)
        } else {
            None
        }
    }

    /// The window that scrolling stops at for the given one.
    pub open spec fn stop_for(self, window: u64) -> u64 {
        match self.stack_of(window) {
            Some(k) => self.all[k].shown,
            None => window,
        }
    }

    /// The shown window of the stack that's open.
    pub open spec fn open(self) -> Option<u64> {
        match self.flyout {
            Some(flyout) => Some(flyout.shown),
            None => None,
        }
    }

    /// The stack the open flyout belongs to.
    pub open spec fn open_stack(self) -> Option<int> {
        match self.flyout {
            Some(flyout) => self.stack_of(flyout.shown),
            None => None,
        }
    }

    /// Whether any window is in a stack, rather than in one that's taken its place.
    pub open spec fn in_use(self, k: int) -> bool {
        exists|i: int|
            0 <= i < self.all[k].windows.len() && self.stack_of(
                (#[trigger] self.all[k].windows[i]).id,
            ) == Some(k)
    }

    /// The windows that scrolling keeps to for a stack: along the flyout if it's open, and otherwise
    /// in the order the flyout would open in, with the window on show first.
    pub open spec fn scope_for(self, stack: StackView) -> Seq<u64> {
        match self.flyout {
            Some(flyout) if shares(flyout.order, stack.buttons) => flyout.order,
            _ => member_ids(stack.windows),
        }
    }

    /// The state with scrolling kept to a stack's windows, or roaming free again.
    pub open spec fn scoped(self, stack: Option<int>) -> GroupingView {
        GroupingView {
            scope: match stack {
                Some(k) => Some(self.scope_for(self.all[k])),
                None => None,
            },
            ..self
        }
    }
}

/// The windows that scrolling stops at for the first of the given ones, with no stop twice in a row.
pub open spec fn stops_after(view: GroupingView, windows: Seq<u64>, n: int) -> Seq<u64>
    decreases n,
{
    if n <= 0 {
        Seq::empty()
    } else {
        let rest = stops_after(view, windows, n - 1);
        let stop = view.stop_for(windows[n - 1]);
        if rest.len() > 0 && rest.last() == stop {
            rest
        } else {
            rest.push(stop)
        }
    }
}

/// Whether the pointer crossing onto or off something counts as it coming or going.
pub open spec fn counts(normal: bool, inferior: bool) -> bool {
    normal && !inferior
}

/// Returns true if the pointer crossing onto or off something counts as it coming or going, given
/// whether it's an ordinary crossing and whether it's to or from something inside. Crossings caused
/// by grabs, like a menu opening, aren't the pointer coming or going.
pub fn crossing_counts(normal: bool, inferior: bool) -> (r: bool)
    ensures
        r == (normal && !inferior),
        r == counts(normal, inferior),
{
    normal && !inferior
}

/// Whether two lists have anything in common.
pub open spec fn shares(a: Seq<u64>, b: Seq<u64>) -> bool {
    exists|i: int| 0 <= i < a.len() && b.contains(#[trigger] a[i])
}

/// Returns true if two lists have anything in common.
fn any_shared(a: &Vec<u64>, b: &Vec<u64>) -> (r: bool)
    ensures
        r == shares(a@, b@),
{
    let mut i: usize = 0;
    while i < a.len()
        invariant
            i <= a@.len(),
            forall|j: int| 0 <= j < i ==> !b@.contains(#[trigger] a@[j]),
        decreases a@.len() - i,
    {
        if is_in(b, a[i]) {
            return true;
        }
        i += 1;
    }
    false
}

/// Copies a list.
fn copy_ids(ids: &Vec<u64>) -> (r: Vec<u64>)
    ensures
        r@ == ids@,
{
    let mut r: Vec<u64> = Vec::new();
    let mut i: usize = 0;
    while i < ids.len()
        invariant
            i <= ids@.len(),
            r@ == ids@.take(i as int),
        decreases ids@.len() - i,
    {
        proof {
            assert(ids@.take(i as int).push(ids@[i as int]) =~= ids@.take(i + 1));
        }
        r.push(ids[i]);
        i += 1;
    }
    proof {
        assert(ids@.take(i as int) =~= ids@);
    }
    r
}

/// Lists the IDs of the windows in a stack.
fn list_ids(members: &Vec<Member>) -> (r: Vec<u64>)
    ensures
        r@ == member_ids(members@),
{
    let mut r: Vec<u64> = Vec::new();
    let mut i: usize = 0;
    while i < members.len()
        invariant
            i <= members@.len(),
            r@ =~= member_ids(members@).take(i as int),
        decreases members@.len() - i,
    {
        r.push(members[i].id);
        i += 1;
    }
    proof {
        assert(member_ids(members@).take(i as int) =~= member_ids(members@));
    }
    r
}

/// Which windows are stacked, which stack is open, and what the pointer is over.
pub struct Grouping {
    enabled: bool,
    all: Vec<Stack>,
    stacks: BTreeMap<u64, usize>,
    flyout: Option<Flyout>,
    hovered: Option<u64>,
    timer: Option<Timer>,
    focused_at: BTreeMap<u64, u64>,
    focus_count: u64,
    last_focused: Option<u64>,
    scope: Option<Vec<u64>>,
}

/// What each stack in a sequence holds.
pub open spec fn stack_views(stacks: Seq<Stack>) -> Seq<StackView> {
    stacks.map_values(|s: Stack| s@)
}

impl View for Grouping {
    type V = GroupingView;

    closed spec fn view(&self) -> GroupingView {
        GroupingView {
            enabled: self.enabled,
            all: stack_views(self.all@),
            stacks: self.stacks@,
            flyout: match self.flyout {
                Some(flyout) => Some(FlyoutView { shown: flyout.shown, order: flyout.order@ }),
                None => None,
            },
            hovered: self.hovered,
            timer: self.timer,
            focused_at: self.focused_at@,
            focus_count: self.focus_count,
            last_focused: self.last_focused,
            scope: match self.scope {
                Some(scope) => Some(scope@),
                None => None,
            },
        }
    }
}

impl Grouping {
    /// Stacks as the configuration has them: collapsed, or not at all.
    pub fn new(column_grouping: ColumnGrouping) -> (r: Self)
        ensures
            r@ == (GroupingView {
                enabled: column_grouping == ColumnGrouping::Collapse,
                all: Seq::empty(),
                stacks: Map::empty(),
                flyout: None,
                hovered: None,
                timer: None,
                focused_at: Map::empty(),
                focus_count: 0,
                last_focused: None,
                scope: None,
            }),
    {
        let r = Grouping {
            enabled: column_grouping == ColumnGrouping::Collapse,
            all: Vec::new(),
            stacks: BTreeMap::new(),
            flyout: None,
            hovered: None,
            timer: None,
            focused_at: BTreeMap::new(),
            focus_count: 0,
            last_focused: None,
            scope: None,
        };
        proof {
            assert(r@.all =~= Seq::empty());
        }
        r
    }

    /// Finds the stack a window is in.
    fn find(&self, id: u64) -> (r: Option<usize>)
        ensures
            match self@.stack_of(id) {
                Some(k) => r is Some && r->0 == k && k < self@.all.len(),
                None => r is None,
            },
    {
        match self.stacks.get(&id) {
            Some(k) => if *k < self.all.len() {
                Some(*k)
            } else {
                None
            },
            None => None,
        }
    }

    /// Returns the stack a window is in, if it's in one.
    pub fn stack(&self, id: u64) -> (r: Option<&Stack>)
        ensures
            match self@.stack_of(id) {
                Some(k) => r is Some && r->0@ == self@.all[k],
                None => r is None,
            },
    {
        match self.find(id) {
            Some(k) => Some(&self.all[k]),
            None => None,
        }
    }

    /// How many times the focus has changed.
    pub fn focus_count(&self) -> (r: u64)
        ensures
            r == self@.focus_count,
    {
        self.focus_count
    }

    /// The windows that scrolling keeps to, in order, if it keeps to a stack.
    pub fn stack_scope(&self) -> (r: Option<&Vec<u64>>)
        ensures
            match self@.scope {
                Some(scope) => r is Some && r->0@ == scope,
                None => r is None,
            },
    {
        match &self.scope {
            Some(scope) => Some(scope),
            None => None,
        }
    }

    /// The window that scrolling through the taskbar stops at for the given one: the one a stack is
    /// showing, for any window in it, and otherwise the window itself.
    pub fn scroll_stop(&self, window: u64) -> (r: u64)
        ensures
            r == self@.stop_for(window),
    {
        match self.find(window) {
            Some(k) => self.all[k].shown,
            None => window,
        }
    }

    /// The windows that scrolling through the taskbar stops at for the given ones, in order: once
    /// for each stack, whose windows sit together, and for every other window.
    pub fn scroll_stops(&self, windows: &Vec<u64>) -> (r: Vec<u64>)
        ensures
            r@ == stops_after(self@, windows@, windows@.len() as int),
    {
        let mut r: Vec<u64> = Vec::new();
        let mut i: usize = 0;
        while i < windows.len()
            invariant
                i <= windows@.len(),
                r@ == stops_after(self@, windows@, i as int),
            decreases windows@.len() - i,
        {
            let stop: u64 = self.scroll_stop(windows[i]);
            if r.len() == 0 || r[r.len() - 1] != stop {
                r.push(stop);
            }
            i += 1;
        }
        r
    }

    /// The stack the open flyout belongs to.
    fn find_open(&self) -> (r: Option<usize>)
        ensures
            match self@.open_stack() {
                Some(k) => r is Some && r->0 == k && k < self@.all.len(),
                None => r is None,
            },
    {
        match &self.flyout {
            Some(flyout) => self.find(flyout.shown),
            None => None,
        }
    }

    /// Keeps scrolling to the given stack's windows, or lets it roam free again.
    fn set_scroll_scope(&mut self, stack: Option<usize>)
        requires
            stack is Some ==> stack->0 < old(self)@.all.len(),
        ensures
            final(self)@ == old(self)@.scoped(
                match stack {
                    Some(k) => Some(k as int),
                    None => None,
                },
            ),
    {
        let scope: Option<Vec<u64>> = match stack {
            Some(k) => {
                let stack = &self.all[k];
                match &self.flyout {
                    Some(flyout) => if any_shared(&flyout.order, &stack.buttons) {
                        Some(copy_ids(&flyout.order))
                    } else {
                        Some(list_ids(&stack.windows))
                    },
                    None => Some(list_ids(&stack.windows)),
                }
            },
            None => None,
        };
        self.scope = scope;
    }

    /// Picks the window a stack shows.
    fn pick_shown(&self, members: &Vec<Member>) -> (r: u64)
        ensures
            r == shown_of(self@.open(), self@.focused_at, members@),
    {
        if let Some(flyout) = &self.flyout {
            let mut i: usize = 0;
            while i < members.len()
                invariant
                    i <= members@.len(),
                    self@.open() == Some(flyout.shown),
                    forall|j: int| 0 <= j < i ==> (#[trigger] members@[j]).id != flyout.shown,
                decreases members@.len() - i,
            {
                if members[i].id == flyout.shown {
                    proof {
                        assert(member_ids(members@)[i as int] == flyout.shown);
                    }
                    return flyout.shown;
                }
                i += 1;
            }
            proof {
                assert(!member_ids(members@).contains(flyout.shown));
            }
        }
        if members.len() == 0 {
            return 0;
        }
        let mut best: usize = 0;
        let mut n: usize = 1;
        while n < members.len()
            invariant
                1 <= n <= members@.len(),
                best < n,
                best == best_of(self@.focused_at, members@, n as int),
            decreases members@.len() - n,
        {
            if self.has_claim(&members[best], &members[n]) {
                best = n;
            }
            n += 1;
        }
        members[best].id
    }

    /// Returns when a window was last focused.
    fn focus_of(&self, id: u64) -> (r: u64)
        ensures
            r == last_focus(self@.focused_at, id),
    {
        match self.focused_at.get(&id) {
            Some(at) => *at,
            None => 0,
        }
    }

    /// Returns true if a window has no better a claim to be shown than another.
    fn has_claim(&self, a: &Member, b: &Member) -> (r: bool)
        ensures
            r == claim_le(self@.focused_at, *a, *b),
    {
        let a_at: u64 = self.focus_of(a.id);
        let b_at: u64 = self.focus_of(b.id);
        if a.is_focused != b.is_focused {
            b.is_focused
        } else if a_at != b_at {
            a_at < b_at
        } else {
            match (b.position, a.position) {
                (None, _) => true,
                (Some(_), None) => false,
                (Some(x), Some(y)) => x.0 < y.0 || (x.0 == y.0 && x.1 <= y.1),
            }
        }
    }
}

/// Which windows are focused.
pub open spec fn focused(windows: Seq<Window>) -> spec_fn(int) -> bool {
    |i: int| windows[i].is_focused
}

impl GroupingView {
    /// The state once the focused window has been noted.
    pub open spec fn noted(self, windows: Seq<Window>) -> GroupingView {
        let i = first_from(windows.len() as int, 0, focused(windows));
        if i >= windows.len() || self.last_focused == Some(windows[i].id) {
            self
        } else {
            let count = (self.focus_count + 1) as u64;
            GroupingView {
                focused_at: self.focused_at.insert(windows[i].id, count),
                focus_count: count,
                last_focused: Some(windows[i].id),
                ..self
            }
        }
    }
}

/// Where the first windows in a column are.
pub open spec fn column_at(windows: Seq<Window>, key: (u64, usize), n: int) -> Seq<usize>
    decreases n,
{
    if n <= 0 {
        Seq::empty()
    } else {
        let rest = column_at(windows, key, n - 1);
        if column_of(windows[n - 1]) == Some(key) {
            rest.push((n - 1) as usize)
        } else {
            rest
        }
    }
}

/// Where the windows in a column are.
pub open spec fn stack_at(windows: Seq<Window>, key: (u64, usize)) -> Seq<usize> {
    column_at(windows, key, windows.len() as int)
}

/// Whether a window shares its column.
pub open spec fn stacked(windows: Seq<Window>, i: int) -> bool {
    column_of(windows[i]) is Some && stack_at(windows, column_of(windows[i])->0).len() > 1
}

/// Whether a window is the first in its column.
pub open spec fn leads(windows: Seq<Window>, i: int) -> bool {
    forall|j: int| 0 <= j < i ==> column_of(#[trigger] windows[j]) != column_of(windows[i])
}

/// The windows at the given places, as they are in a stack.
pub open spec fn members_at(windows: Seq<Window>, at: Seq<usize>) -> Seq<Member> {
    at.map_values(|i: usize| member_of(windows[i as int]))
}

/// Which places hold the given window.
pub open spec fn holds(windows: Seq<Window>, id: u64) -> spec_fn(usize) -> bool {
    |i: usize| windows[i as int].id == id
}

/// Which places hold another window than the given one.
pub open spec fn holds_another(windows: Seq<Window>, id: u64) -> spec_fn(usize) -> bool {
    |i: usize| windows[i as int].id != id
}

/// Places with the given window's first.
pub open spec fn fronted(windows: Seq<Window>, at: Seq<usize>, id: u64) -> Seq<usize> {
    kept(at, holds(windows, id)) + kept(at, holds_another(windows, id))
}

/// The places of a column's windows, the one it shows first.
pub open spec fn stack_order(view: GroupingView, windows: Seq<Window>, key: (u64, usize)) -> Seq<usize> {
    let at = stack_at(windows, key);
    fronted(windows, at, shown_of(view.open(), view.focused_at, members_at(windows, at)))
}

/// The order that the first windows' buttons should sit in, with each stack together, where the
/// first of its windows is.
pub open spec fn order_after(view: GroupingView, windows: Seq<Window>, n: int) -> Seq<usize>
    decreases n,
{
    if n <= 0 {
        Seq::empty()
    } else {
        let rest = order_after(view, windows, n - 1);
        if !stacked(windows, n - 1) {
            rest.push((n - 1) as usize)
        } else if leads(windows, n - 1) {
            rest + stack_order(view, windows, column_of(windows[n - 1])->0)
        } else {
            rest
        }
    }
}

/// Returns true if two windows are in the same column.
fn same_column(a: &Window, b: &Window) -> (r: bool)
    ensures
        r == (column_of(*a) == column_of(*b)),
{
    match (column(a), column(b)) {
        (Some(a), Some(b)) => a.0 == b.0 && a.1 == b.1,
        (None, None) => true,
        _ => false,
    }
}

/// Finds where the windows in a window's column are.
fn find_column(windows: &Vec<Window>, i: usize) -> (r: Vec<usize>)
    requires
        i < windows@.len(),
        column_of(windows@[i as int]) is Some,
    ensures
        r@ == stack_at(windows@, column_of(windows@[i as int])->0),
        forall|k: int| 0 <= k < r@.len() ==> #[trigger] r@[k] < windows@.len(),
{
    let mut r: Vec<usize> = Vec::new();
    let mut k: usize = 0;
    while k < windows.len()
        invariant
            k <= windows@.len(),
            i < windows@.len(),
            column_of(windows@[i as int]) is Some,
            r@ == column_at(windows@, column_of(windows@[i as int])->0, k as int),
            forall|j: int| 0 <= j < r@.len() ==> #[trigger] r@[j] < windows@.len(),
        decreases windows@.len() - k,
    {
        if same_column(&windows[k], &windows[i]) {
            r.push(k);
        }
        k += 1;
    }
    r
}

/// Puts the places of one window first.
fn front(windows: &Vec<Window>, at: &Vec<usize>, id: u64) -> (r: Vec<usize>)
    requires
        forall|k: int| 0 <= k < at@.len() ==> #[trigger] at@[k] < windows@.len(),
    ensures
        r@ == fronted(windows@, at@, id),
{
    let mut r: Vec<usize> = Vec::new();
    let mut rest: Vec<usize> = Vec::new();
    let mut k: usize = 0;
    while k < at.len()
        invariant
            k <= at@.len(),
            forall|k: int| 0 <= k < at@.len() ==> #[trigger] at@[k] < windows@.len(),
            r@ == kept(at@.take(k as int), holds(windows@, id)),
            rest@ == kept(at@.take(k as int), holds_another(windows@, id)),
        decreases at@.len() - k,
    {
        proof {
            assert(at@.take(k + 1).drop_last() =~= at@.take(k as int));
        }
        let i: usize = at[k];
        if windows[i].id == id {
            r.push(i);
        } else {
            rest.push(i);
        }
        k += 1;
    }
    proof {
        assert(at@.take(k as int) =~= at@);
    }
    r.append(&mut rest);
    r
}

/// Takes what a stack needs of the windows at the given places.
fn collect_members(windows: &Vec<Window>, at: &Vec<usize>) -> (r: Vec<Member>)
    requires
        forall|k: int| 0 <= k < at@.len() ==> #[trigger] at@[k] < windows@.len(),
    ensures
        r@ == members_at(windows@, at@),
{
    let mut r: Vec<Member> = Vec::new();
    let mut k: usize = 0;
    while k < at.len()
        invariant
            k <= at@.len(),
            forall|k: int| 0 <= k < at@.len() ==> #[trigger] at@[k] < windows@.len(),
            r@ =~= members_at(windows@, at@).take(k as int),
        decreases at@.len() - k,
    {
        r.push(member(&windows[at[k]]));
        k += 1;
    }
    proof {
        assert(members_at(windows@, at@).take(k as int) =~= members_at(windows@, at@));
    }
    r
}

impl Grouping {
    /// Notes which window is focused, if that's changed.
    fn note_focus(&mut self, windows: &Vec<Window>)
        requires
            old(self)@.focus_count < u64::MAX,
        ensures
            final(self)@ == old(self)@.noted(windows@),
    {
        let ghost stop = focused(windows@);
        let mut i: usize = 0;
        while i < windows.len()
            invariant
                i <= windows@.len(),
                stop == focused(windows@),
                *self == *old(self),
                self@.focus_count < u64::MAX,
                first_from(windows@.len() as int, 0, stop) == first_from(
                    windows@.len() as int,
                    i as int,
                    stop,
                ),
            decreases windows@.len() - i,
        {
            if windows[i].is_focused {
                let id: u64 = windows[i].id;
                let same: bool = match self.last_focused {
                    Some(last) => last == id,
                    None => false,
                };
                if !same {
                    self.last_focused = Some(id);
                    self.focus_count = self.focus_count + 1;
                    self.focused_at.insert(id, self.focus_count);
                }
                return;
            }
            i += 1;
        }
    }

    /// Puts the windows in the order their buttons should sit in, with each stack together and the
    /// window it shows first, as their places in the order they're given in.
    pub fn order(&mut self, windows: &Vec<Window>) -> (r: Vec<usize>)
        requires
            old(self)@.focus_count < u64::MAX,
        ensures
            if old(self)@.enabled {
                &&& final(self)@ == old(self)@.noted(windows@)
                &&& r@ == order_after(final(self)@, windows@, windows@.len() as int)
            } else {
                &&& final(self)@ == old(self)@
                &&& r@ == in_place(windows@.len())
            },
            r@ == old(self)@.row_of(windows@),
            final(self)@ == old(self)@.after_row(windows@),
    {
        if !self.enabled {
            return places(windows.len());
        }
        let mut r: Vec<usize> = Vec::new();
        let mut i: usize = 0;
        self.note_focus(windows);
        while i < windows.len()
            invariant
                i <= windows@.len(),
                r@ == order_after(self@, windows@, i as int),
            decreases windows@.len() - i,
        {
            let at: Vec<usize> = if column(&windows[i]).is_some() {
                find_column(windows, i)
            } else {
                Vec::new()
            };
            if at.len() > 1 {
                let first: bool = Self::is_leader(windows, i);
                if first {
                    let members = collect_members(windows, &at);
                    let shown: u64 = self.pick_shown(&members);
                    let mut stack = front(windows, &at, shown);
                    r.append(&mut stack);
                }
            } else {
                r.push(i);
            }
            i += 1;
        }
        r
    }

    /// Returns true if a window is the first in its column.
    fn is_leader(windows: &Vec<Window>, i: usize) -> (r: bool)
        requires
            i < windows@.len(),
        ensures
            r == leads(windows@, i as int),
    {
        let mut j: usize = 0;
        while j < i
            invariant
                j <= i < windows@.len(),
                forall|k: int|
                    0 <= k < j ==> column_of(#[trigger] windows@[k]) != column_of(windows@[i as int]),
            decreases i - j,
        {
            if same_column(&windows[j], &windows[i]) {
                return false;
            }
            j += 1;
        }
        true
    }
}

proof fn lemma_column_at(windows: Seq<Window>, key: (u64, usize), n: int)
    requires
        0 <= n <= windows.len(),
        windows.len() <= usize::MAX,
    ensures
        forall|i: usize| #[trigger]
            column_at(windows, key, n).contains(i) <==> i < n && column_of(windows[i as int]) == Some(
                key,
            ),
        column_at(windows, key, n).no_duplicates(),
    decreases n,
{
    if n > 0 {
        lemma_column_at(windows, key, n - 1);
        let rest = column_at(windows, key, n - 1);
        let all = column_at(windows, key, n);
        let x = (n - 1) as usize;
        if column_of(windows[n - 1]) == Some(key) {
            assert(!rest.contains(x));
            assert forall|i: usize| #[trigger] all.contains(i) <==> rest.contains(i) || i == x by {
                if rest.contains(i) {
                    let k = choose|k: int| 0 <= k < rest.len() && rest[k] == i;
                    assert(all[k] == i);
                }
                assert(all[rest.len() as int] == x);
            }
        }
    }
}

/// What passes a test and what doesn't make up the whole.
proof fn lemma_split(s: Seq<usize>, p: spec_fn(usize) -> bool, q: spec_fn(usize) -> bool)
    requires
        forall|x: usize| #[trigger] q(x) == !p(x),
    ensures
        (kept(s, p) + kept(s, q)).to_multiset() =~= s.to_multiset(),
    decreases s.len(),
{
    broadcast use vstd::seq_lib::group_to_multiset_ensures;

    vstd::seq_lib::lemma_multiset_commutative(kept(s, p), kept(s, q));
    if s.len() > 0 {
        let x = s.last();
        let rest = s.drop_last();
        lemma_split(rest, p, q);
        vstd::seq_lib::lemma_multiset_commutative(kept(rest, p), kept(rest, q));
        assert(rest.push(x) =~= s);
        assert(s.to_multiset() =~= rest.to_multiset().insert(x));
        assert(q(x) == !p(x));
        assert(kept(rest, p).push(x).to_multiset() =~= kept(rest, p).to_multiset().insert(x));
        assert(kept(rest, q).push(x).to_multiset() =~= kept(rest, q).to_multiset().insert(x));
    } else {
        assert(kept(s, p) + kept(s, q) =~= s);
    }
}

/// A stack's order has just its windows, once each.
proof fn lemma_stack_order(view: GroupingView, windows: Seq<Window>, key: (u64, usize))
    requires
        windows.len() <= usize::MAX,
    ensures
        stack_order(view, windows, key).to_multiset() =~= stack_at(windows, key).to_multiset(),
        stack_order(view, windows, key).len() == stack_at(windows, key).len(),
        forall|i: usize| #[trigger]
            stack_order(view, windows, key).contains(i) <==> i < windows.len() && column_of(
                windows[i as int],
            ) == Some(key),
        stack_order(view, windows, key).no_duplicates(),
{
    broadcast use vstd::seq_lib::group_to_multiset_ensures;

    let at = stack_at(windows, key);
    let shown = shown_of(view.open(), view.focused_at, members_at(windows, at));
    let order = stack_order(view, windows, key);
    lemma_split(at, holds(windows, shown), holds_another(windows, shown));
    lemma_column_at(windows, key, windows.len() as int);
    assert forall|i: usize| #[trigger] order.contains(i) <==> i < windows.len() && column_of(
        windows[i as int],
    ) == Some(key) by {
        assert(order.contains(i) <==> order.to_multiset().count(i) > 0);
        assert(at.contains(i) <==> at.to_multiset().count(i) > 0);
    }
    at.lemma_multiset_has_no_duplicates();
    order.lemma_multiset_has_no_duplicates_conv();
    assert(order.len() == order.to_multiset().len());
    assert(at.len() == at.to_multiset().len());
}

/// Whether a window has had its place by the time the first windows have been gone through.
spec fn placed(windows: Seq<Window>, i: int, n: int) -> bool {
    if stacked(windows, i) {
        exists|j: int|
            0 <= j < n && leads(windows, j) && column_of(#[trigger] windows[j]) == column_of(windows[i])
    } else {
        i < n
    }
}

proof fn lemma_order_counts(view: GroupingView, windows: Seq<Window>, n: int)
    requires
        0 <= n <= windows.len(),
        windows.len() <= usize::MAX,
    ensures
        forall|i: usize| #[trigger]
            order_after(view, windows, n).to_multiset().count(i) == if i < windows.len() && placed(
                windows,
                i as int,
                n,
            ) {
                1nat
            } else {
                0
            },
    decreases n,
{
    broadcast use vstd::seq_lib::group_to_multiset_ensures;

    let order = order_after(view, windows, n);
    if n == 0 {
        assert(order.to_multiset() =~= Multiset::empty());
    } else {
        lemma_order_counts(view, windows, n - 1);
        let rest = order_after(view, windows, n - 1);
        let x = (n - 1) as usize;
        if !stacked(windows, n - 1) {
            assert(order.to_multiset() =~= rest.to_multiset().insert(x));
            assert forall|i: usize| #[trigger] order.to_multiset().count(i) == if i < windows.len()
                && placed(windows, i as int, n) {
                1nat
            } else {
                0
            } by {
                assert(rest.to_multiset().count(i) == if i < windows.len() && placed(
                    windows,
                    i as int,
                    n - 1,
                ) {
                    1nat
                } else {
                    0
                });
                if i < windows.len() && stacked(windows, i as int) {
                    lemma_same_column_same_stack(windows, i as int, n - 1);
                }
            }
        } else if leads(windows, n - 1) {
            let key = column_of(windows[n - 1])->0;
            let stack = stack_order(view, windows, key);
            lemma_stack_order(view, windows, key);
            vstd::seq_lib::lemma_multiset_commutative(rest, stack);
            stack.lemma_multiset_has_no_duplicates();
            assert forall|i: usize| #[trigger] order.to_multiset().count(i) == if i < windows.len()
                && placed(windows, i as int, n) {
                1nat
            } else {
                0
            } by {
                assert(order.to_multiset().count(i) == rest.to_multiset().count(i)
                    + stack.to_multiset().count(i));
                assert(rest.to_multiset().count(i) == if i < windows.len() && placed(
                    windows,
                    i as int,
                    n - 1,
                ) {
                    1nat
                } else {
                    0
                });
                assert(stack.contains(i) <==> stack.to_multiset().count(i) > 0);
                if i < windows.len() {
                    if column_of(windows[i as int]) == Some(key) {
                        assert(stacked(windows, i as int));
                        assert(!placed(windows, i as int, n - 1));
                        assert(column_of(windows[n - 1]) == column_of(windows[i as int]));
                        assert(placed(windows, i as int, n));
                    } else {
                        assert(placed(windows, i as int, n) == placed(windows, i as int, n - 1));
                    }
                }
            }
        } else {
            assert forall|i: usize| #[trigger] order.to_multiset().count(i) == if i < windows.len()
                && placed(windows, i as int, n) {
                1nat
            } else {
                0
            } by {
                assert(rest.to_multiset().count(i) == if i < windows.len() && placed(
                    windows,
                    i as int,
                    n - 1,
                ) {
                    1nat
                } else {
                    0
                });
                if i < windows.len() {
                    assert(placed(windows, i as int, n) == placed(windows, i as int, n - 1));
                }
            }
        }
    }
}

/// A window that's not stacked is in no stacked window's column.
proof fn lemma_same_column_same_stack(windows: Seq<Window>, i: int, k: int)
    requires
        stacked(windows, i),
        !stacked(windows, k),
    ensures
        column_of(windows[i]) != column_of(windows[k]),
{
}

/// Every column has a first window.
proof fn lemma_leader(windows: Seq<Window>, i: int)
    requires
        0 <= i < windows.len(),
    ensures
        exists|j: int|
            0 <= j <= i && leads(windows, j) && column_of(#[trigger] windows[j]) == column_of(windows[i]),
    decreases i,
{
    if !leads(windows, i) {
        let k = choose|k: int| 0 <= k < i && column_of(#[trigger] windows[k]) == column_of(windows[i]);
        lemma_leader(windows, k);
        let j = choose|j: int|
            0 <= j <= k && leads(windows, j) && column_of(#[trigger] windows[j]) == column_of(windows[k]);
        assert(column_of(windows[j]) == column_of(windows[i]));
    } else {
        assert(column_of(windows[i]) == column_of(windows[i]));
    }
}

/// Putting the windows in order only rearranges them: each keeps a place, and only one.
pub proof fn law_order_only_rearranges(view: GroupingView, windows: Seq<Window>)
    requires
        windows.len() <= usize::MAX,
    ensures
        order_after(view, windows, windows.len() as int).to_multiset() == in_place(
            windows.len(),
        ).to_multiset(),
{
    broadcast use vstd::seq_lib::group_to_multiset_ensures;

    let n = windows.len() as int;
    let order = order_after(view, windows, n);
    let all = in_place(windows.len());
    lemma_order_counts(view, windows, n);
    assert(all.no_duplicates());
    all.lemma_multiset_has_no_duplicates();
    assert forall|i: usize| order.to_multiset().count(i) == all.to_multiset().count(i) by {
        assert(all.contains(i) <==> all.to_multiset().count(i) > 0);
        if i < windows.len() {
            assert(all[i as int] == i);
            lemma_leader(windows, i as int);
            assert(placed(windows, i as int, n));
        } else {
            assert(!all.contains(i)) by {
                if all.contains(i) {
                    let k = choose|k: int| 0 <= k < all.len() && all[k] == i;
                    assert(all[k] == k);
                }
            }
        }
    }
    assert(order.to_multiset() =~= all.to_multiset());
}

/// The window that a stack shows comes first in it.
pub proof fn law_shown_window_comes_first(view: GroupingView, windows: Seq<Window>, key: (u64, usize))
    requires
        windows.len() <= usize::MAX,
        stack_at(windows, key).len() > 0,
    ensures
        windows[stack_order(view, windows, key)[0] as int].id == shown_of(
            view.open(),
            view.focused_at,
            members_at(windows, stack_at(windows, key)),
        ),
{
    let at = stack_at(windows, key);
    let members = members_at(windows, at);
    let shown = shown_of(view.open(), view.focused_at, members);
    lemma_best_of(view.focused_at, members, members.len() as int);
    assert(member_ids(members).contains(shown)) by {
        if !(view.open() is Some && member_ids(members).contains(view.open()->0)) {
            let b = best_of(view.focused_at, members, members.len() as int);
            assert(member_ids(members)[b] == shown);
        }
    }
    let k = choose|k: int| 0 <= k < members.len() && member_ids(members)[k] == shown;
    assert(at.contains(at[k]));
    lemma_kept_contains(at, holds(windows, shown), at[k]);
    let first = kept(at, holds(windows, shown));
    assert(first.len() > 0) by {
        let j = choose|j: int| 0 <= j < first.len() && first[j] == at[k];
    }
    assert(first.contains(first[0]));
    lemma_kept_contains(at, holds(windows, shown), first[0]);
}

/// Each stack's windows sit together in the order.
pub proof fn law_stacks_sit_together(view: GroupingView, windows: Seq<Window>, j: int, n: int)
    requires
        0 <= j < n <= windows.len(),
        stacked(windows, j),
        leads(windows, j),
    ensures
        ({
            let stack = stack_order(view, windows, column_of(windows[j])->0);
            exists|p: int|
                0 <= p && p + stack.len() <= order_after(view, windows, n).len()
                    && #[trigger] order_after(view, windows, n).subrange(p, p + stack.len()) == stack
        }),
    decreases n,
{
    let stack = stack_order(view, windows, column_of(windows[j])->0);
    let order = order_after(view, windows, n);
    let rest = order_after(view, windows, n - 1);
    if j == n - 1 {
        let p = rest.len() as int;
        assert(order.subrange(p, p + stack.len()) =~= stack);
    } else {
        law_stacks_sit_together(view, windows, j, n - 1);
        let p = choose|p: int|
            0 <= p && p + stack.len() <= rest.len() && #[trigger] rest.subrange(p, p + stack.len())
                == stack;
        assert(order.subrange(p, p + stack.len()) =~= rest.subrange(p, p + stack.len()));
    }
}

/// Where the windows stop being in the same column as the one at `i`.
pub open spec fn other_column(windows: Seq<Window>, i: int) -> spec_fn(int) -> bool {
    |k: int| column_of(windows[k]) != column_of(windows[i])
}

/// How many windows in a row, from the one at `i`, are in its column.
pub open spec fn run_len(windows: Seq<Window>, i: int) -> int {
    if column_of(windows[i]) is Some {
        first_from(windows.len() as int, i, other_column(windows, i)) - i
    } else {
        0
    }
}

/// Those of the windows from `i` up to `j` that have buttons.
pub open spec fn buttons_in(windows: Seq<Window>, buttons: Seq<bool>, i: int, j: int) -> Seq<u64>
    decreases j - i,
{
    if j <= i {
        Seq::empty()
    } else {
        let rest = buttons_in(windows, buttons, i, j - 1);
        if buttons[j - 1] {
            rest.push(windows[j - 1].id)
        } else {
            rest
        }
    }
}

/// The windows from `i` up to `j`, as a stack that shows the first of them.
pub open spec fn stack_from(windows: Seq<Window>, buttons: Seq<bool>, i: int, j: int) -> StackView {
    StackView {
        shown: windows[i].id,
        buttons: buttons_in(windows, buttons, i, j),
        windows: windows.subrange(i, j).map_values(|w: Window| member_of(w)),
    }
}

/// The stacks among the windows from `i` on. They come straight out of the order, since that keeps
/// each one together with the shown window first.
pub open spec fn stacks_from(windows: Seq<Window>, buttons: Seq<bool>, i: int) -> Seq<StackView>
    decreases windows.len() - i,
{
    if i >= windows.len() {
        Seq::empty()
    } else {
        let len = run_len(windows, i);
        proof {
            lemma_first_from(windows.len() as int, i, other_column(windows, i));
        }
        if len > 1 {
            seq![stack_from(windows, buttons, i, i + len)] + stacks_from(windows, buttons, i + len)
        } else {
            stacks_from(windows, buttons, i + 1)
        }
    }
}

/// A map with the first windows of a stack put under it.
pub open spec fn with_members(map: Map<u64, usize>, members: Seq<Member>, k: usize, n: int) -> Map<
    u64,
    usize,
>
    decreases n,
{
    if n <= 0 {
        map
    } else {
        with_members(map, members, k, n - 1).insert(members[n - 1].id, k)
    }
}

/// Which of the first stacks each window is in.
pub open spec fn membership(all: Seq<StackView>, n: int) -> Map<u64, usize>
    decreases n,
{
    if n <= 0 {
        Map::empty()
    } else {
        with_members(
            membership(all, n - 1),
            all[n - 1].windows,
            (n - 1) as usize,
            all[n - 1].windows.len() as int,
        )
    }
}

/// Something to do to a button in the row.
#[derive(Debug, Clone, Copy, PartialEq, Eq, Structural)]
pub enum Change {
    /// Marks it as the one a stack shows, with the given number of cards behind it.
    Front { id: u64, cards: usize },
    /// Marks it as one of a stack's others, and hides it.
    Back { id: u64 },
}

/// What to do to a button of a stack.
pub open spec fn change_for(stack: StackView, id: u64) -> Change {
    if id == stack.shown {
        Change::Front { id, cards: card_count(stack) as usize }
    } else {
        Change::Back { id }
    }
}

/// What to do to the buttons of a stack.
pub open spec fn stack_changes(stack: StackView) -> Seq<Change> {
    stack.buttons.map_values(|id: u64| change_for(stack, id))
}

/// What to do to the buttons of the first stacks that are in use.
pub open spec fn changes_of(view: GroupingView, n: int) -> Seq<Change>
    decreases n,
{
    if n <= 0 {
        Seq::empty()
    } else {
        let rest = changes_of(view, n - 1);
        if view.in_use(n - 1) {
            rest + stack_changes(view.all[n - 1])
        } else {
            rest
        }
    }
}

/// What to do to the buttons in the row once the stacks have been worked out.
#[derive(Debug)]
pub struct Applied {
    /// The windows that have left a stack, whose buttons go back to being ordinary ones.
    pub unstacked: Vec<u64>,
    pub changes: Vec<Change>,
}

impl GroupingView {
    /// The state with other stacks.
    pub open spec fn restacked(self, windows: Seq<Window>, buttons: Seq<bool>) -> GroupingView {
        let all = stacks_from(windows, buttons, 0);
        GroupingView { all, stacks: membership(all, all.len() as int), ..self }
    }

    /// Whether a window has left a stack that it had a button in.
    pub open spec fn has_left(self, after: GroupingView, id: u64) -> bool {
        &&& self.stack_of(id) is Some
        &&& !after.stacks.contains_key(id)
        &&& self.all[self.stack_of(id)->0].buttons.contains(id)
    }
}

impl Grouping {
    /// Counts how many windows in a row, from the one at `i`, are in its column.
    fn count_run(windows: &Vec<Window>, i: usize) -> (r: usize)
        requires
            i < windows@.len(),
        ensures
            r == run_len(windows@, i as int),
            r <= windows@.len() - i,
    {
        if column(&windows[i]).is_none() {
            return 0;
        }
        let ghost len = windows@.len() as int;
        let ghost stop = other_column(windows@, i as int);
        let mut k: usize = i;
        while k < windows.len()
            invariant
                i <= k <= windows@.len(),
                i < windows@.len(),
                len == windows@.len(),
                column_of(windows@[i as int]) is Some,
                stop == other_column(windows@, i as int),
                first_from(len, i as int, stop) == first_from(len, k as int, stop),
            decreases windows@.len() - k,
        {
            if !same_column(&windows[k], &windows[i]) {
                return k - i;
            }
            k += 1;
        }
        k - i
    }

    /// Makes a stack of the windows from `i` up to `j`.
    fn make_stack(windows: &Vec<Window>, buttons: &Vec<bool>, i: usize, j: usize) -> (r: Stack)
        requires
            i < j <= windows@.len(),
            buttons@.len() == windows@.len(),
        ensures
            r@ == stack_from(windows@, buttons@, i as int, j as int),
    {
        let ghost expected = stack_from(windows@, buttons@, i as int, j as int).windows;
        let mut ids: Vec<u64> = Vec::new();
        let mut members: Vec<Member> = Vec::new();
        let mut k: usize = i;
        while k < j
            invariant
                i <= k <= j <= windows@.len(),
                buttons@.len() == windows@.len(),
                expected == windows@.subrange(i as int, j as int).map_values(
                    |w: Window| member_of(w),
                ),
                ids@ == buttons_in(windows@, buttons@, i as int, k as int),
                members@ =~= expected.take(k - i),
            decreases j - k,
        {
            if buttons[k] {
                ids.push(windows[k].id);
            }
            proof {
                assert(expected[k - i] == member_of(windows@[k as int]));
            }
            members.push(member(&windows[k]));
            k += 1;
        }
        proof {
            assert(expected.take(k - i) =~= expected);
        }
        Stack { shown: windows[i].id, buttons: ids, windows: members }
    }

    /// Puts a stack's windows under it.
    fn put_under(map: &mut BTreeMap<u64, usize>, members: &Vec<Member>, k: usize)
        ensures
            final(map)@ == with_members(old(map)@, members@, k, members@.len() as int),
    {
        let mut i: usize = 0;
        while i < members.len()
            invariant
                i <= members@.len(),
                map@ == with_members(old(map)@, members@, k, i as int),
            decreases members@.len() - i,
        {
            map.insert(members[i].id, k);
            i += 1;
        }
    }

    /// Returns true if any window is in a stack, rather than in one that's taken its place.
    fn is_used(&self, k: usize) -> (r: bool)
        requires
            k < self@.all.len(),
        ensures
            r == self@.in_use(k as int),
    {
        let members = &self.all[k].windows;
        let mut i: usize = 0;
        while i < members.len()
            invariant
                i <= members@.len(),
                k < self@.all.len(),
                members@ == self@.all[k as int].windows,
                forall|j: int|
                    0 <= j < i ==> self@.stack_of(
                        (#[trigger] self@.all[k as int].windows[j]).id,
                    ) != Some(k as int),
            decreases members@.len() - i,
        {
            if let Some(at) = self.find(members[i].id) {
                if at == k {
                    proof {
                        assert(self@.stack_of(self@.all[k as int].windows[i as int].id) == Some(
                            k as int,
                        ));
                    }
                    return true;
                }
            }
            i += 1;
        }
        false
    }

    /// Works out what to do to the buttons of a stack.
    fn list_changes(stack: &Stack) -> (r: Vec<Change>)
        ensures
            r@ == stack_changes(stack@),
    {
        let mut r: Vec<Change> = Vec::new();
        let mut i: usize = 0;
        while i < stack.buttons.len()
            invariant
                i <= stack.buttons@.len(),
                r@ =~= stack_changes(stack@).take(i as int),
            decreases stack.buttons@.len() - i,
        {
            let id: u64 = stack.buttons[i];
            if id == stack.shown {
                r.push(Change::Front { id, cards: stack.cards() });
            } else {
                r.push(Change::Back { id });
            }
            i += 1;
        }
        proof {
            assert(stack_changes(stack@).take(i as int) =~= stack_changes(stack@));
        }
        r
    }

    /// Updates the stacks once the buttons are in place, given the windows in the order from
    /// [`Self::order`], and which of them have buttons.
    pub fn apply(&mut self, windows: &Vec<Window>, buttons: &Vec<bool>) -> (r: Applied)
        requires
            buttons@.len() == windows@.len(),
        ensures
            if old(self)@.enabled {
                &&& final(self)@ == old(self)@.restacked(windows@, buttons@)
                &&& ascending(r.unstacked@)
                &&& forall|id: u64|
                    r.unstacked@.contains(id) <==> old(self)@.has_left(final(self)@, id)
                &&& r.changes@ == changes_of(final(self)@, final(self)@.all.len() as int)
            } else {
                &&& final(self)@ == old(self)@
                &&& r.unstacked@ == Seq::<u64>::empty()
                &&& r.changes@ == Seq::<Change>::empty()
            },
    {
        if !self.enabled {
            return Applied { unstacked: Vec::new(), changes: Vec::new() };
        }
        let ghost before = self@;
        let ghost expected = stacks_from(windows@, buttons@, 0);
        let mut all: Vec<Stack> = Vec::new();
        let mut stacks: BTreeMap<u64, usize> = BTreeMap::new();
        let mut i: usize = 0;
        proof {
            assert(stack_views(all@) =~= Seq::empty());
            assert(stack_views(all@) + expected =~= expected);
        }
        while i < windows.len()
            invariant
                i <= windows@.len(),
                buttons@.len() == windows@.len(),
                expected == stack_views(all@) + stacks_from(windows@, buttons@, i as int),
                stacks@ == membership(expected, all@.len() as int),
                *self == *old(self),
            decreases windows@.len() - i,
        {
            let len: usize = Self::count_run(windows, i);
            if len > 1 {
                let stack = Self::make_stack(windows, buttons, i, i + len);
                let k: usize = all.len();
                Self::put_under(&mut stacks, &stack.windows, k);
                proof {
                    let rest = stacks_from(windows@, buttons@, i + len);
                    assert(stack_views(all@.push(stack)) =~= stack_views(all@).push(stack@));
                    assert(stack_views(all@) + (seq![stack@] + rest) =~= stack_views(
                        all@.push(stack),
                    ) + rest);
                    assert(expected[k as int] == stack@);
                }
                all.push(stack);
                i += len;
            } else {
                i += 1;
            }
        }
        proof {
            assert(expected =~= stack_views(all@));
        }
        // Windows that have left a stack go back to being ordinary buttons.
        let ids = ids_in(&self.stacks);
        let mut unstacked: Vec<u64> = Vec::new();
        let mut k: usize = 0;
        while k < ids.len()
            invariant
                k <= ids@.len(),
                *self == *old(self),
                before == self@,
                ascending(ids@),
                ascending(unstacked@),
                forall|id: u64| ids@.contains(id) <==> before.stacks.contains_key(id),
                forall|id: u64|
                    unstacked@.contains(id) <==> ids@.take(k as int).contains(id) && before.stack_of(id)
                        is Some && !stacks@.contains_key(id)
                        && before.all[before.stack_of(id)->0].buttons.contains(id),
                forall|j: int|
                    0 <= j < unstacked@.len() && k < ids@.len() ==> #[trigger] unstacked@[j]
                        < ids@[k as int],
            decreases ids@.len() - k,
        {
            let id: u64 = ids[k];
            let ghost fewer = unstacked@;
            proof {
                lemma_take_contains(ids@, k as int);
            }
            if !stacks.contains_key(&id) {
                if let Some(at) = self.find(id) {
                    if self.all[at].contains(id) {
                        unstacked.push(id);
                        proof {
                            lemma_push_contains(fewer, id);
                        }
                    }
                }
            }
            k += 1;
        }
        proof {
            assert(ids@.take(k as int) =~= ids@);
        }
        self.all = all;
        self.stacks = stacks;
        let mut changes: Vec<Change> = Vec::new();
        let mut n: usize = 0;
        proof {
            assert(self@ == before.restacked(windows@, buttons@));
        }
        while n < self.all.len()
            invariant
                n <= self.all@.len(),
                self@.all.len() == self.all@.len(),
                self@ == before.restacked(windows@, buttons@),
                changes@ == changes_of(self@, n as int),
            decreases self.all@.len() - n,
        {
            if self.is_used(n) {
                let mut more = Self::list_changes(&self.all[n]);
                changes.append(&mut more);
            }
            n += 1;
        }
        Applied { unstacked, changes }
    }
}

/// Which IDs are the given one.
pub open spec fn same_id(id: u64) -> spec_fn(u64) -> bool {
    |x: u64| x == id
}

/// IDs with the given one first.
pub open spec fn ids_fronted(ids: Seq<u64>, id: u64) -> Seq<u64> {
    kept(ids, same_id(id)) + without(ids, id)
}

/// Which members are the given window.
pub open spec fn is_member(id: u64) -> spec_fn(Member) -> bool {
    |m: Member| m.id == id
}

/// Which members are another window than the given one.
pub open spec fn is_other_member(id: u64) -> spec_fn(Member) -> bool {
    |m: Member| m.id != id
}

/// Members with the given window first.
pub open spec fn members_fronted(members: Seq<Member>, id: u64) -> Seq<Member> {
    kept(members, is_member(id)) + kept(members, is_other_member(id))
}

/// A stack showing another of its windows.
pub open spec fn stack_showing(stack: StackView, id: u64) -> StackView {
    StackView {
        shown: id,
        buttons: ids_fronted(stack.buttons, id),
        windows: members_fronted(stack.windows, id),
    }
}

/// A map with the first of the given windows put under a stack.
pub open spec fn with_ids(map: Map<u64, usize>, ids: Seq<u64>, k: usize, n: int) -> Map<u64, usize>
    decreases n,
{
    if n <= 0 {
        map
    } else {
        with_ids(map, ids, k, n - 1).insert(ids[n - 1], k)
    }
}

/// How a stack's button gives way to another.
#[derive(Debug, Clone, Copy, PartialEq, Eq, Structural)]
pub struct Swap {
    pub from: u64,
    pub to: u64,
    /// How many cards are behind the new one.
    pub cards: usize,
}

/// What came of settling which window a stack shows.
#[derive(Debug, Clone, Copy, PartialEq, Eq, Structural)]
pub struct Reshown {
    /// The new button taking the old one's place in the row, if it's to change.
    pub swap: Option<Swap>,
    /// The button to mark as a stack's, shut.
    pub collapse: Option<u64>,
    /// Whether there's nothing more to do, since one of the buttons isn't there.
    pub stuck: bool,
}

/// What came of shutting a flyout.
#[derive(Debug, Clone, Copy, PartialEq, Eq, Structural)]
pub struct Closed {
    /// The shown window of the stack it belonged to.
    pub shown: u64,
    /// What the stack shows now, if it's still there.
    pub reshown: Option<Reshown>,
}

impl GroupingView {
    /// The window that a stack should be showing.
    pub open spec fn best_for(self, k: int) -> u64 {
        shown_of(self.open(), self.focused_at, self.all[k].windows)
    }

    /// Whether a stack should be showing another of its windows, and can.
    pub open spec fn swaps(self, k: int) -> bool {
        let stack = self.all[k];
        &&& self.best_for(k) != stack.shown
        &&& stack.buttons.contains(stack.shown)
        &&& stack.buttons.contains(self.best_for(k))
    }

    /// The state once a stack is showing the window it should.
    pub open spec fn reshowing(self, k: int) -> GroupingView {
        if self.swaps(k) {
            let stack = stack_showing(self.all[k], self.best_for(k));
            GroupingView {
                all: self.all.push(stack),
                stacks: with_ids(
                    self.stacks,
                    stack.buttons,
                    self.all.len() as usize,
                    stack.buttons.len() as int,
                ),
                ..self
            }
        } else {
            self
        }
    }

    /// What comes of having a stack show the window it should.
    pub open spec fn reshown(self, k: int) -> Reshown {
        let stack = self.all[k];
        let best = self.best_for(k);
        if self.swaps(k) {
            Reshown {
                swap: Some(Swap { from: stack.shown, to: best, cards: card_count(stack) as usize }),
                collapse: Some(best),
                stuck: false,
            }
        } else if best != stack.shown {
            Reshown { swap: None, collapse: None, stuck: true }
        } else {
            Reshown {
                swap: None,
                collapse: if stack.buttons.contains(stack.shown) {
                    Some(stack.shown)
                } else {
                    None
                },
                stuck: false,
            }
        }
    }

    /// The state with the flyout and the timer gone.
    pub open spec fn without_flyout(self) -> GroupingView {
        GroupingView { timer: None, flyout: None, ..self }
    }

    /// The state once the flyout has been shut, if there is one.
    pub open spec fn closing(self) -> GroupingView {
        match self.open_stack() {
            Some(k) => self.without_flyout().reshowing(k),
            None => self.without_flyout(),
        }
    }

    /// What comes of shutting the flyout, if there is one.
    pub open spec fn closed(self) -> Option<Closed> {
        match self.flyout {
            Some(flyout) => Some(
                Closed {
                    shown: flyout.shown,
                    reshown: match self.open_stack() {
                        Some(k) => Some(self.without_flyout().reshown(k)),
                        None => None,
                    },
                },
            ),
            None => None,
        }
    }
}

/// Puts one ID first.
fn front_ids(ids: &Vec<u64>, id: u64) -> (r: Vec<u64>)
    ensures
        r@ == ids_fronted(ids@, id),
{
    let mut r: Vec<u64> = Vec::new();
    let mut rest: Vec<u64> = Vec::new();
    let mut k: usize = 0;
    while k < ids.len()
        invariant
            k <= ids@.len(),
            r@ == kept(ids@.take(k as int), same_id(id)),
            rest@ == without(ids@.take(k as int), id),
        decreases ids@.len() - k,
    {
        proof {
            assert(ids@.take(k + 1).drop_last() =~= ids@.take(k as int));
        }
        if ids[k] == id {
            r.push(ids[k]);
        } else {
            rest.push(ids[k]);
        }
        k += 1;
    }
    proof {
        assert(ids@.take(k as int) =~= ids@);
    }
    r.append(&mut rest);
    r
}

/// Puts one window's member first.
fn front_members(members: &Vec<Member>, id: u64) -> (r: Vec<Member>)
    ensures
        r@ == members_fronted(members@, id),
{
    let mut r: Vec<Member> = Vec::new();
    let mut rest: Vec<Member> = Vec::new();
    let mut k: usize = 0;
    while k < members.len()
        invariant
            k <= members@.len(),
            r@ == kept(members@.take(k as int), is_member(id)),
            rest@ == kept(members@.take(k as int), is_other_member(id)),
        decreases members@.len() - k,
    {
        proof {
            assert(members@.take(k + 1).drop_last() =~= members@.take(k as int));
        }
        if members[k].id == id {
            r.push(members[k]);
        } else {
            rest.push(members[k]);
        }
        k += 1;
    }
    proof {
        assert(members@.take(k as int) =~= members@);
    }
    r.append(&mut rest);
    r
}

impl Grouping {
    /// Settles which window a stack shows once its flyout has shut. While it was open the stack kept
    /// showing the same one, so nothing moved under the pointer, but focus may well have moved on
    /// since.
    fn reshow(&mut self, k: usize) -> (r: Reshown)
        requires
            k < old(self)@.all.len(),
        ensures
            final(self)@ == old(self)@.reshowing(k as int),
            r == old(self)@.reshown(k as int),
    {
        let ghost before = self@;
        let best: u64 = self.pick_shown(&self.all[k].windows);
        let shown: u64 = self.all[k].shown;
        if best != shown {
            if !self.all[k].contains(shown) || !self.all[k].contains(best) {
                return Reshown { swap: None, collapse: None, stuck: true };
            }
            let cards: usize = self.all[k].cards();
            let buttons = front_ids(&self.all[k].buttons, best);
            let windows = front_members(&self.all[k].windows, best);
            let at: usize = self.all.len();
            let mut i: usize = 0;
            while i < buttons.len()
                invariant
                    i <= buttons@.len(),
                    at == self.all@.len(),
                    self@ == (GroupingView {
                        stacks: with_ids(before.stacks, buttons@, at, i as int),
                        ..before
                    }),
                decreases buttons@.len() - i,
            {
                self.stacks.insert(buttons[i], at);
                i += 1;
            }
            let stack = Stack { shown: best, buttons, windows };
            let ghost fewer = self.all@;
            self.all.push(stack);
            proof {
                assert(stack_views(self.all@) =~= stack_views(fewer).push(stack@));
            }
            return Reshown {
                swap: Some(Swap { from: shown, to: best, cards }),
                collapse: Some(best),
                stuck: false,
            };
        }
        let collapse: Option<u64> = if self.all[k].contains(shown) {
            Some(shown)
        } else {
            None
        };
        Reshown { swap: None, collapse, stuck: false }
    }

    /// Shuts the open flyout, if there is one.
    pub fn close(&mut self) -> (r: Option<Closed>)
        ensures
            final(self)@ == old(self)@.closing(),
            r == old(self)@.closed(),
    {
        let open = self.find_open();
        self.timer = None;
        let shown: Option<u64> = match &self.flyout {
            Some(flyout) => Some(flyout.shown),
            None => None,
        };
        self.flyout = None;
        match shown {
            Some(shown) => {
                let reshown: Option<Reshown> = match open {
                    Some(k) => Some(self.reshow(k)),
                    None => None,
                };
                Some(Closed { shown, reshown })
            },
            None => None,
        }
    }
}

/// Where an ID is in an order, or after the end if it's not in it.
pub open spec fn rank_in(order: Seq<u64>, id: u64) -> int {
    if order.contains(id) {
        order.index_of_first(id)->0
    } else {
        usize::MAX as int
    }
}

/// The order of the windows at two places, as far as the given order goes.
pub open spec fn follows(members: Seq<Member>, order: Seq<u64>) -> spec_fn(usize, usize) -> bool {
    |a: usize, b: usize| rank_in(order, members[a as int].id) <= rank_in(order, members[b as int].id)
}

/// The windows of a stack in the given order, as far as it goes, and otherwise in the stack's own.
pub open spec fn flyout_order(members: Seq<Member>, order: Seq<u64>) -> Seq<u64> {
    sorted(in_place(members.len()), follows(members, order)).map_values(
        |i: usize| members[i as int].id,
    )
}

/// Finds where an ID is in an order.
fn find_rank(order: &Vec<u64>, id: u64) -> (r: usize)
    ensures
        r == rank_in(order@, id),
{
    let mut i: usize = 0;
    while i < order.len()
        invariant
            i <= order@.len(),
            forall|j: int| 0 <= j < i ==> order@[j] != id,
        decreases order@.len() - i,
    {
        if order[i] == id {
            proof {
                order@.index_of_first_ensures(id);
                assert(order@.index_of_first(id)->0 == i);
            }
            return i;
        }
        i += 1;
    }
    usize::MAX
}

/// Puts the windows of a stack in the given order, as far as it goes, and otherwise in the stack's
/// own.
fn put_in_order(members: &Vec<Member>, order: &Vec<u64>) -> (r: Vec<u64>)
    ensures
        r@ == flyout_order(members@, order@),
{
    let ghost rel = follows(members@, order@);
    let all = places(members.len());
    let before = |a: usize, b: usize| -> (c: bool)
        requires
            within(members@.len(), a, b),
        ensures
            c == rel(a, b),
        { find_rank(order, members[a].id) <= find_rank(order, members[b].id) };
    let at = stable_sort(&all, before, Ghost(rel));
    proof {
        lemma_sorted_len(all@, rel);
        assert forall|k: int| 0 <= k < at@.len() implies #[trigger] at@[k] < members@.len() by {
            lemma_sorted_from(all@, rel, k);
            let i = choose|i: int| 0 <= i < all@.len() && all@[i] == at@[k];
            assert(all@[i] == i);
        }
    }
    let ghost expected = flyout_order(members@, order@);
    let mut r: Vec<u64> = Vec::new();
    let mut k: usize = 0;
    while k < at.len()
        invariant
            k <= at@.len(),
            at@.len() == expected.len(),
            expected == at@.map_values(|i: usize| members@[i as int].id),
            forall|k: int| 0 <= k < at@.len() ==> #[trigger] at@[k] < members@.len(),
            r@ =~= expected.take(k as int),
        decreases at@.len() - k,
    {
        r.push(members[at[k]].id);
        k += 1;
    }
    proof {
        assert(expected.take(k as int) =~= expected);
    }
    r
}

/// A flyout to open.
#[derive(Debug)]
pub struct Opening {
    /// The stack it's for.
    pub stack: usize,
    /// The window the stack shows.
    pub shown: u64,
    /// The windows to make buttons for, in order.
    pub order: Vec<u64>,
}

/// What to do about opening a flyout.
#[derive(Debug)]
pub struct Opened {
    /// What came of shutting the one that was open.
    pub closed: Option<Closed>,
    pub opening: Option<Opening>,
}

impl GroupingView {
    /// The state with a flyout open for a stack. Scrolling over the stack goes along the flyout from
    /// then on.
    pub open spec fn opened(self, k: int, shown: u64, order: Seq<u64>) -> GroupingView {
        let opened = GroupingView { flyout: Some(FlyoutView { shown, order }), ..self };
        if k < self.all.len() && self.hovered is Some && self.all[k].buttons.contains(
            self.hovered->0,
        ) {
            opened.scoped(Some(k))
        } else {
            opened
        }
    }

    /// The state once the way is clear for a stack's flyout.
    pub open spec fn cleared_for(self, k: int) -> GroupingView {
        if self.open() == Some(self.all[k].shown) {
            self
        } else {
            self.closing()
        }
    }
}

/// Whether this is what to do about opening a stack's flyout with its windows in the given order:
/// nothing if it's open, and otherwise to shut any other, and to open it if it has a button.
pub open spec fn opens(r: Opened, view: GroupingView, k: int, order: Seq<u64>) -> bool {
    let stack = view.all[k];
    if view.open() == Some(stack.shown) {
        r.closed is None && r.opening is None
    } else {
        &&& r.closed == view.closed()
        &&& if stack.buttons.contains(stack.shown) {
            &&& r.opening is Some
            &&& r.opening->0.stack == k
            &&& r.opening->0.shown == stack.shown
            &&& r.opening->0.order@ == flyout_order(stack.windows, order)
        } else {
            r.opening is None
        }
    }
}

impl Grouping {
    /// Gets ready to open the flyout for a stack with its windows in the given order, as far as it
    /// goes, and otherwise in the stack's own, which puts the window it's showing first. Any other
    /// flyout is shut.
    fn open_in_order(&mut self, k: usize, order: &Vec<u64>) -> (r: Opened)
        requires
            k < old(self)@.all.len(),
        ensures
            final(self)@ == old(self)@.cleared_for(k as int),
            opens(r, old(self)@, k as int, order@),
    {
        let shown: u64 = self.all[k].shown;
        if let Some(flyout) = &self.flyout {
            if flyout.shown == shown {
                return Opened { closed: None, opening: None };
            }
        }
        let ordered = put_in_order(&self.all[k].windows, order);
        let has_button: bool = self.all[k].contains(shown);
        let closed = self.close();
        let opening: Option<Opening> = if has_button {
            Some(Opening { stack: k, shown, order: ordered })
        } else {
            None
        };
        Opened { closed, opening }
    }

    /// Takes in that a flyout has been opened.
    pub fn opened(&mut self, opening: Opening)
        ensures
            final(self)@ == old(self)@.opened(opening.stack as int, opening.shown, opening.order@),
    {
        let k: usize = opening.stack;
        self.flyout = Some(Flyout { shown: opening.shown, order: opening.order });
        if k < self.all.len() {
            if let Some(hovered) = self.hovered {
                if self.all[k].contains(hovered) {
                    self.set_scroll_scope(Some(k));
                }
            }
        }
    }

    /// Takes in the pointer coming onto a window's button, in the row or the flyout, unless a button
    /// is being dragged.
    pub fn enter(&mut self, window: u64, dragging: bool) -> (r: TimerStep)
        ensures
            ({
                let before = old(self)@;
                let stack = before.stack_of(window);
                let over = GroupingView { hovered: Some(window), ..before }.scoped(stack);
                let open = before.open_stack();
                if dragging {
                    final(self)@ == before && r == TimerStep::Keep
                } else if stack is Some && open == stack {
                    final(self)@ == (GroupingView { timer: None, ..over }) && r == TimerStep::Cancel
                } else if stack is Some {
                    final(self)@ == (GroupingView { timer: Some(Timer::Open), ..over }) && r
                        == TimerStep::Start(OPEN_DELAY)
                } else if open is Some {
                    final(self)@ == (GroupingView { timer: Some(Timer::Close), ..over }) && r
                        == TimerStep::Start(CLOSE_DELAY)
                } else {
                    final(self)@ == over && r == TimerStep::Keep
                }
            }),
            (final(self)@, r) == old(self)@.entered(window, dragging),
    {
        if dragging {
            return TimerStep::Keep;
        }
        self.hovered = Some(window);
        let stack = self.find(window);
        let open = self.find_open();
        self.set_scroll_scope(stack);
        match (stack, open) {
            (Some(a), Some(b)) => if a == b {
                self.timer = None;
                TimerStep::Cancel
            } else {
                self.timer = Some(Timer::Open);
                TimerStep::Start(OPEN_DELAY)
            },
            (Some(_), None) => {
                self.timer = Some(Timer::Open);
                TimerStep::Start(OPEN_DELAY)
            },
            (None, Some(_)) => {
                self.timer = Some(Timer::Close);
                TimerStep::Start(CLOSE_DELAY)
            },
            (None, None) => TimerStep::Keep,
        }
    }

    /// Takes in the pointer going off a window's button, in the row or the flyout.
    pub fn leave(&mut self, window: u64) -> (r: TimerStep)
        ensures
            ({
                let before = old(self)@;
                let away = if before.hovered == Some(window) {
                    GroupingView { hovered: None, scope: None, ..before }
                } else {
                    before
                };
                if before.flyout is Some {
                    final(self)@ == (GroupingView { timer: Some(Timer::CloseUnlessOver), ..away })
                        && r == TimerStep::Start(CLOSE_DELAY)
                } else {
                    final(self)@ == (GroupingView { timer: None, ..away }) && r == TimerStep::Cancel
                }
            }),
            (final(self)@, r) == old(self)@.left(window),
    {
        if let Some(hovered) = self.hovered {
            if hovered == window {
                self.hovered = None;
                self.scope = None;
            }
        }
        if self.flyout.is_some() {
            self.timer = Some(Timer::CloseUnlessOver);
            TimerStep::Start(CLOSE_DELAY)
        } else {
            self.timer = None;
            TimerStep::Cancel
        }
    }
}

impl GroupingView {
    /// The order that the windows' buttons should sit in.
    pub open spec fn row_of(self, windows: Seq<Window>) -> Seq<usize> {
        if self.enabled {
            order_after(self.noted(windows), windows, windows.len() as int)
        } else {
            in_place(windows.len())
        }
    }

    /// The state once the windows have been put in order.
    pub open spec fn after_row(self, windows: Seq<Window>) -> GroupingView {
        if self.enabled {
            self.noted(windows)
        } else {
            self
        }
    }

    /// Whether the button that each stack shows is to be marked as urgent.
    pub open spec fn urgent_stacks(self, urgent: Seq<u64>) -> Seq<(u64, bool)> {
        if self.enabled {
            marks_of(self, urgent, self.all.len() as int)
        } else {
            Seq::empty()
        }
    }
}

/// What the timer going off is for.
pub enum Due {
    Nothing,
    /// Shutting the flyout.
    Close,
    /// Opening the flyout of a stack.
    Open(int),
}

/// How the open flyout stands to its stack.
pub enum Stale {
    /// There's none.
    Nothing,
    /// Its stack is gone.
    Gone,
    /// Windows have come to its stack, or gone from it.
    Changed,
    /// It has just the windows of its stack.
    Same(int),
}

impl GroupingView {
    /// What comes of the pointer coming onto a window's button.
    pub open spec fn entered(self, window: u64, dragging: bool) -> (GroupingView, TimerStep) {
        let stack = self.stack_of(window);
        let open = self.open_stack();
        let over = GroupingView { hovered: Some(window), ..self }.scoped(stack);
        if dragging {
            (self, TimerStep::Keep)
        } else if stack is Some && open == stack {
            (GroupingView { timer: None, ..over }, TimerStep::Cancel)
        } else if stack is Some {
            (GroupingView { timer: Some(Timer::Open), ..over }, TimerStep::Start(OPEN_DELAY))
        } else if open is Some {
            (GroupingView { timer: Some(Timer::Close), ..over }, TimerStep::Start(CLOSE_DELAY))
        } else {
            (over, TimerStep::Keep)
        }
    }

    /// What comes of the pointer going off a window's button.
    pub open spec fn left(self, window: u64) -> (GroupingView, TimerStep) {
        let away = if self.hovered == Some(window) {
            GroupingView { hovered: None, scope: None, ..self }
        } else {
            self
        };
        if self.flyout is Some {
            (
                GroupingView { timer: Some(Timer::CloseUnlessOver), ..away },
                TimerStep::Start(CLOSE_DELAY),
            )
        } else {
            (GroupingView { timer: None, ..away }, TimerStep::Cancel)
        }
    }

    /// What the timer going off is for.
    pub open spec fn due(self) -> Due {
        match self.timer {
            Some(Timer::Open) => match self.hovered_stack() {
                Some(k) => Due::Open(k),
                None => Due::Nothing,
            },
            Some(Timer::Close) => Due::Close,
            Some(Timer::CloseUnlessOver) => if self.over_open() {
                Due::Nothing
            } else {
                Due::Close
            },
            None => Due::Nothing,
        }
    }

    /// How the open flyout stands to its stack.
    pub open spec fn stale(self) -> Stale {
        match (self.flyout, self.open_stack()) {
            (None, _) => Stale::Nothing,
            (Some(_), None) => Stale::Gone,
            (Some(flyout), Some(k)) => if same_windows(flyout.order, self.all[k].windows) {
                Stale::Same(k)
            } else {
                Stale::Changed
            },
        }
    }
}

/// What the timer going off comes to.
#[derive(Debug)]
pub enum Fired {
    Nothing,
    Close(Option<Closed>),
    Open(Opened),
}

impl GroupingView {
    /// The state with the timer gone.
    pub open spec fn untimed(self) -> GroupingView {
        GroupingView { timer: None, ..self }
    }

    /// Whether the pointer is over the stack that's open, in the row or its flyout.
    pub open spec fn over_open(self) -> bool {
        match (self.open_stack(), self.hovered) {
            (Some(k), Some(id)) => self.all[k].buttons.contains(id),
            _ => false,
        }
    }

    /// The stack that the pointer is over.
    pub open spec fn hovered_stack(self) -> Option<int> {
        match self.hovered {
            Some(id) => self.stack_of(id),
            None => None,
        }
    }
}

impl Grouping {
    /// Takes in the timer going off.
    pub fn fired(&mut self) -> (r: Fired)
        ensures
            ({
                let before = old(self)@.untimed();
                match old(self)@.timer {
                    Some(Timer::Open) => match before.hovered_stack() {
                        Some(k) => {
                            &&& final(self)@ == before.cleared_for(k)
                            &&& r is Open
                            &&& opens(r->Open_0, before, k, Seq::empty())
                        },
                        None => final(self)@ == before && r is Nothing,
                    },
                    Some(Timer::Close) => final(self)@ == before.closing() && r == Fired::Close(
                        before.closed(),
                    ),
                    Some(Timer::CloseUnlessOver) => if before.over_open() {
                        final(self)@ == before && r is Nothing
                    } else {
                        final(self)@ == before.closing() && r == Fired::Close(before.closed())
                    },
                    None => final(self)@ == before && r is Nothing,
                }
            }),
            match old(self)@.due() {
                Due::Nothing => final(self)@ == old(self)@.untimed() && r is Nothing,
                Due::Close => final(self)@ == old(self)@.untimed().closing() && r == Fired::Close(
                    old(self)@.untimed().closed(),
                ),
                Due::Open(k) => {
                    &&& final(self)@ == old(self)@.untimed().cleared_for(k)
                    &&& r is Open
                    &&& opens(r->Open_0, old(self)@.untimed(), k, Seq::empty())
                },
            },
    {
        let timer: Option<Timer> = self.timer;
        self.timer = None;
        match timer {
            Some(Timer::Open) => {
                let stack: Option<usize> = match self.hovered {
                    Some(id) => self.find(id),
                    None => None,
                };
                match stack {
                    Some(k) => {
                        let none: Vec<u64> = Vec::new();
                        Fired::Open(self.open_in_order(k, &none))
                    },
                    None => Fired::Nothing,
                }
            },
            Some(Timer::Close) => Fired::Close(self.close()),
            Some(Timer::CloseUnlessOver) => {
                let over: bool = match (self.find_open(), self.hovered) {
                    (Some(k), Some(id)) => self.all[k].contains(id),
                    _ => false,
                };
                if over {
                    Fired::Nothing
                } else {
                    Fired::Close(self.close())
                }
            },
            None => Fired::Nothing,
        }
    }
}

/// How to bring the open flyout up to date.
#[derive(Debug)]
pub enum Refresh {
    /// There's none.
    Nothing,
    /// Its stack is gone, so it's shut.
    Close(Option<Closed>),
    /// Windows have come or gone, so it's shut and opened again, if its stack is still there.
    Reopen { closed: Option<Closed>, opened: Option<Opened> },
    /// Its buttons stay, with what they show brought up to date.
    Update {
        /// The button in the row to stop marking as shut.
        uncollapse: Option<u64>,
        /// The flyout's button to point the focus pill at.
        focus: Option<u64>,
    },
}

/// Whether a flyout has just a stack's windows.
pub open spec fn same_windows(order: Seq<u64>, members: Seq<Member>) -> bool {
    order.len() == members.len() && forall|i: int|
        0 <= i < members.len() ==> order.contains((#[trigger] members[i]).id)
}

/// Returns true if a flyout has just a stack's windows.
fn has_same_windows(order: &Vec<u64>, members: &Vec<Member>) -> (r: bool)
    ensures
        r == same_windows(order@, members@),
{
    if order.len() != members.len() {
        return false;
    }
    let mut i: usize = 0;
    while i < members.len()
        invariant
            i <= members@.len(),
            order@.len() == members@.len(),
            forall|j: int| 0 <= j < i ==> order@.contains((#[trigger] members@[j]).id),
        decreases members@.len() - i,
    {
        if !is_in(order, members[i].id) {
            return false;
        }
        i += 1;
    }
    true
}

/// Which members are focused.
pub open spec fn focused_member(members: Seq<Member>) -> spec_fn(int) -> bool {
    |i: int| members[i].is_focused
}

/// The flyout's button for whichever of a stack's windows is focused, if it has one.
pub open spec fn flyout_focus(order: Seq<u64>, members: Seq<Member>) -> Option<u64> {
    let i = first_from(members.len() as int, 0, focused_member(members));
    if i < members.len() && order.contains(members[i].id) {
        Some(members[i].id)
    } else {
        None
    }
}

/// Finds the flyout's button for whichever of a stack's windows is focused, if it has one.
pub fn show_focus(order: &Vec<u64>, members: &Vec<Member>) -> (r: Option<u64>)
    ensures
        r == flyout_focus(order@, members@),
{
    let ghost stop = focused_member(members@);
    let mut i: usize = 0;
    while i < members.len()
        invariant
            i <= members@.len(),
            stop == focused_member(members@),
            first_from(members@.len() as int, 0, stop) == first_from(
                members@.len() as int,
                i as int,
                stop,
            ),
        decreases members@.len() - i,
    {
        if members[i].is_focused {
            return if is_in(order, members[i].id) {
                Some(members[i].id)
            } else {
                None
            };
        }
        i += 1;
    }
    None
}

impl GroupingView {
    /// The stack there is for a window once the flyout has been shut.
    pub open spec fn stack_once_shut(self, id: u64) -> Option<int> {
        self.closing().stack_of(id)
    }
}

impl Grouping {
    /// Brings the open flyout up to date with its stack, or shuts it if the stack's gone. The flyout
    /// keeps the order it opened in for as long as it's open, whatever the stack does meanwhile, so
    /// only windows coming or going mean building it again: those still there keep their places, and
    /// any newcomers go on the end.
    pub fn refresh_flyout(&mut self) -> (r: Refresh)
        ensures
            ({
                let before = old(self)@;
                match (before.flyout, before.open_stack()) {
                    (None, _) => final(self)@ == before && r is Nothing,
                    (Some(_), None) => final(self)@ == before.closing() && r == Refresh::Close(
                        before.closed(),
                    ),
                    (Some(flyout), Some(k)) => {
                        let stack = before.all[k];
                        if same_windows(flyout.order, stack.windows) {
                            &&& final(self)@ == before
                            &&& r == (Refresh::Update {
                                uncollapse: if stack.buttons.contains(stack.shown) {
                                    Some(stack.shown)
                                } else {
                                    None
                                },
                                focus: flyout_focus(flyout.order, stack.windows),
                            })
                        } else {
                            &&& r is Reopen
                            &&& r->closed == before.closed()
                            &&& match before.stack_once_shut(stack.shown) {
                                Some(again) => {
                                    &&& final(self)@ == before.closing().cleared_for(again)
                                    &&& r->opened is Some
                                    &&& opens(
                                        r->opened->0,
                                        before.closing(),
                                        again,
                                        flyout.order,
                                    )
                                },
                                None => final(self)@ == before.closing() && r->opened is None,
                            }
                        }
                    },
                }
            }),
            match old(self)@.stale() {
                Stale::Nothing => final(self)@ == old(self)@ && r is Nothing,
                Stale::Gone => final(self)@ == old(self)@.closing() && r == Refresh::Close(
                    old(self)@.closed(),
                ),
                Stale::Changed => r is Reopen && r->closed == old(self)@.closed(),
                Stale::Same(k) => {
                    let stack = old(self)@.all[k];
                    &&& final(self)@ == old(self)@
                    &&& r == (Refresh::Update {
                        uncollapse: if stack.buttons.contains(stack.shown) {
                            Some(stack.shown)
                        } else {
                            None
                        },
                        focus: flyout_focus(old(self)@.flyout->0.order, stack.windows),
                    })
                },
            },
    {
        let open = self.find_open();
        let order: Vec<u64> = match &self.flyout {
            Some(flyout) => copy_ids(&flyout.order),
            None => {
                return Refresh::Nothing;
            },
        };
        match open {
            Some(k) => {
                let shown: u64 = self.all[k].shown;
                if has_same_windows(&order, &self.all[k].windows) {
                    let uncollapse: Option<u64> = if self.all[k].contains(shown) {
                        Some(shown)
                    } else {
                        None
                    };
                    return Refresh::Update {
                        uncollapse,
                        focus: show_focus(&order, &self.all[k].windows),
                    };
                }
                let closed = self.close();
                let opened: Option<Opened> = match self.find(shown) {
                    Some(again) => Some(self.open_in_order(again, &order)),
                    None => None,
                };
                Refresh::Reopen { closed, opened }
            },
            None => Refresh::Close(self.close()),
        }
    }
}

/// Those of the first windows in a flyout whose buttons are yet to be marked as urgent, given which
/// windows' buttons in the row are, and which in the flyout.
pub open spec fn passed_along(
    order: Seq<u64>,
    buttons: Seq<u64>,
    urgent: Seq<u64>,
    marked: Seq<u64>,
    n: int,
) -> Seq<u64>
    decreases n,
{
    if n <= 0 {
        Seq::empty()
    } else {
        let rest = passed_along(order, buttons, urgent, marked, n - 1);
        let id = order[n - 1];
        if buttons.contains(id) && urgent.contains(id) && !marked.contains(id) {
            rest.push(id)
        } else {
            rest
        }
    }
}

/// Whether any of a stack's hidden windows is urgent.
pub open spec fn hides_urgent(stack: StackView, urgent: Seq<u64>) -> bool {
    exists|i: int|
        0 <= i < stack.buttons.len() && (#[trigger] stack.buttons[i]) != stack.shown && urgent.contains(
            stack.buttons[i],
        )
}

/// Whether to mark the button that each of the first stacks shows as urgent, for those that are in
/// use and have one.
pub open spec fn marks_of(view: GroupingView, urgent: Seq<u64>, n: int) -> Seq<(u64, bool)>
    decreases n,
{
    if n <= 0 {
        Seq::empty()
    } else {
        let rest = marks_of(view, urgent, n - 1);
        let stack = view.all[n - 1];
        if view.in_use(n - 1) && stack.buttons.contains(stack.shown) {
            rest.push((stack.shown, hides_urgent(stack, urgent)))
        } else {
            rest
        }
    }
}

/// Which buttons to mark as urgent.
#[derive(Debug)]
pub struct Urgency {
    /// The windows whose buttons in the flyout are to be marked.
    pub flyout: Vec<u64>,
    /// Whether the button that each stack shows is to be marked for the ones it hides.
    pub stacks: Vec<(u64, bool)>,
}

/// Returns true if any of a stack's hidden windows is urgent.
fn any_hidden_urgent(stack: &Stack, urgent: &Vec<u64>) -> (r: bool)
    ensures
        r == hides_urgent(stack@, urgent@),
{
    let mut i: usize = 0;
    while i < stack.buttons.len()
        invariant
            i <= stack.buttons@.len(),
            forall|j: int|
                0 <= j < i ==> (#[trigger] stack@.buttons[j]) == stack.shown || !urgent@.contains(
                    stack@.buttons[j],
                ),
        decreases stack.buttons@.len() - i,
    {
        if stack.buttons[i] != stack.shown && is_in(urgent, stack.buttons[i]) {
            proof {
                assert(stack@.buttons[i as int] != stack.shown);
            }
            return true;
        }
        i += 1;
    }
    false
}

impl Grouping {
    /// Works out which buttons to mark as urgent, given which windows' buttons in the row are marked,
    /// and which in the flyout. Each stack is marked if any of its hidden windows is urgent, since
    /// their own urgency can't be seen, and a window marked urgent by a notification, which only
    /// reaches the bar's button, is passed along to the flyout's.
    pub fn update_urgency(&self, urgent: &Vec<u64>, marked: &Vec<u64>) -> (r: Urgency)
        ensures
            if self@.enabled {
                &&& r.flyout@ == match (self@.flyout, self@.open_stack()) {
                    (Some(flyout), Some(k)) => passed_along(
                        flyout.order,
                        self@.all[k].buttons,
                        urgent@,
                        marked@,
                        flyout.order.len() as int,
                    ),
                    _ => Seq::empty(),
                }
                &&& r.stacks@ == marks_of(self@, urgent@, self@.all.len() as int)
            } else {
                r.flyout@ == Seq::<u64>::empty() && r.stacks@ == Seq::<(u64, bool)>::empty()
            },
            r.stacks@ == self@.urgent_stacks(urgent@),
    {
        let mut along: Vec<u64> = Vec::new();
        let mut stacks: Vec<(u64, bool)> = Vec::new();
        if !self.enabled {
            return Urgency { flyout: along, stacks };
        }
        if let Some(flyout) = &self.flyout {
            if let Some(k) = self.find_open() {
                let buttons = &self.all[k].buttons;
                let mut i: usize = 0;
                while i < flyout.order.len()
                    invariant
                        i <= flyout.order@.len(),
                        along@ == passed_along(
                            flyout.order@,
                            buttons@,
                            urgent@,
                            marked@,
                            i as int,
                        ),
                    decreases flyout.order@.len() - i,
                {
                    let id: u64 = flyout.order[i];
                    if is_in(buttons, id) && is_in(urgent, id) && !is_in(marked, id) {
                        along.push(id);
                    }
                    i += 1;
                }
            }
        }
        let mut n: usize = 0;
        while n < self.all.len()
            invariant
                n <= self.all@.len(),
                self@.all.len() == self.all@.len(),
                stacks@ == marks_of(self@, urgent@, n as int),
            decreases self.all@.len() - n,
        {
            let stack = &self.all[n];
            if self.is_used(n) && stack.contains(stack.shown) {
                stacks.push((stack.shown, any_hidden_urgent(stack, urgent)));
            }
            n += 1;
        }
        Urgency { flyout: along, stacks }
    }

    /// Lists the stacks in use that are shut and have a button for the window they show, by that
    /// window, with how many cards peek out from behind it and how many windows have buttons.
    pub fn shut_stacks(&self) -> (r: Vec<(u64, usize, usize)>)
        ensures
            r@ == shut_of(self@, self@.all.len() as int),
    {
        let mut r: Vec<(u64, usize, usize)> = Vec::new();
        let mut n: usize = 0;
        while n < self.all.len()
            invariant
                n <= self.all@.len(),
                self@.all.len() == self.all@.len(),
                r@ == shut_of(self@, n as int),
            decreases self.all@.len() - n,
        {
            let stack = &self.all[n];
            let open: bool = match &self.flyout {
                Some(flyout) => flyout.shown == stack.shown,
                None => false,
            };
            if self.is_used(n) && !open && stack.contains(stack.shown) {
                r.push((stack.shown, stack.cards(), stack.buttons.len()));
            }
            n += 1;
        }
        r
    }
}

/// The first stacks that are in use, shut, and have a button for the window they show, by that
/// window, with how many cards peek out from behind it and how many windows have buttons.
pub open spec fn shut_of(view: GroupingView, n: int) -> Seq<(u64, usize, usize)>
    decreases n,
{
    if n <= 0 {
        Seq::empty()
    } else {
        let rest = shut_of(view, n - 1);
        let stack = view.all[n - 1];
        if view.in_use(n - 1) && view.open() != Some(stack.shown) && stack.buttons.contains(
            stack.shown,
        ) {
            rest.push((stack.shown, card_count(stack) as usize, stack.buttons.len() as usize))
        } else {
            rest
        }
    }
}

/// A stack keeps showing the same window for as long as its flyout is open.
pub proof fn law_open_stack_keeps_its_window(
    open: u64,
    focused_at: Map<u64, u64>,
    members: Seq<Member>,
)
    requires
        member_ids(members).contains(open),
    ensures
        shown_of(Some(open), focused_at, members) == open,
{
}

/// Shutting the flyout leaves none open and no timer running, and keeps everything it doesn't have
/// to change.
pub proof fn law_closing_shuts(view: GroupingView)
    ensures
        view.closing().flyout is None,
        view.closing().timer is None,
        view.closing().hovered == view.hovered,
        view.closing().focused_at == view.focused_at,
        view.closing().closing() == view.closing(),
        view.closing().closed() is None,
{
}

/// A flyout that's built again has just its stack's windows, with those that were in it before in
/// the order they were in, and any newcomers after them.
pub proof fn law_flyout_keeps_its_order(members: Seq<Member>, order: Seq<u64>)
    requires
        members.len() <= usize::MAX,
    ensures
        flyout_order(members, order).to_multiset() == member_ids(members).to_multiset(),
        forall|i: int, j: int|
            0 <= i < j < flyout_order(members, order).len() ==> rank_in(
                order,
                #[trigger] flyout_order(members, order)[i],
            ) <= rank_in(order, #[trigger] flyout_order(members, order)[j]),
{
    let all = in_place(members.len());
    let le = follows(members, order);
    let at = sorted(all, le);
    let f = |i: usize| members[i as int].id;
    law_sorted_in_order(all, le);
    law_sorted_rearranges(all, le);
    lemma_sorted_len(all, le);
    at.to_multiset_ensures();
    lemma_map_multiset(at, all, f);
    assert(all.map_values(f) =~= member_ids(members));
    assert forall|i: int, j: int| 0 <= i < j < flyout_order(members, order).len() implies rank_in(
        order,
        #[trigger] flyout_order(members, order)[i],
    ) <= rank_in(order, #[trigger] flyout_order(members, order)[j]) by {
        assert(le(at[i], at[j]));
    }
}

/// Rearranging places rearranges what's at them.
proof fn lemma_map_multiset(a: Seq<usize>, b: Seq<usize>, f: spec_fn(usize) -> u64)
    requires
        a.to_multiset() == b.to_multiset(),
    ensures
        a.map_values(f).to_multiset() == b.map_values(f).to_multiset(),
    decreases a.len(),
{
    broadcast use vstd::seq_lib::group_to_multiset_ensures;

    assert(a.len() == a.to_multiset().len());
    assert(b.len() == b.to_multiset().len());
    if a.len() == 0 {
        assert(a.map_values(f) =~= b.map_values(f));
    } else {
        let x = a.last();
        assert(a[a.len() - 1] == x);
        assert(a.contains(x));
        assert(b.to_multiset().count(x) > 0);
        assert(b.contains(x));
        let k = choose|k: int| 0 <= k < b.len() && b[k] == x;
        let rest = b.remove(k);
        assert(a.drop_last().push(x) =~= a);
        assert(a.to_multiset() =~= a.drop_last().to_multiset().insert(x));
        assert(rest.to_multiset() =~= b.to_multiset().remove(x));
        assert(rest.insert(k, x) =~= b);
        assert(b.to_multiset() =~= rest.to_multiset().insert(x));
        assert(a.drop_last().to_multiset() =~= rest.to_multiset());
        lemma_map_multiset(a.drop_last(), rest, f);
        assert(a.map_values(f) =~= a.drop_last().map_values(f).push(f(x)));
        assert(b.map_values(f) =~= rest.map_values(f).insert(k, f(x)));
        assert(a.map_values(f).to_multiset() =~= a.drop_last().map_values(f).to_multiset().insert(
            f(x),
        ));
        assert(b.map_values(f).to_multiset() =~= rest.map_values(f).to_multiset().insert(f(x)));
    }
}

/// Every stack has at least two windows, all of the one column, and shows the first of them.
pub proof fn law_stacks_share_a_column(windows: Seq<Window>, buttons: Seq<bool>, i: int, k: int)
    requires
        0 <= i <= windows.len(),
        0 <= k < stacks_from(windows, buttons, i).len(),
    ensures
        ({
            let stack = stacks_from(windows, buttons, i)[k];
            &&& stack.windows.len() >= 2
            &&& stack.windows[0].id == stack.shown
            &&& exists|a: int, b: int|
                0 <= a < b <= windows.len() && #[trigger] stack_from(windows, buttons, a, b) == stack
                    && forall|m: int|
                    a <= m < b ==> column_of(#[trigger] windows[m]) == column_of(windows[a]) && column_of(
                        windows[m],
                    ) is Some
        }),
    decreases windows.len() - i,
{
    if i < windows.len() {
        lemma_first_from(windows.len() as int, i, other_column(windows, i));
        let len = run_len(windows, i);
        if len > 1 {
            if k == 0 {
                let stack = stack_from(windows, buttons, i, i + len);
                assert(stacks_from(windows, buttons, i)[0] == stack);
                assert forall|m: int| i <= m < i + len implies column_of(#[trigger] windows[m])
                    == column_of(windows[i]) && column_of(windows[m]) is Some by {
                    assert(!other_column(windows, i)(m));
                }
            } else {
                law_stacks_share_a_column(windows, buttons, i + len, k - 1);
                assert(stacks_from(windows, buttons, i)[k] == stacks_from(windows, buttons, i + len)[k
                    - 1]);
            }
        } else {
            law_stacks_share_a_column(windows, buttons, i + 1, k);
        }
    }
}

/// Whether a window is in a stack.
pub open spec fn holds_window(stack: StackView, id: u64) -> bool {
    exists|i: int| 0 <= i < stack.windows.len() && (#[trigger] stack.windows[i]).id == id
}

proof fn lemma_with_members(map: Map<u64, usize>, members: Seq<Member>, k: usize, n: int, id: u64)
    requires
        0 <= n <= members.len(),
    ensures
        ({
            let within = exists|i: int| 0 <= i < n && (#[trigger] members[i]).id == id;
            let after = with_members(map, members, k, n);
            &&& within ==> after.contains_key(id) && after[id] == k
            &&& !within ==> after.contains_key(id) == map.contains_key(id)
            &&& !within && map.contains_key(id) ==> after[id] == map[id]
        }),
    decreases n,
{
    if n > 0 {
        lemma_with_members(map, members, k, n - 1, id);
        if members[n - 1].id != id && exists|i: int| 0 <= i < n && (#[trigger] members[i]).id == id {
            let i = choose|i: int| 0 <= i < n && (#[trigger] members[i]).id == id;
            assert(i < n - 1);
        }
    }
}

proof fn lemma_membership(all: Seq<StackView>, n: int, id: u64)
    requires
        0 <= n <= all.len() <= usize::MAX,
    ensures
        membership(all, n).contains_key(id) <==> exists|k: int|
            0 <= k < n && #[trigger] holds_window(all[k], id),
        membership(all, n).contains_key(id) ==> membership(all, n)[id] < n && holds_window(
            all[membership(all, n)[id] as int],
            id,
        ),
    decreases n,
{
    if n > 0 {
        lemma_membership(all, n - 1, id);
        let last = all[n - 1];
        lemma_with_members(
            membership(all, n - 1),
            last.windows,
            (n - 1) as usize,
            last.windows.len() as int,
            id,
        );
        assert(holds_window(last, id) <==> exists|i: int|
            0 <= i < last.windows.len() && (#[trigger] last.windows[i]).id == id);
        if membership(all, n - 1).contains_key(id) {
            assert(holds_window(all[membership(all, n - 1)[id] as int], id));
        }
    }
}

proof fn lemma_stack_windows(windows: Seq<Window>, buttons: Seq<bool>, i: int, k: int, id: u64)
    requires
        0 <= i <= windows.len(),
        0 <= k < stacks_from(windows, buttons, i).len(),
        holds_window(stacks_from(windows, buttons, i)[k], id),
    ensures
        exists|x: int| i <= x < windows.len() && (#[trigger] windows[x]).id == id,
    decreases windows.len() - i,
{
    if i < windows.len() {
        lemma_first_from(windows.len() as int, i, other_column(windows, i));
        let len = run_len(windows, i);
        let all = stacks_from(windows, buttons, i);
        if len > 1 {
            if k == 0 {
                let stack = stack_from(windows, buttons, i, i + len);
                assert(all[0] == stack);
                let m = choose|m: int| 0 <= m < stack.windows.len() && (#[trigger] stack.windows[m]).id == id;
                assert(stack.windows[m] == member_of(windows[i + m]));
            } else {
                assert(all[k] == stacks_from(windows, buttons, i + len)[k - 1]);
                lemma_stack_windows(windows, buttons, i + len, k - 1, id);
            }
        } else {
            lemma_stack_windows(windows, buttons, i + 1, k, id);
        }
    }
}

proof fn lemma_stacks_apart(
    windows: Seq<Window>,
    buttons: Seq<bool>,
    i: int,
    j: int,
    k: int,
    id: u64,
)
    requires
        0 <= i <= windows.len(),
        distinct(windows),
        0 <= j < k < stacks_from(windows, buttons, i).len(),
        holds_window(stacks_from(windows, buttons, i)[j], id),
    ensures
        !holds_window(stacks_from(windows, buttons, i)[k], id),
    decreases windows.len() - i,
{
    if i < windows.len() {
        lemma_first_from(windows.len() as int, i, other_column(windows, i));
        let len = run_len(windows, i);
        let all = stacks_from(windows, buttons, i);
        if len > 1 {
            let rest = stacks_from(windows, buttons, i + len);
            assert(all[k] == rest[k - 1]);
            if j == 0 {
                let stack = stack_from(windows, buttons, i, i + len);
                assert(all[0] == stack);
                let m = choose|m: int| 0 <= m < stack.windows.len() && (#[trigger] stack.windows[m]).id == id;
                assert(stack.windows[m] == member_of(windows[i + m]));
                if holds_window(all[k], id) {
                    lemma_stack_windows(windows, buttons, i + len, k - 1, id);
                    let x = choose|x: int|
                        i + len <= x < windows.len() && (#[trigger] windows[x]).id == id;
                    assert(windows[i + m].id != windows[x].id);
                }
            } else {
                assert(all[j] == rest[j - 1]);
                lemma_stacks_apart(windows, buttons, i + len, j - 1, k - 1, id);
            }
        } else {
            lemma_stacks_apart(windows, buttons, i + 1, j, k, id);
        }
    }
}

proof fn lemma_stack_count(windows: Seq<Window>, buttons: Seq<bool>, i: int)
    requires
        0 <= i <= windows.len(),
    ensures
        stacks_from(windows, buttons, i).len() <= windows.len() - i,
    decreases windows.len() - i,
{
    if i < windows.len() {
        lemma_first_from(windows.len() as int, i, other_column(windows, i));
        let len = run_len(windows, i);
        if len > 1 {
            lemma_stack_count(windows, buttons, i + len);
        } else {
            lemma_stack_count(windows, buttons, i + 1);
        }
    }
}

/// Once the stacks have been worked out, a window is in a stack just where the stack holds it, and
/// scrolling stops at the window the stack shows for every one of its windows. A window in no stack
/// is its own stop.
pub proof fn law_stacks_share_a_stop(
    view: GroupingView,
    windows: Seq<Window>,
    buttons: Seq<bool>,
    k: int,
    id: u64,
)
    requires
        windows.len() <= usize::MAX,
        distinct(windows),
    ensures
        ({
            let after = view.restacked(windows, buttons);
            &&& 0 <= k < after.all.len() && holds_window(after.all[k], id) ==> after.stack_of(id)
                == Some(k) && after.stop_for(id) == after.all[k].shown
            &&& (forall|j: int| 0 <= j < after.all.len() ==> !#[trigger] holds_window(after.all[j], id))
                ==> after.stack_of(id) is None && after.stop_for(id) == id
        }),
{
    let after = view.restacked(windows, buttons);
    let all = after.all;
    lemma_stack_count(windows, buttons, 0);
    lemma_membership(all, all.len() as int, id);
    if 0 <= k < all.len() && holds_window(all[k], id) {
        let other = after.stacks[id] as int;
        if other < k {
            lemma_stacks_apart(windows, buttons, 0, other, k, id);
        } else if k < other {
            lemma_stacks_apart(windows, buttons, 0, k, other, id);
        }
    }
}

/// Once the stacks have been worked out, the window that scrolling stops at for any window is its
/// own stop.
pub proof fn law_stops_stay_put(view: GroupingView, windows: Seq<Window>, buttons: Seq<bool>, id: u64)
    requires
        windows.len() <= usize::MAX,
        distinct(windows),
    ensures
        ({
            let after = view.restacked(windows, buttons);
            after.stop_for(after.stop_for(id)) == after.stop_for(id)
        }),
{
    let after = view.restacked(windows, buttons);
    let all = after.all;
    lemma_stack_count(windows, buttons, 0);
    lemma_membership(all, all.len() as int, id);
    if let Some(k) = after.stack_of(id) {
        law_stacks_share_a_column(windows, buttons, 0, k);
        assert(all[k].windows[0].id == all[k].shown);
        assert(holds_window(all[k], all[k].shown));
        law_stacks_share_a_stop(view, windows, buttons, k, all[k].shown);
    }
}

/// Whether a window is the one that has the focus in a snapshot: the first that's focused.
pub open spec fn has_focus(windows: Seq<Window>, id: u64) -> bool {
    exists|i: int|
        0 <= i < windows.len() && (#[trigger] windows[i]).id == id && windows[i].is_focused && (forall|
            j: int,
        |
            0 <= j < i ==> !(#[trigger] windows[j]).is_focused)
}

/// The last of some snapshots in which a window has the focus, counted from one, or zero where it
/// has it in none.
pub open spec fn last_had(snapshots: Seq<Seq<Window>>, id: u64) -> nat
    decreases snapshots.len(),
{
    if snapshots.len() == 0 {
        0
    } else if has_focus(snapshots.last(), id) {
        snapshots.len()
    } else {
        last_had(snapshots.drop_last(), id)
    }
}

/// The state once the focused window has been noted in each of some snapshots in turn.
pub open spec fn noted_in_turn(view: GroupingView, snapshots: Seq<Seq<Window>>) -> GroupingView
    decreases snapshots.len(),
{
    if snapshots.len() == 0 {
        view
    } else {
        noted_in_turn(view, snapshots.drop_last()).noted(snapshots.last())
    }
}

/// Whether no focus has been noted yet.
pub open spec fn is_fresh(view: GroupingView) -> bool {
    &&& view.focused_at == Map::<u64, u64>::empty()
    &&& view.focus_count == 0
    &&& view.last_focused is None
}

/// Whether a window's mark says it was focused after another was, or that the other never was.
pub open spec fn marked_after(focused_at: Map<u64, u64>, a: u64, b: u64) -> bool {
    focused_at.contains_key(a) && (!focused_at.contains_key(b) || focused_at[b] < focused_at[a])
}

/// Whether no mark is past the count of focus changes, and the window noted last has the latest.
pub open spec fn marks_in_step(view: GroupingView) -> bool {
    &&& forall|id: u64| #[trigger]
        view.focused_at.contains_key(id) ==> 1 <= view.focused_at[id] <= view.focus_count
    &&& view.last_focused is None ==> view.focused_at == Map::<u64, u64>::empty()
    &&& forall|id: u64|
        view.last_focused is Some && id != view.last_focused->0 ==> #[trigger] marked_after(
            view.focused_at,
            view.last_focused->0,
            id,
        )
}

proof fn lemma_has_focus(windows: Seq<Window>)
    ensures
        ({
            let i = first_from(windows.len() as int, 0, focused(windows));
            forall|id: u64| #[trigger]
                has_focus(windows, id) == (0 <= i < windows.len() && windows[i].id == id)
        }),
{
    let stop = focused(windows);
    let i = first_from(windows.len() as int, 0, stop);
    lemma_first_from(windows.len() as int, 0, stop);
    assert forall|id: u64| #[trigger] has_focus(windows, id) == (0 <= i < windows.len() && windows[i].id
        == id) by {
        if has_focus(windows, id) {
            let k = choose|k: int|
                0 <= k < windows.len() && (#[trigger] windows[k]).id == id && windows[k].is_focused && (
                forall|j: int| 0 <= j < k ==> !(#[trigger] windows[j]).is_focused);
            assert(stop(k));
            assert(i <= k);
            assert(i < windows.len() ==> stop(i));
            assert(i == k);
        }
        if i < windows.len() && windows[i].id == id {
            assert(stop(i));
            assert forall|j: int| 0 <= j < i implies !(#[trigger] windows[j]).is_focused by {
                assert(!stop(j));
            }
        }
    }
}

/// Right after a snapshot in which a window has the focus, that window has a later mark than every
/// other, whichever had one before.
pub proof fn law_focused_window_has_the_latest_mark(
    view: GroupingView,
    windows: Seq<Window>,
    id: u64,
    other: u64,
)
    requires
        marks_in_step(view),
        view.focus_count < u64::MAX,
        has_focus(windows, id),
        other != id,
    ensures
        marks_in_step(view.noted(windows)),
        marked_after(view.noted(windows).focused_at, id, other),
        view.noted(windows).last_focused == Some(id),
        view.focused_at.contains_key(other) ==> view.noted(windows).focused_at.contains_key(other)
            && view.noted(windows).focused_at[other] == view.focused_at[other],
{
    lemma_has_focus(windows);
    let after = view.noted(windows);
    if view.last_focused != Some(id) {
        assert forall|x: u64| x != id implies #[trigger] marked_after(after.focused_at, id, x) by {
            if view.focused_at.contains_key(x) {
                assert(view.focused_at[x] <= view.focus_count);
            }
        }
    } else {
        assert(marked_after(view.focused_at, view.last_focused->0, other));
    }
}

/// A snapshot in which no window has the focus, or the one that had it before still has it, changes
/// nothing about which window was focused when.
pub proof fn law_keeping_the_focus_changes_nothing(view: GroupingView, windows: Seq<Window>)
    requires
        forall|id: u64| #[trigger] has_focus(windows, id) ==> view.last_focused == Some(id),
    ensures
        view.noted(windows) == view,
{
    lemma_has_focus(windows);
    let i = first_from(windows.len() as int, 0, focused(windows));
    if i < windows.len() {
        lemma_first_from(windows.len() as int, 0, focused(windows));
        assert(has_focus(windows, windows[i].id));
    }
}

proof fn lemma_history(view: GroupingView, snapshots: Seq<Seq<Window>>)
    requires
        is_fresh(view),
        snapshots.len() < u64::MAX,
    ensures
        ({
            let after = noted_in_turn(view, snapshots);
            &&& marks_in_step(after)
            &&& after.focus_count <= snapshots.len()
            &&& forall|a: u64| #[trigger]
                after.focused_at.contains_key(a) <==> last_had(snapshots, a) > 0
            &&& forall|a: u64, b: u64|
                last_had(snapshots, a) > last_had(snapshots, b) ==> #[trigger] marked_after(
                    after.focused_at,
                    a,
                    b,
                )
            &&& after.flyout == view.flyout
        }),
    decreases snapshots.len(),
{
    if snapshots.len() > 0 {
        let earlier = snapshots.drop_last();
        let windows = snapshots.last();
        let before = noted_in_turn(view, earlier);
        let after = noted_in_turn(view, snapshots);
        lemma_history(view, earlier);
        lemma_has_focus(windows);
        lemma_last_had(earlier);
        let i = first_from(windows.len() as int, 0, focused(windows));
        if i < windows.len() {
            lemma_first_from(windows.len() as int, 0, focused(windows));
            let id = windows[i].id;
            assert(has_focus(windows, id));
            assert forall|x: u64| x != id implies last_had(snapshots, x) == #[trigger] last_had(
                earlier,
                x,
            ) by {
                assert(!has_focus(windows, x));
            }
            assert(last_had(snapshots, id) == snapshots.len());
            assert forall|x: u64| x != id implies #[trigger] marked_after(after.focused_at, id, x) by {
                law_focused_window_has_the_latest_mark(before, windows, id, x);
            }
            let another: u64 = if id == 0 {
                1
            } else {
                0
            };
            law_focused_window_has_the_latest_mark(before, windows, id, another);
            assert forall|a: u64, b: u64|
                last_had(snapshots, a) > last_had(snapshots, b) implies #[trigger] marked_after(
                after.focused_at,
                a,
                b,
            ) by {
                if a != id {
                    assert(last_had(snapshots, a) == last_had(earlier, a));
                    if b != id {
                        assert(last_had(snapshots, b) == last_had(earlier, b));
                        assert(marked_after(before.focused_at, a, b));
                    }
                }
            }
            assert forall|a: u64| #[trigger]
                after.focused_at.contains_key(a) <==> last_had(snapshots, a) > 0 by {
                if a != id {
                    assert(before.focused_at.contains_key(a) <==> last_had(earlier, a) > 0);
                    assert(last_had(snapshots, a) == last_had(earlier, a));
                } else {
                    assert(marked_after(after.focused_at, id, another));
                }
            }
        } else {
            assert forall|x: u64| last_had(snapshots, x) == #[trigger] last_had(earlier, x) by {
                assert(!has_focus(windows, x));
            }
            assert(after == before);
            assert forall|a: u64, b: u64|
                last_had(snapshots, a) > last_had(snapshots, b) implies #[trigger] marked_after(
                after.focused_at,
                a,
                b,
            ) by {
                assert(last_had(snapshots, a) == last_had(earlier, a));
                assert(last_had(snapshots, b) == last_had(earlier, b));
            }
            assert forall|a: u64| #[trigger]
                after.focused_at.contains_key(a) <==> last_had(snapshots, a) > 0 by {
                assert(last_had(snapshots, a) == last_had(earlier, a));
            }
        }
    }
}

proof fn lemma_last_had(snapshots: Seq<Seq<Window>>)
    ensures
        forall|id: u64| #[trigger] last_had(snapshots, id) <= snapshots.len(),
    decreases snapshots.len(),
{
    if snapshots.len() > 0 {
        lemma_last_had(snapshots.drop_last());
        assert forall|id: u64| #[trigger] last_had(snapshots, id) <= snapshots.len() by {
            assert(last_had(snapshots.drop_last(), id) <= snapshots.drop_last().len());
        }
    }
}

/// Over any run of snapshots, a window that had the focus later than another has the later mark.
pub proof fn law_marks_follow_the_focus(
    view: GroupingView,
    snapshots: Seq<Seq<Window>>,
    a: u64,
    b: u64,
)
    requires
        is_fresh(view),
        snapshots.len() < u64::MAX,
        last_had(snapshots, a) > last_had(snapshots, b),
    ensures
        marked_after(noted_in_turn(view, snapshots).focused_at, a, b),
        last_focus(noted_in_turn(view, snapshots).focused_at, a) > last_focus(
            noted_in_turn(view, snapshots).focused_at,
            b,
        ),
{
    lemma_history(view, snapshots);
    assert(marked_after(noted_in_turn(view, snapshots).focused_at, a, b));
}

/// While its flyout is shut and none of its windows is focused, a stack shows whichever of its
/// windows had the focus most recently.
pub proof fn law_shut_stack_shows_the_latest(
    view: GroupingView,
    snapshots: Seq<Seq<Window>>,
    members: Seq<Member>,
    k: int,
)
    requires
        is_fresh(view),
        view.flyout is None,
        snapshots.len() < u64::MAX,
        0 <= k < members.len(),
        forall|i: int| 0 <= i < members.len() ==> !(#[trigger] members[i]).is_focused,
        forall|i: int|
            0 <= i < members.len() && i != k ==> last_had(snapshots, members[k].id) > last_had(
                snapshots,
                (#[trigger] members[i]).id,
            ),
    ensures
        ({
            let after = noted_in_turn(view, snapshots);
            shown_of(after.open(), after.focused_at, members) == members[k].id
        }),
{
    let after = noted_in_turn(view, snapshots);
    lemma_history(view, snapshots);
    law_shown_window_has_the_best_claim(after.focused_at, members, members.len() as int);
    let b = best_of(after.focused_at, members, members.len() as int);
    assert(claim_le(after.focused_at, members[k], members[b]));
    if b != k {
        law_marks_follow_the_focus(view, snapshots, members[k].id, members[b].id);
    }
}

/// While its flyout is shut, a stack shows a window of its own: one that's focused, if any is, then
/// one that was focused no earlier than the others, and the topmost of those.
pub proof fn law_shut_stack_shows_its_best(
    open: Option<u64>,
    focused_at: Map<u64, u64>,
    members: Seq<Member>,
)
    requires
        members.len() > 0,
        open is Some ==> forall|i: int| 0 <= i < members.len() ==> (#[trigger] members[i]).id != open->0,
    ensures
        exists|b: int|
            0 <= b < members.len() && (#[trigger] members[b]).id == shown_of(open, focused_at, members)
                && forall|i: int|
                #![trigger members[i]]
                0 <= i < members.len() ==> {
                    let (m, best) = (members[i], members[b]);
                    &&& m.is_focused ==> best.is_focused
                    &&& m.is_focused == best.is_focused ==> !marked_later(focused_at, m.id, best.id)
                    &&& m.is_focused == best.is_focused && !marked_later(focused_at, best.id, m.id)
                        ==> match (m.position, best.position) {
                        (Some(a), Some(c)) => c.0 < a.0 || (c.0 == a.0 && c.1 <= a.1),
                        (Some(_), None) => true,
                        (None, Some(_)) => false,
                        (None, None) => true,
                    }
                },
{
    let b = best_of(focused_at, members, members.len() as int);
    law_shown_window_has_the_best_claim(focused_at, members, members.len() as int);
    if open is Some {
        assert(!member_ids(members).contains(open->0)) by {
            if member_ids(members).contains(open->0) {
                let i = choose|i: int| 0 <= i < members.len() && member_ids(members)[i] == open->0;
                assert(members[i].id == open->0);
            }
        }
    }
    assert(members[b].id == shown_of(open, focused_at, members));
    assert forall|i: int| #![trigger members[i]] 0 <= i < members.len() implies claim_le(
        focused_at,
        members[i],
        members[b],
    ) by {}
}

/// Whether a window was focused, and later than another was, with a mark of zero standing for never.
pub open spec fn marked_later(focused_at: Map<u64, u64>, a: u64, b: u64) -> bool {
    &&& focused_at.contains_key(a)
    &&& focused_at[a] > 0
    &&& focused_at.contains_key(b) ==> focused_at[a] > focused_at[b]
}

/// Whether two windows are tiled in the same column of the same workspace.
pub open spec fn share_column(a: Window, b: Window) -> bool {
    match (a.position, b.position) {
        (Some(p), Some(q)) => a.workspace == b.workspace && p.0 == q.0,
        _ => false,
    }
}

/// Whether a window is the first of those it shares a column with, itself included.
pub open spec fn heads(windows: Seq<Window>, j: int, i: int) -> bool {
    &&& 0 <= j <= i
    &&& j == i || share_column(windows[j], windows[i])
    &&& forall|k: int| 0 <= k < j ==> !share_column(#[trigger] windows[k], windows[i])
}

proof fn lemma_share_column(a: Window, b: Window)
    ensures
        share_column(a, b) == (column_of(a) is Some && column_of(a) == column_of(b)),
{
}

/// Whether values only go up.
spec fn climbs(s: Seq<usize>) -> bool {
    forall|i: int, j: int| 0 <= i < j < s.len() ==> #[trigger] s[i] < #[trigger] s[j]
}

proof fn lemma_kept_climbs(s: Seq<usize>, p: spec_fn(usize) -> bool)
    requires
        climbs(s),
    ensures
        climbs(kept(s, p)),
        kept(s, p).len() > 0 ==> s.len() > 0 && kept(s, p).last() <= s.last(),
    decreases s.len(),
{
    if s.len() > 0 {
        let rest = s.drop_last();
        assert(climbs(rest)) by {
            assert forall|i: int, j: int| 0 <= i < j < rest.len() implies #[trigger] rest[i]
                < #[trigger] rest[j] by {
                assert(s[i] < s[j]);
            }
        }
        lemma_kept_climbs(rest, p);
        let few = kept(rest, p);
        let all = kept(s, p);
        if few.len() > 0 {
            assert(s[s.len() - 2] < s[s.len() - 1]);
        }
        if p(s.last()) {
            assert forall|i: int, j: int| 0 <= i < j < all.len() implies #[trigger] all[i]
                < #[trigger] all[j] by {
                if j < few.len() {
                    assert(few[i] < few[j]);
                } else if i < few.len() - 1 {
                    assert(few[i] < few[few.len() - 1]);
                }
            }
        }
    }
}

proof fn lemma_column_climbs(windows: Seq<Window>, key: (u64, usize), n: int)
    requires
        0 <= n <= windows.len() <= usize::MAX,
    ensures
        climbs(column_at(windows, key, n)),
        forall|k: int|
            0 <= k < column_at(windows, key, n).len() ==> #[trigger] column_at(windows, key, n)[k] < n,
    decreases n,
{
    if n > 0 {
        lemma_column_climbs(windows, key, n - 1);
    }
}

/// Whether the windows of a row are in turn: by where the first window of their column is, and
/// within a column with the shown one first and the others as they were.
spec fn in_turn(view: GroupingView, windows: Seq<Window>, order: Seq<usize>, p: int, q: int) -> bool {
    let (i, j) = (order[p] as int, order[q] as int);
    if share_column(windows[i], windows[j]) {
        let shown = shown_of(
            view.open(),
            view.focused_at,
            members_at(windows, stack_at(windows, column_of(windows[i])->0)),
        );
        windows[i].id == shown || (windows[j].id != shown && i < j)
    } else {
        forall|a: int, b: int|
            #![trigger heads(windows, a, i), heads(windows, b, j)]
            heads(windows, a, i) && heads(windows, b, j) ==> a < b
    }
}

proof fn lemma_heads(windows: Seq<Window>, i: int)
    requires
        0 <= i < windows.len(),
    ensures
        exists|j: int| #[trigger] heads(windows, j, i),
{
    lemma_leader(windows, i);
    let j = choose|j: int|
        0 <= j <= i && leads(windows, j) && column_of(#[trigger] windows[j]) == column_of(windows[i]);
    lemma_share_column(windows[j], windows[i]);
    if column_of(windows[i]) is Some {
        assert forall|k: int| 0 <= k < j implies !share_column(#[trigger] windows[k], windows[i]) by {
            lemma_share_column(windows[k], windows[i]);
        }
        assert(heads(windows, j, i));
    } else {
        assert forall|k: int| 0 <= k < i implies !share_column(#[trigger] windows[k], windows[i]) by {
            lemma_share_column(windows[k], windows[i]);
        }
        assert(heads(windows, i, i));
    }
}

proof fn lemma_head_is(windows: Seq<Window>, h: int, i: int, j: int)
    requires
        0 <= h < windows.len(),
        leads(windows, h),
        heads(windows, j, i),
        0 <= i < windows.len(),
        i == h || (column_of(windows[h]) is Some && column_of(windows[h]) == column_of(windows[i])),
        h <= i,
    ensures
        j == h,
{
    lemma_share_column(windows[h], windows[i]);
    lemma_share_column(windows[j], windows[i]);
    if j < h {
        assert(column_of(windows[j]) != column_of(windows[h]));
        if j != i {
            assert(share_column(windows[j], windows[i]));
        }
    } else if h < j {
        assert(!share_column(windows[h], windows[i]));
    }
}

proof fn lemma_order_in_turn(view: GroupingView, windows: Seq<Window>, n: int)
    requires
        0 <= n <= windows.len() <= usize::MAX,
    ensures
        ({
            let order = order_after(view, windows, n);
            &&& forall|p: int|
                0 <= p < order.len() ==> #[trigger] order[p] < windows.len() && forall|a: int| #[trigger]
                    heads(windows, a, order[p] as int) ==> a < n
            &&& forall|p: int, q: int|
                0 <= p < q < order.len() ==> #[trigger] in_turn(view, windows, order, p, q)
        }),
    decreases n,
{
    if n > 0 {
        lemma_order_in_turn(view, windows, n - 1);
        let rest = order_after(view, windows, n - 1);
        let order = order_after(view, windows, n);
        let h = n - 1;
        assert(forall|p: int| 0 <= p < rest.len() ==> #[trigger] order[p] == rest[p]);
        if !stacked(windows, h) {
            assert forall|a: int| #[trigger] heads(windows, a, h) implies a == h by {
                lemma_share_column(windows[a], windows[h]);
                if a != h {
                    let key = column_of(windows[h])->0;
                    lemma_column_at(windows, key, windows.len() as int);
                    let at = stack_at(windows, key);
                    assert(at.contains(a as usize) && at.contains(h as usize));
                    let x = choose|x: int| 0 <= x < at.len() && at[x] == a as usize;
                    let y = choose|y: int| 0 <= y < at.len() && at[y] == h as usize;
                    assert(x != y);
                }
            }
            assert forall|p: int, q: int| 0 <= p < q < order.len() implies #[trigger] in_turn(
                view,
                windows,
                order,
                p,
                q,
            ) by {
                if q < rest.len() {
                    assert(in_turn(view, windows, rest, p, q));
                } else {
                    let i = order[p] as int;
                    lemma_share_column(windows[i], windows[h]);
                    lemma_heads(windows, i);
                    let a = choose|a: int| #[trigger] heads(windows, a, i);
                    assert(heads(windows, a, rest[p] as int));
                    if share_column(windows[i], windows[h]) {
                        let key = column_of(windows[h])->0;
                        lemma_column_at(windows, key, windows.len() as int);
                        let at = stack_at(windows, key);
                        assert(at.contains(i as usize) && at.contains(h as usize));
                        let x = choose|x: int| 0 <= x < at.len() && at[x] == i as usize;
                        let y = choose|y: int| 0 <= y < at.len() && at[y] == h as usize;
                        if x != y {
                            assert(at.len() > 1);
                        } else {
                            assert(i == h);
                            assert(heads(windows, a, h));
                        }
                    }
                }
            }
        } else if leads(windows, h) {
            let key = column_of(windows[h])->0;
            let stack = stack_order(view, windows, key);
            let at = stack_at(windows, key);
            let shown = shown_of(view.open(), view.focused_at, members_at(windows, at));
            let (first, others) = (
                kept(at, holds(windows, shown)),
                kept(at, holds_another(windows, shown)),
            );
            lemma_stack_order(view, windows, key);
            lemma_column_climbs(windows, key, windows.len() as int);
            lemma_kept_climbs(at, holds(windows, shown));
            lemma_kept_climbs(at, holds_another(windows, shown));
            assert forall|p: int| rest.len() <= p < order.len() implies #[trigger] order[p]
                < windows.len() && column_of(windows[order[p] as int]) == Some(key) && (forall|a: int|
             #[trigger]
                heads(windows, a, order[p] as int) ==> a == h) by {
                assert(order[p] == stack[p - rest.len()]);
                assert(stack.contains(order[p]));
                let i = order[p] as int;
                if i < h {
                    assert(column_of(windows[i]) != column_of(windows[h]));
                }
                assert forall|a: int| #[trigger] heads(windows, a, i) implies a == h by {
                    lemma_head_is(windows, h, i, a);
                }
            }
            assert forall|p: int, q: int| 0 <= p < q < order.len() implies #[trigger] in_turn(
                view,
                windows,
                order,
                p,
                q,
            ) by {
                let (i, j) = (order[p] as int, order[q] as int);
                lemma_share_column(windows[i], windows[j]);
                if q < rest.len() {
                    assert(in_turn(view, windows, rest, p, q));
                } else if p < rest.len() {
                    lemma_heads(windows, i);
                    let a = choose|a: int| #[trigger] heads(windows, a, i);
                    assert(heads(windows, a, rest[p] as int));
                    if share_column(windows[i], windows[j]) {
                        if i < h {
                            assert(column_of(windows[i]) != column_of(windows[h]));
                        }
                        lemma_head_is(windows, h, i, a);
                    }
                } else {
                    let (x, y) = (p - rest.len(), q - rest.len());
                    assert(order[p] == stack[x] && order[q] == stack[y]);
                    if x < first.len() {
                        assert(first.contains(stack[x])) by {
                            assert(first[x] == stack[x]);
                        }
                        lemma_kept_contains(at, holds(windows, shown), stack[x]);
                    } else {
                        let (x, y) = (x - first.len(), y - first.len());
                        assert(others[x] < others[y]);
                        assert(others.contains(others[y]));
                        lemma_kept_contains(at, holds_another(windows, shown), others[y]);
                    }
                }
            }
        }
    }
}

/// In the row, windows of different columns, and those in none, are in the order that the first
/// windows of their columns are given in. Of two windows in the same column, the one that the stack
/// shows comes first, and others stay in the order they're given in.
pub proof fn law_row_keeps_its_order(view: GroupingView, windows: Seq<Window>, p: int, q: int)
    requires
        windows.len() <= usize::MAX,
        0 <= p < q < order_after(view, windows, windows.len() as int).len(),
    ensures
        ({
            let order = order_after(view, windows, windows.len() as int);
            let (i, j) = (order[p] as int, order[q] as int);
            &&& share_column(windows[i], windows[j]) ==> {
                let shown = shown_of(
                    view.open(),
                    view.focused_at,
                    members_at(windows, stack_at(windows, column_of(windows[i])->0)),
                );
                windows[i].id == shown || (windows[j].id != shown && i < j)
            }
            &&& !share_column(windows[i], windows[j]) ==> forall|a: int, b: int|
                #![trigger heads(windows, a, i), heads(windows, b, j)]
                heads(windows, a, i) && heads(windows, b, j) ==> a < b
        }),
{
    lemma_order_in_turn(view, windows, windows.len() as int);
    assert(in_turn(view, windows, order_after(view, windows, windows.len() as int), p, q));
}

/// The windows that compete to be shown for a column are just those in it, with what the snapshot
/// says of them.
pub proof fn law_columns_are_whole(windows: Seq<Window>, i: int, j: int)
    requires
        0 <= i < windows.len() <= usize::MAX,
        0 <= j < windows.len(),
        windows[i].position is Some,
    ensures
        ({
            let at = stack_at(windows, column_of(windows[i])->0);
            let members = members_at(windows, at);
            &&& at.contains(j as usize) == share_column(windows[i], windows[j])
            &&& members.len() == at.len()
            &&& forall|k: int|
                #![trigger members[k]]
                0 <= k < members.len() ==> {
                    &&& members[k].id == windows[at[k] as int].id
                    &&& members[k].is_focused == windows[at[k] as int].is_focused
                    &&& members[k].is_urgent == windows[at[k] as int].is_urgent
                    &&& members[k].position == windows[at[k] as int].position
                }
        }),
{
    lemma_column_at(windows, column_of(windows[i])->0, windows.len() as int);
    lemma_share_column(windows[i], windows[j]);
}

proof fn lemma_whole_runs(windows: Seq<Window>, buttons: Seq<bool>, i: int, k: int)
    requires
        0 <= i <= windows.len(),
        0 < i < windows.len() ==> !share_column(windows[i - 1], windows[i]),
        0 <= k < stacks_from(windows, buttons, i).len(),
    ensures
        is_whole_run(windows, buttons, stacks_from(windows, buttons, i)[k]),
    decreases windows.len() - i,
{
    if i < windows.len() {
        lemma_first_from(windows.len() as int, i, other_column(windows, i));
        let len = run_len(windows, i);
        let stop = other_column(windows, i);
        if len > 1 {
            let b = i + len;
            assert forall|m: int| i <= m < b implies share_column(windows[i], #[trigger] windows[m]) by {
                assert(!stop(m));
                lemma_share_column(windows[i], windows[m]);
            }
            if b < windows.len() {
                assert(stop(b));
                lemma_share_column(windows[b - 1], windows[b]);
                assert(share_column(windows[i], windows[b - 1]));
            }
            if k == 0 {
                let stack = stack_from(windows, buttons, i, b);
                assert(stacks_from(windows, buttons, i)[0] == stack);
                lemma_buttons_in(windows, buttons, i, b);
                assert(is_run(windows, buttons, stack, i, b));
            } else {
                lemma_whole_runs(windows, buttons, b, k - 1);
                assert(stacks_from(windows, buttons, i)[k] == stacks_from(windows, buttons, b)[k - 1]);
            }
        } else {
            if i + 1 < windows.len() {
                lemma_share_column(windows[i], windows[i + 1]);
                assert(column_of(windows[i]) is Some ==> stop(first_from(windows.len() as int, i, stop)));
                assert(!stop(i));
            }
            lemma_whole_runs(windows, buttons, i + 1, k);
        }
    }
}

proof fn lemma_buttons_in(windows: Seq<Window>, buttons: Seq<bool>, i: int, j: int)
    requires
        0 <= i <= j <= windows.len(),
    ensures
        forall|id: u64| #[trigger]
            buttons_in(windows, buttons, i, j).contains(id) <==> exists|m: int|
                i <= m < j && buttons[m] && (#[trigger] windows[m]).id == id,
    decreases j - i,
{
    if i < j {
        lemma_buttons_in(windows, buttons, i, j - 1);
        let rest = buttons_in(windows, buttons, i, j - 1);
        lemma_push_contains(rest, windows[j - 1].id);
        assert forall|id: u64| #[trigger]
            buttons_in(windows, buttons, i, j).contains(id) <==> exists|m: int|
            i <= m < j && buttons[m] && (#[trigger] windows[m]).id == id by {
            assert(rest.contains(id) <==> exists|m: int|
                i <= m < j - 1 && buttons[m] && (#[trigger] windows[m]).id == id);
            if exists|m: int| i <= m < j && buttons[m] && (#[trigger] windows[m]).id == id {
                let m = choose|m: int| i <= m < j && buttons[m] && (#[trigger] windows[m]).id == id;
                if m < j - 1 {
                    assert(windows[m].id == id);
                }
            }
            if rest.contains(id) {
                let m = choose|m: int|
                    i <= m < j - 1 && buttons[m] && (#[trigger] windows[m]).id == id;
                assert(windows[m].id == id);
            }
            if buttons[j - 1] && windows[j - 1].id == id {
                assert(windows[j - 1].id == id);
            }
        }
    }
}

/// Whether a stack is of the windows from `a` up to `b`, all of which share a column that neither of
/// their neighbours is in.
pub open spec fn is_run(
    windows: Seq<Window>,
    buttons: Seq<bool>,
    stack: StackView,
    a: int,
    b: int,
) -> bool {
    &&& 0 <= a && a + 1 < b <= windows.len()
    &&& forall|m: int| a <= m < b ==> share_column(windows[a], #[trigger] windows[m])
    &&& a > 0 ==> !share_column(windows[a - 1], windows[a])
    &&& b < windows.len() ==> !share_column(windows[b - 1], windows[b])
    &&& stack.shown == windows[a].id
    &&& stack.windows.len() == b - a
    &&& forall|m: int|
        #![trigger stack.windows[m]]
        0 <= m < b - a ==> {
            &&& stack.windows[m].id == windows[a + m].id
            &&& stack.windows[m].is_focused == windows[a + m].is_focused
            &&& stack.windows[m].is_urgent == windows[a + m].is_urgent
            &&& stack.windows[m].position == windows[a + m].position
        }
    &&& forall|id: u64| #[trigger]
        stack.buttons.contains(id) <==> exists|m: int|
            a <= m < b && buttons[m] && (#[trigger] windows[m]).id == id
}

/// Whether a stack is of all the windows in a row that share a column, two or more.
pub open spec fn is_whole_run(windows: Seq<Window>, buttons: Seq<bool>, stack: StackView) -> bool {
    exists|a: int, b: int| #[trigger] is_run(windows, buttons, stack, a, b)
}

/// Every stack is of all the windows in a row that share a column, shows the first of them, and has
/// a button for each of them that has one.
pub proof fn law_stacks_are_whole(view: GroupingView, windows: Seq<Window>, buttons: Seq<bool>, k: int)
    requires
        0 <= k < view.restacked(windows, buttons).all.len(),
    ensures
        is_whole_run(windows, buttons, view.restacked(windows, buttons).all[k]),
{
    lemma_whole_runs(windows, buttons, 0, k);
}

proof fn lemma_pairs_stack(windows: Seq<Window>, buttons: Seq<bool>, i: int, x: int) -> (k: int)
    requires
        0 <= i <= x,
        x + 1 < windows.len(),
        share_column(windows[x], windows[x + 1]),
    ensures
        0 <= k < stacks_from(windows, buttons, i).len(),
        holds_window(stacks_from(windows, buttons, i)[k], windows[x].id),
        holds_window(stacks_from(windows, buttons, i)[k], windows[x + 1].id),
    decreases windows.len() - i,
{
    lemma_first_from(windows.len() as int, i, other_column(windows, i));
    let len = run_len(windows, i);
    let stop = other_column(windows, i);
    lemma_share_column(windows[x], windows[x + 1]);
    if len > 1 {
        if x < i + len {
            let stack = stack_from(windows, buttons, i, i + len);
            assert(stacks_from(windows, buttons, i)[0] == stack);
            assert(!stop(x));
            if x + 1 >= i + len {
                assert(stop(x + 1));
            }
            assert(stack.windows[x - i].id == windows[x].id);
            assert(stack.windows[x + 1 - i].id == windows[x + 1].id);
            0
        } else {
            let k = lemma_pairs_stack(windows, buttons, i + len, x);
            assert(stacks_from(windows, buttons, i)[k + 1] == stacks_from(windows, buttons, i + len)[k]);
            k + 1
        }
    } else {
        if x == i {
            assert(!stop(i));
            assert(!stop(i + 1));
        }
        lemma_pairs_stack(windows, buttons, i + 1, x)
    }
}

/// Two windows next to each other that share a column are in the same stack.
pub proof fn law_neighbours_stack(view: GroupingView, windows: Seq<Window>, buttons: Seq<bool>, x: int)
    requires
        windows.len() <= usize::MAX,
        distinct(windows),
        0 <= x,
        x + 1 < windows.len(),
        share_column(windows[x], windows[x + 1]),
    ensures
        ({
            let after = view.restacked(windows, buttons);
            &&& after.stack_of(windows[x].id) is Some
            &&& after.stack_of(windows[x].id) == after.stack_of(windows[x + 1].id)
        }),
{
    let k = lemma_pairs_stack(windows, buttons, 0, x);
    law_stacks_share_a_stop(view, windows, buttons, k, windows[x].id);
    law_stacks_share_a_stop(view, windows, buttons, k, windows[x + 1].id);
}

/// Nothing but a snapshot's focus changes which window was focused when.
pub proof fn law_marks_are_kept(
    view: GroupingView,
    windows: Seq<Window>,
    buttons: Seq<bool>,
    k: int,
    shown: u64,
    order: Seq<u64>,
)
    ensures
        same_marks(view, view.restacked(windows, buttons)),
        same_marks(view, view.reshowing(k)),
        same_marks(view, view.closing()),
        same_marks(view, view.cleared_for(k)),
        same_marks(view, view.opened(k, shown, order)),
        same_marks(view, view.untimed()),
        same_marks(view, view.scoped(Some(k))),
        same_marks(view, view.scoped(None)),
{
}

/// Whether two states agree on which window was focused when.
pub open spec fn same_marks(a: GroupingView, b: GroupingView) -> bool {
    a.focused_at == b.focused_at && a.focus_count == b.focus_count && a.last_focused == b.last_focused
}

proof fn lemma_changes(view: GroupingView, n: int, change: Change)
    requires
        0 <= n <= view.all.len(),
    ensures
        changes_of(view, n).contains(change) <==> exists|k: int|
            0 <= k < n && #[trigger] view.in_use(k) && stack_changes(view.all[k]).contains(change),
    decreases n,
{
    if n > 0 {
        lemma_changes(view, n - 1, change);
        let rest = changes_of(view, n - 1);
        let all = changes_of(view, n);
        let more = stack_changes(view.all[n - 1]);
        if view.in_use(n - 1) {
            assert(all == rest + more);
            if all.contains(change) {
                let i = choose|i: int| 0 <= i < all.len() && all[i] == change;
                if i < rest.len() {
                    assert(rest[i] == change);
                } else {
                    assert(more[i - rest.len()] == change);
                    assert(view.in_use(n - 1) && more.contains(change));
                }
            }
            if rest.contains(change) {
                let i = choose|i: int| 0 <= i < rest.len() && rest[i] == change;
                assert(all[i] == change);
            }
            if more.contains(change) {
                let i = choose|i: int| 0 <= i < more.len() && more[i] == change;
                assert(all[rest.len() + i] == change);
            }
        }
        if rest.contains(change) {
            let k = choose|k: int|
                0 <= k < n - 1 && #[trigger] view.in_use(k) && stack_changes(view.all[k]).contains(change);
            assert(view.in_use(k));
        }
    }
}

/// Of a stack's buttons, the one it shows is to be at the front, with one card behind it for each of
/// the others, though no more than two, and the others are to be at the back. There's nothing to do
/// to any other button.
pub proof fn law_one_button_is_in_front(
    view: GroupingView,
    windows: Seq<Window>,
    buttons: Seq<bool>,
    change: Change,
)
    requires
        windows.len() <= usize::MAX,
        distinct(windows),
    ensures
        ({
            let after = view.restacked(windows, buttons);
            changes_of(after, after.all.len() as int).contains(change) <==> exists|k: int|
                0 <= k < after.all.len() && {
                    let stack = #[trigger] after.all[k];
                    match change {
                        Change::Front { id, cards } => {
                            &&& stack.buttons.contains(id)
                            &&& id == stack.shown
                            &&& cards == if stack.buttons.len() == 1 {
                                0int
                            } else if stack.buttons.len() == 2 {
                                1
                            } else {
                                2
                            }
                        },
                        Change::Back { id } => stack.buttons.contains(id) && id != stack.shown,
                    }
                }
        }),
{
    let after = view.restacked(windows, buttons);
    lemma_changes(after, after.all.len() as int, change);
    let id = match change {
        Change::Front { id, cards: _ } => id,
        Change::Back { id } => id,
    };
    assert forall|k: int| 0 <= k < after.all.len() implies #[trigger] after.in_use(k) && (stack_changes(
        after.all[k],
    ).contains(change) <==> after.all[k].buttons.contains(id) && change == change_for(
        after.all[k],
        id,
    )) by {
        let stack = after.all[k];
        law_stacks_share_a_column(windows, buttons, 0, k);
        assert(stack.windows[0].id == stack.shown);
        assert(holds_window(stack, stack.shown));
        law_stacks_share_a_stop(view, windows, buttons, k, stack.shown);
        assert(after.in_use(k));
        let changes = stack_changes(stack);
        if changes.contains(change) {
            let i = choose|i: int| 0 <= i < changes.len() && changes[i] == change;
            assert(changes[i] == change_for(stack, stack.buttons[i]));
            assert(stack.buttons[i] == id);
        }
        if stack.buttons.contains(id) && change == change_for(stack, id) {
            let i = choose|i: int| 0 <= i < stack.buttons.len() && stack.buttons[i] == id;
            assert(changes[i] == change);
        }
    }
    if changes_of(after, after.all.len() as int).contains(change) {
        let k = choose|k: int|
            0 <= k < after.all.len() && #[trigger] after.in_use(k) && stack_changes(
                after.all[k],
            ).contains(change);
        assert(after.all[k].buttons.contains(id));
    }
    if exists|k: int|
        0 <= k < after.all.len() && {
            let stack = #[trigger] after.all[k];
            match change {
                Change::Front { id, cards } => {
                    &&& stack.buttons.contains(id)
                    &&& id == stack.shown
                    &&& cards == if stack.buttons.len() == 1 {
                        0int
                    } else if stack.buttons.len() == 2 {
                        1
                    } else {
                        2
                    }
                },
                Change::Back { id } => stack.buttons.contains(id) && id != stack.shown,
            }
        } {
        let k = choose|k: int|
            0 <= k < after.all.len() && {
                let stack = #[trigger] after.all[k];
                match change {
                    Change::Front { id, cards } => {
                        &&& stack.buttons.contains(id)
                        &&& id == stack.shown
                        &&& cards == if stack.buttons.len() == 1 {
                            0int
                        } else if stack.buttons.len() == 2 {
                            1
                        } else {
                            2
                        }
                    },
                    Change::Back { id } => stack.buttons.contains(id) && id != stack.shown,
                }
            };
        assert(after.in_use(k));
        assert(after.all[k].buttons.len() > 0);
        assert(change == change_for(after.all[k], id));
    }
}

/// A stack's button is marked as urgent just if one of the stack's other buttons is for a window
/// that's urgent.
pub proof fn law_stacks_pass_on_urgency(view: GroupingView, urgent: Seq<u64>, n: int, id: u64, mark: bool)
    requires
        0 <= n <= view.all.len(),
    ensures
        marks_of(view, urgent, n).contains((id, mark)) <==> exists|k: int|
            0 <= k < n && #[trigger] view.in_use(k) && view.all[k].shown == id
                && view.all[k].buttons.contains(id) && mark == exists|other: u64|
                other != id && view.all[k].buttons.contains(other) && #[trigger] urgent.contains(other),
    decreases n,
{
    if n > 0 {
        law_stacks_pass_on_urgency(view, urgent, n - 1, id, mark);
        let rest = marks_of(view, urgent, n - 1);
        let stack = view.all[n - 1];
        lemma_push_contains(rest, (stack.shown, hides_urgent(stack, urgent)));
        let other_urgent = exists|other: u64|
            other != stack.shown && stack.buttons.contains(other) && #[trigger] urgent.contains(other);
        assert(hides_urgent(stack, urgent) == other_urgent) by {
            if hides_urgent(stack, urgent) {
                let i = choose|i: int|
                    0 <= i < stack.buttons.len() && (#[trigger] stack.buttons[i]) != stack.shown
                        && urgent.contains(stack.buttons[i]);
                assert(urgent.contains(stack.buttons[i]));
            }
            if other_urgent {
                let other = choose|other: u64|
                    other != stack.shown && stack.buttons.contains(other) && #[trigger] urgent.contains(other);
                let i = choose|i: int| 0 <= i < stack.buttons.len() && stack.buttons[i] == other;
                assert(stack.buttons[i] != stack.shown);
            }
        }
        assert(marks_of(view, urgent, n).contains((id, mark)) <==> rest.contains((id, mark)) || (
        view.in_use(n - 1) && stack.buttons.contains(stack.shown) && id == stack.shown && mark
            == other_urgent));
        if rest.contains((id, mark)) {
            let k = choose|k: int|
                0 <= k < n - 1 && #[trigger] view.in_use(k) && view.all[k].shown == id
                    && view.all[k].buttons.contains(id) && mark == exists|other: u64|
                    other != id && view.all[k].buttons.contains(other) && #[trigger] urgent.contains(other);
            assert(view.in_use(k));
        }
    }
}

/// The flyout's buttons to mark as urgent are those whose windows' buttons in the row are, and that
/// aren't marked yet.
pub proof fn law_flyout_is_told_of_urgency(
    order: Seq<u64>,
    buttons: Seq<u64>,
    urgent: Seq<u64>,
    marked: Seq<u64>,
    n: int,
    id: u64,
)
    requires
        0 <= n <= order.len(),
    ensures
        passed_along(order, buttons, urgent, marked, n).contains(id) <==> {
            &&& order.take(n).contains(id)
            &&& buttons.contains(id)
            &&& urgent.contains(id)
            &&& !marked.contains(id)
        },
    decreases n,
{
    if n > 0 {
        law_flyout_is_told_of_urgency(order, buttons, urgent, marked, n - 1, id);
        lemma_push_contains(passed_along(order, buttons, urgent, marked, n - 1), order[n - 1]);
        lemma_take_contains(order, n - 1);
        assert(order.take(n - 1 + 1).contains(id) <==> order.take(n - 1).contains(id) || id == order[n
            - 1]);
    }
}

/// The stacks that have their cards drawn are those in use that aren't open and have a button for
/// the window they show, with one card for each of the other buttons, though no more than two.
pub proof fn law_shut_stacks_have_cards(view: GroupingView, n: int, id: u64, cards: usize, count: usize)
    requires
        0 <= n <= view.all.len(),
        forall|k: int| 0 <= k < n ==> (#[trigger] view.all[k]).buttons.len() <= usize::MAX,
    ensures
        shut_of(view, n).contains((id, cards, count)) <==> exists|k: int|
            0 <= k < n && #[trigger] view.in_use(k) && {
                let stack = view.all[k];
                &&& stack.shown == id
                &&& stack.buttons.contains(id)
                &&& !(view.flyout is Some && view.flyout->0.shown == id)
                &&& count == stack.buttons.len()
                &&& cards == if count <= 3 {
                    count - 1
                } else {
                    2
                }
            },
    decreases n,
{
    if n > 0 {
        law_shut_stacks_have_cards(view, n - 1, id, cards, count);
        let rest = shut_of(view, n - 1);
        let stack = view.all[n - 1];
        lemma_push_contains(
            rest,
            (stack.shown, card_count(stack) as usize, stack.buttons.len() as usize),
        );
        if rest.contains((id, cards, count)) {
            let k = choose|k: int|
                0 <= k < n - 1 && #[trigger] view.in_use(k) && {
                    let stack = view.all[k];
                    &&& stack.shown == id
                    &&& stack.buttons.contains(id)
                    &&& !(view.flyout is Some && view.flyout->0.shown == id)
                    &&& count == stack.buttons.len()
                    &&& cards == if count <= 3 {
                        count - 1
                    } else {
                        2
                    }
                };
            assert(view.in_use(k));
        }
    }
}

/// Scrolling stops at the stop of every window, and at nothing else, and never at the same one twice
/// in a row.
pub proof fn law_every_window_has_a_stop(view: GroupingView, windows: Seq<u64>, n: int)
    requires
        0 <= n <= windows.len(),
    ensures
        ({
            let stops = stops_after(view, windows, n);
            &&& forall|i: int| 0 <= i < n ==> stops.contains(view.stop_for(#[trigger] windows[i]))
            &&& forall|k: int|
                0 <= k < stops.len() ==> exists|i: int|
                    0 <= i < n && view.stop_for(#[trigger] windows[i]) == #[trigger] stops[k]
            &&& forall|j: int, k: int|
                0 <= j && k == j + 1 && k < stops.len() ==> #[trigger] stops[j] != #[trigger] stops[k]
            &&& n > 0 ==> stops.len() > 0 && stops.last() == view.stop_for(windows[n - 1]) && stops[0]
                == view.stop_for(windows[0])
            &&& forall|m: int| 0 <= m < n ==> #[trigger] stops_after(view, windows, m).is_prefix_of(stops)
        }),
    decreases n,
{
    if n > 0 {
        law_every_window_has_a_stop(view, windows, n - 1);
        let rest = stops_after(view, windows, n - 1);
        let stops = stops_after(view, windows, n);
        let stop = view.stop_for(windows[n - 1]);
        lemma_push_contains(rest, stop);
        assert(stops.len() == rest.len() || stops == rest.push(stop));
        assert(stops[stops.len() - 1] == stop);
        assert(stops.contains(stop));
        assert forall|k: int| 0 <= k < stops.len() implies exists|i: int|
            0 <= i < n && view.stop_for(#[trigger] windows[i]) == #[trigger] stops[k] by {
            if k < rest.len() {
                assert(stops[k] == rest[k]);
                let i = choose|i: int| 0 <= i < n - 1 && view.stop_for(#[trigger] windows[i]) == rest[k];
                assert(view.stop_for(windows[i]) == stops[k]);
            } else {
                assert(view.stop_for(windows[n - 1]) == stops[k]);
            }
        }
        assert(rest.is_prefix_of(stops));
        assert forall|m: int| 0 <= m < n implies #[trigger] stops_after(view, windows, m).is_prefix_of(
            stops,
        ) by {
            if m < n - 1 {
                let few = stops_after(view, windows, m);
                assert(few.is_prefix_of(rest));
                assert(few =~= stops.subrange(0, few.len() as int));
            }
        }
    }
}

/// The focus pill in a flyout is on the first of the stack's windows that's focused, if the flyout
/// has a button for it.
pub proof fn law_flyout_shows_the_focus(order: Seq<u64>, members: Seq<Member>, i: int)
    requires
        0 <= i < members.len(),
        members[i].is_focused,
        forall|j: int| 0 <= j < i ==> !(#[trigger] members[j]).is_focused,
    ensures
        order.contains(members[i].id) ==> flyout_focus(order, members) == Some(members[i].id),
        !order.contains(members[i].id) ==> flyout_focus(order, members) is None,
{
    let stop = focused_member(members);
    lemma_first_from(members.len() as int, 0, stop);
    let k = first_from(members.len() as int, 0, stop);
    assert(stop(i));
    if k < i {
        assert(stop(k));
    }
}

/// There's no focus pill in a flyout where none of the stack's windows is focused.
pub proof fn law_unfocused_flyout_has_no_pill(order: Seq<u64>, members: Seq<Member>)
    requires
        forall|j: int| 0 <= j < members.len() ==> !(#[trigger] members[j]).is_focused,
    ensures
        flyout_focus(order, members) is None,
{
    let stop = focused_member(members);
    lemma_first_from(members.len() as int, 0, stop);
    let k = first_from(members.len() as int, 0, stop);
    if k < members.len() {
        assert(stop(k));
    }
}

/// A flyout's buttons are in the order they were in before, with newcomers after them in the order
/// the stack has them in.
pub proof fn law_newcomers_go_on_the_end(members: Seq<Member>, order: Seq<u64>, p: int, q: int)
    requires
        members.len() <= usize::MAX,
        order.len() <= usize::MAX,
        0 <= p < q < flyout_order(members, order).len(),
    ensures
        ({
            let (a, b) = (flyout_order(members, order)[p], flyout_order(members, order)[q]);
            &&& order.contains(b) ==> order.contains(a) && order.index_of_first(a)->0
                <= order.index_of_first(b)->0
            &&& !order.contains(a) ==> !order.contains(b) && exists|i: int, j: int|
                0 <= i < j < members.len() && (#[trigger] members[i]).id == a && (
                #[trigger] members[j]).id == b
        }),
{
    let all = in_place(members.len());
    let le = follows(members, order);
    let at = sorted(all, le);
    let earlier = |a: usize, b: usize| a < b;
    assert(total_preorder(le));
    assert(in_order(all, earlier)) by {
        assert forall|i: int, j: int| 0 <= i < j < all.len() implies earlier(
            #[trigger] all[i],
            #[trigger] all[j],
        ) by {
            assert(all[i] == i && all[j] == j);
        }
    }
    law_sorted_is_stable(all, le, earlier);
    lemma_sorted_len(all, le);
    lemma_sorted_from(all, le, p);
    lemma_sorted_from(all, le, q);
    let (x, y) = (at[p], at[q]);
    let i = choose|i: int| 0 <= i < all.len() && all[i] == x;
    let j = choose|j: int| 0 <= j < all.len() && all[j] == y;
    assert(all[i] == i && all[j] == j);
    let (a, b) = (members[x as int].id, members[y as int].id);
    assert(flyout_order(members, order)[p] == a && flyout_order(members, order)[q] == b);
    assert(le(x, y));
    if order.contains(a) {
        order.index_of_first_ensures(a);
    }
    if order.contains(b) {
        order.index_of_first_ensures(b);
    }
    if !order.contains(a) && !order.contains(b) {
        assert(le(y, x));
        assert(earlier(x, y));
        assert(members[i].id == a && members[j].id == b);
    }
}

proof fn lemma_with_ids(map: Map<u64, usize>, ids: Seq<u64>, k: usize, n: int, id: u64)
    requires
        0 <= n <= ids.len(),
    ensures
        ids.take(n).contains(id) ==> with_ids(map, ids, k, n).contains_key(id) && with_ids(map, ids, k, n)[id]
            == k,
        !ids.take(n).contains(id) ==> with_ids(map, ids, k, n).contains_key(id) == map.contains_key(id)
            && (map.contains_key(id) ==> with_ids(map, ids, k, n)[id] == map[id]),
    decreases n,
{
    if n > 0 {
        lemma_with_ids(map, ids, k, n - 1, id);
        lemma_take_contains(ids, n - 1);
        assert(ids.take(n - 1 + 1).contains(id) <==> ids.take(n - 1).contains(id) || id == ids[n - 1]);
    }
}

proof fn lemma_fronted_ids(ids: Seq<u64>, id: u64)
    requires
        ids.contains(id),
    ensures
        ids_fronted(ids, id)[0] == id,
        forall|x: u64| #[trigger] ids_fronted(ids, id).contains(x) <==> ids.contains(x),
{
    let (first, rest) = (kept(ids, same_id(id)), without(ids, id));
    lemma_kept_contains(ids, same_id(id), id);
    let k = choose|k: int| 0 <= k < first.len() && first[k] == id;
    assert(first.contains(first[0]));
    lemma_kept_contains(ids, same_id(id), first[0]);
    assert forall|x: u64| #[trigger] (first + rest).contains(x) <==> ids.contains(x) by {
        lemma_kept_contains(ids, same_id(id), x);
        lemma_kept_contains(ids, other_than(id), x);
        if (first + rest).contains(x) {
            let i = choose|i: int| 0 <= i < (first + rest).len() && (first + rest)[i] == x;
            if i < first.len() {
                assert(first[i] == x);
            } else {
                assert(rest[i - first.len()] == x);
            }
        }
        if first.contains(x) {
            let i = choose|i: int| 0 <= i < first.len() && first[i] == x;
            assert((first + rest)[i] == x);
        }
        if rest.contains(x) {
            let i = choose|i: int| 0 <= i < rest.len() && rest[i] == x;
            assert((first + rest)[first.len() + i] == x);
        }
    }
}

/// When a stack comes to show another of its windows, scrolling stops at that window for all of the
/// stack's buttons, the stack keeps all of its buttons, with that window's first, and other windows
/// are where they were. The button that showed gives way to the new one.
pub proof fn law_stack_shows_another(view: GroupingView, k: int, id: u64)
    requires
        0 <= k < view.all.len() < usize::MAX,
        view.stacks.contains_key(id) ==> view.stacks[id] < view.all.len(),
        view.all[k].buttons.contains(view.all[k].shown),
        view.all[k].buttons.contains(
            shown_of(view.open(), view.focused_at, view.all[k].windows),
        ),
        shown_of(view.open(), view.focused_at, view.all[k].windows) != view.all[k].shown,
    ensures
        ({
            let best = shown_of(view.open(), view.focused_at, view.all[k].windows);
            let stack = view.all[k];
            let after = view.reshowing(k);
            &&& stack.buttons.contains(id) ==> after.stop_for(id) == best
            &&& !stack.buttons.contains(id) ==> after.stop_for(id) == view.stop_for(id)
            &&& after.all.len() == view.all.len() + 1
            &&& after.all.last().shown == best
            &&& after.all.last().buttons[0] == best
            &&& after.all.last().buttons.contains(id) == stack.buttons.contains(id)
            &&& view.reshown(k).swap == Some(
                Swap {
                    from: stack.shown,
                    to: best,
                    cards: if stack.buttons.len() <= 3 {
                        (stack.buttons.len() - 1) as usize
                    } else {
                        2
                    },
                },
            )
            &&& view.reshown(k).collapse == Some(best)
            &&& !view.reshown(k).stuck
        }),
{
    let best = shown_of(view.open(), view.focused_at, view.all[k].windows);
    let stack = stack_showing(view.all[k], best);
    lemma_fronted_ids(view.all[k].buttons, best);
    lemma_with_ids(
        view.stacks,
        stack.buttons,
        view.all.len() as usize,
        stack.buttons.len() as int,
        id,
    );
    assert(stack.buttons.take(stack.buttons.len() as int) =~= stack.buttons);
    assert(view.reshowing(k).all.last() == stack);
    assert(stack.buttons.contains(id) == view.all[k].buttons.contains(id));
    if view.stacks.contains_key(id) && view.stacks[id] < view.all.len() {
        assert(view.reshowing(k).all[view.stacks[id] as int] == view.all[view.stacks[id] as int]);
    }
}

/// Where a stack already shows the window it should, or has no button for one of them, nothing
/// changes hands.
pub proof fn law_stack_stays_as_it_is(view: GroupingView, k: int)
    ensures
        ({
            let best = shown_of(view.open(), view.focused_at, view.all[k].windows);
            let stack = view.all[k];
            &&& best == stack.shown ==> {
                &&& view.reshowing(k) == view
                &&& view.reshown(k).swap is None
                &&& !view.reshown(k).stuck
                &&& stack.buttons.contains(best) ==> view.reshown(k).collapse == Some(best)
                &&& !stack.buttons.contains(best) ==> view.reshown(k).collapse is None
            }
            &&& best != stack.shown && !(stack.buttons.contains(best) && stack.buttons.contains(
                stack.shown,
            )) ==> {
                &&& view.reshowing(k) == view
                &&& view.reshown(k).swap is None
                &&& view.reshown(k).collapse is None
                &&& view.reshown(k).stuck
            }
        }),
{
}

/// Scrolling over a stack goes along its flyout while one of the flyout's buttons is the stack's,
/// and otherwise through the stack's windows, in the order it has them in.
pub proof fn law_scrolling_keeps_to_the_stack(view: GroupingView, k: int, i: int)
    requires
        0 <= k < view.all.len(),
    ensures
        ({
            let stack = view.all[k];
            let scope = view.scoped(Some(k)).scope;
            &&& scope is Some
            &&& view.flyout is None ==> scope->0.len() == stack.windows.len() && (0 <= i
                < stack.windows.len() ==> scope->0[i] == stack.windows[i].id)
            &&& view.flyout is Some && 0 <= i < view.flyout->0.order.len() && stack.buttons.contains(
                view.flyout->0.order[i],
            ) ==> scope->0 == view.flyout->0.order
            &&& view.flyout is Some && (forall|j: int|
                0 <= j < view.flyout->0.order.len() ==> !stack.buttons.contains(
                    #[trigger] view.flyout->0.order[j],
                )) ==> scope->0.len() == stack.windows.len() && (0 <= i < stack.windows.len()
                ==> scope->0[i] == stack.windows[i].id)
        }),
        view.scoped(None).scope is None,
{
    if view.flyout is Some && 0 <= i < view.flyout->0.order.len() && view.all[k].buttons.contains(
        view.flyout->0.order[i],
    ) {
        assert(shares(view.flyout->0.order, view.all[k].buttons));
    }
}

/// Shutting a flyout has its stack show the window that then has the best claim, whichever that is
/// with no flyout open.
pub proof fn law_shutting_settles_the_stack(view: GroupingView, k: int, id: u64)
    requires
        view.flyout is Some,
        view.stack_of(view.flyout->0.shown) == Some(k),
        view.all.len() < usize::MAX,
        view.all[k].buttons.contains(view.all[k].shown),
        view.all[k].buttons.contains(shown_of(None, view.focused_at, view.all[k].windows)),
        view.all[k].buttons.contains(id),
        view.stack_of(id) == Some(k),
    ensures
        view.closing().stop_for(id) == shown_of(None, view.focused_at, view.all[k].windows),
        view.closing().flyout is None,
        view.closed() matches Some(closed) ==> closed.shown == view.flyout->0.shown
            && closed.reshown is Some,
        view.closed() is Some,
{
    let best = shown_of(None, view.focused_at, view.all[k].windows);
    let shut = view.without_flyout();
    assert(shut.open() is None);
    assert(shut.all == view.all);
    if best != view.all[k].shown {
        law_stack_shows_another(shut, k, id);
    }
}

/// The pointer resting on a stack for 200 milliseconds opens it, as long as it's not open. Coming onto
/// a stack that's open calls off whatever the timer was for. Coming onto a button in no stack shuts
/// the flyout that's open in 300 milliseconds. None of it happens during a drag.
pub proof fn law_resting_opens_a_stack(view: GroupingView, window: u64)
    ensures
        view.entered(window, true) == (view, TimerStep::Keep),
        ({
            let (after, step) = view.entered(window, false);
            let stack = view.stack_of(window);
            let open = view.flyout is Some && view.stack_of(view.flyout->0.shown) is Some;
            let own = open && view.stack_of(view.flyout->0.shown) == stack;
            &&& after.hovered == Some(window)
            &&& after.flyout == view.flyout && after.all == view.all && after.stacks == view.stacks
            &&& stack is Some && !own ==> step == TimerStep::Start(200) && after.due() == Due::Open(
                stack->0,
            )
            &&& stack is Some && own ==> step == TimerStep::Cancel && after.due() == Due::Nothing
            &&& stack is None && open ==> step == TimerStep::Start(300) && after.due() == Due::Close
            &&& stack is None && !open ==> step == TimerStep::Keep && after.timer == view.timer
            &&& stack is None ==> after.scope is None
            &&& stack is Some ==> after.scope is Some
        }),
{
}

/// The pointer going off a button shuts the flyout that's open in 300 milliseconds, unless the pointer
/// is over one of its stack's buttons by then. With none open, it calls off whatever the timer was
/// for, so sweeping across a stack doesn't open it.
pub proof fn law_leaving_shuts_a_stack(view: GroupingView, window: u64, other: u64)
    ensures
        ({
            let (after, step) = view.left(window);
            &&& view.flyout is Some ==> step == TimerStep::Start(300) && after.timer == Some(
                Timer::CloseUnlessOver,
            )
            &&& view.flyout is None ==> step == TimerStep::Cancel && after.timer is None && after.due()
                == Due::Nothing
            &&& view.hovered == Some(window) ==> after.hovered is None && after.scope is None
            &&& view.hovered != Some(window) ==> after.hovered == view.hovered && after.scope
                == view.scope
            &&& view.hovered == Some(window) && view.flyout is Some ==> after.due() == Due::Close
            &&& after.flyout == view.flyout && after.all == view.all && after.stacks == view.stacks
        }),
        view.flyout is None ==> view.entered(window, false).0.left(window).0.due() == Due::Nothing,
        ({
            let after = view.left(window).0.entered(other, false).0;
            view.flyout is Some && view.stack_of(view.flyout->0.shown) is Some && view.stack_of(other)
                == view.stack_of(view.flyout->0.shown) ==> after.due() == Due::Nothing
        }),
{
}

/// While the pointer is over one of the open stack's buttons, a timer that was to shut the flyout
/// unless it is does nothing, and shuts it otherwise.
pub proof fn law_hovering_keeps_a_stack_open(view: GroupingView)
    requires
        view.timer == Some(Timer::CloseUnlessOver),
    ensures
        ({
            let k = match view.flyout {
                Some(flyout) => view.stack_of(flyout.shown),
                None => None,
            };
            let over = k is Some && view.hovered is Some && view.all[k->0].buttons.contains(
                view.hovered->0,
            );
            &&& over ==> view.due() == Due::Nothing
            &&& !over ==> view.due() == Due::Close
        }),
{
}

/// A flyout is left alone as long as it has as many buttons as its stack has windows and one for each
/// of them. It's made again where it doesn't, and shut where its stack is gone.
pub proof fn law_flyouts_keep_up(view: GroupingView, flyout: FlyoutView, k: int)
    requires
        view.flyout == Some(flyout),
    ensures
        view.stack_of(flyout.shown) is None ==> view.stale() == Stale::Gone,
        view.stack_of(flyout.shown) == Some(k) ==> {
            let ids = member_ids(view.all[k].windows);
            &&& flyout.order.len() == ids.len() && (forall|i: int|
                0 <= i < ids.len() ==> flyout.order.contains(#[trigger] ids[i])) ==> view.stale()
                == Stale::Same(k)
            &&& flyout.order.len() != ids.len() ==> view.stale() == Stale::Changed
            &&& forall|i: int|
                0 <= i < ids.len() && !flyout.order.contains(#[trigger] ids[i]) ==> view.stale()
                    == Stale::Changed
        },
        ({
            let none = GroupingView { flyout: None, ..view };
            none.stale() == Stale::Nothing
        }),
{
    if view.stack_of(flyout.shown) == Some(k) {
        let members = view.all[k].windows;
        let ids = member_ids(members);
        assert forall|i: int| 0 <= i < members.len() implies ids[i] == (#[trigger] members[i]).id by {}
        if same_windows(flyout.order, members) {
            assert forall|i: int| 0 <= i < ids.len() implies flyout.order.contains(
                #[trigger] ids[i],
            ) by {
                assert(flyout.order.contains(members[i].id));
            }
        }
        if flyout.order.len() == ids.len() && (forall|i: int|
            0 <= i < ids.len() ==> flyout.order.contains(#[trigger] ids[i])) {
            assert forall|i: int| 0 <= i < members.len() implies flyout.order.contains(
                (#[trigger] members[i]).id,
            ) by {
                assert(flyout.order.contains(ids[i]));
            }
        }
    }
}

/// Opening a stack's flyout shuts any other first, puts its windows in the order asked for, and
/// takes a button for the window that the stack shows. One that's open already is left alone.
pub proof fn law_opening_shuts_the_other(
    r: Opened,
    view: GroupingView,
    k: int,
    order: Seq<u64>,
)
    requires
        opens(r, view, k, order),
    ensures
        view.flyout is Some && view.flyout->0.shown == view.all[k].shown ==> r.closed is None
            && r.opening is None && view.cleared_for(k) == view,
        !(view.flyout is Some && view.flyout->0.shown == view.all[k].shown) ==> {
            &&& r.closed is Some == view.flyout is Some
            &&& r.closed is Some ==> r.closed->0.shown == view.flyout->0.shown
            &&& view.cleared_for(k).flyout is None
            &&& r.opening is Some == view.all[k].buttons.contains(view.all[k].shown)
            &&& r.opening is Some ==> {
                &&& r.opening->0.stack == k
                &&& r.opening->0.shown == view.all[k].shown
                &&& r.opening->0.order@ == flyout_order(view.all[k].windows, order)
            }
        },
{
}

/// An opened flyout is the one that's open, for the window that was given and with the buttons that
/// were. Scrolling goes along it where the pointer is over one of its stack's buttons.
pub proof fn law_opened_flyouts_are_open(view: GroupingView, k: int, shown: u64, order: Seq<u64>)
    requires
        0 <= k < view.all.len(),
    ensures
        ({
            let after = view.opened(k, shown, order);
            &&& after.flyout == Some(FlyoutView { shown, order })
            &&& after.hovered == view.hovered && after.all == view.all && after.stacks == view.stacks
            &&& view.hovered is Some && view.all[k].buttons.contains(view.hovered->0) && (exists|i: int|
                0 <= i < order.len() && view.all[k].buttons.contains(#[trigger] order[i]))
                ==> after.scope == Some(order)
            &&& !(view.hovered is Some && view.all[k].buttons.contains(view.hovered->0)) ==> after.scope
                == view.scope
        }),
{
    if exists|i: int| 0 <= i < order.len() && view.all[k].buttons.contains(#[trigger] order[i]) {
        assert(shares(order, view.all[k].buttons));
    }
}

/// Once the stacks have been worked out again, the windows whose buttons go back to being ordinary
/// ones are those that had a button in a stack before and are in none now.
pub proof fn law_leavers_are_unstacked(
    view: GroupingView,
    windows: Seq<Window>,
    buttons: Seq<bool>,
    id: u64,
)
    requires
        windows.len() <= usize::MAX,
        distinct(windows),
    ensures
        ({
            let after = view.restacked(windows, buttons);
            let had = view.stacks.contains_key(id) && view.stacks[id] < view.all.len()
                && view.all[view.stacks[id] as int].buttons.contains(id);
            let has = exists|k: int| 0 <= k < after.all.len() && #[trigger] holds_window(after.all[k], id);
            view.has_left(after, id) <==> had && !has
        }),
{
    let after = view.restacked(windows, buttons);
    lemma_stack_count(windows, buttons, 0);
    lemma_membership(after.all, after.all.len() as int, id);
}

proof fn lemma_buttons_climb(windows: Seq<Window>, buttons: Seq<bool>, i: int, j: int)
    requires
        0 <= i <= j <= windows.len(),
        distinct(windows),
    ensures
        forall|x: int, y: int, m: int, n: int|
            0 <= x < y < buttons_in(windows, buttons, i, j).len() && i <= m < j && i <= n < j
                && #[trigger] buttons_in(windows, buttons, i, j)[x] == (#[trigger] windows[m]).id
                && #[trigger] buttons_in(windows, buttons, i, j)[y] == (#[trigger] windows[n]).id
                ==> m < n,
    decreases j - i,
{
    if i < j {
        lemma_buttons_climb(windows, buttons, i, j - 1);
        lemma_buttons_in(windows, buttons, i, j - 1);
        let rest = buttons_in(windows, buttons, i, j - 1);
        let all = buttons_in(windows, buttons, i, j);
        assert forall|x: int, y: int, m: int, n: int|
            0 <= x < y < all.len() && i <= m < j && i <= n < j && #[trigger] all[x] == (
            #[trigger] windows[m]).id && #[trigger] all[y] == (#[trigger] windows[n]).id implies m
            < n by {
            assert(all[x] == rest[x]);
            assert(rest.contains(rest[x]));
            let a = choose|a: int| i <= a < j - 1 && buttons[a] && (#[trigger] windows[a]).id == rest[x];
            if m != a {
                if m < a {
                    assert(windows[m].id != windows[a].id);
                } else {
                    assert(windows[a].id != windows[m].id);
                }
            }
            if y < rest.len() {
                assert(all[y] == rest[y]);
                assert(rest.contains(rest[y]));
                let b = choose|b: int|
                    i <= b < j - 1 && buttons[b] && (#[trigger] windows[b]).id == rest[y];
                if n != b {
                    if n < b {
                        assert(windows[n].id != windows[b].id);
                    } else {
                        assert(windows[b].id != windows[n].id);
                    }
                }
            } else {
                assert(all[y] == windows[j - 1].id);
                if n < j - 1 {
                    assert(windows[n].id != windows[j - 1].id);
                }
            }
        }
    }
}

/// A stack's buttons are in the order that its windows are in.
pub proof fn law_stack_buttons_are_in_order(
    windows: Seq<Window>,
    buttons: Seq<bool>,
    i: int,
    j: int,
    x: int,
    y: int,
    m: int,
    n: int,
)
    requires
        0 <= i <= j <= windows.len(),
        distinct(windows),
        0 <= x < y < stack_from(windows, buttons, i, j).buttons.len(),
        i <= m < j,
        i <= n < j,
        stack_from(windows, buttons, i, j).buttons[x] == windows[m].id,
        stack_from(windows, buttons, i, j).buttons[y] == windows[n].id,
    ensures
        m < n,
{
    lemma_buttons_climb(windows, buttons, i, j);
}

/// When a stack comes to show another of its windows, it keeps all of them, with that one first and
/// the others in the order they were in.
pub proof fn law_shown_member_comes_first(stack: StackView, id: u64)
    requires
        exists|i: int| 0 <= i < stack.windows.len() && (#[trigger] stack.windows[i]).id == id,
    ensures
        ({
            let after = stack_showing(stack, id);
            &&& after.shown == id
            &&& after.windows.len() > 0
            &&& after.windows[0].id == id
            &&& forall|m: Member| #[trigger] after.windows.contains(m) <==> stack.windows.contains(m)
        }),
{
    let members = stack.windows;
    let (first, rest) = (kept(members, is_member(id)), kept(members, is_other_member(id)));
    let i = choose|i: int| 0 <= i < members.len() && (#[trigger] members[i]).id == id;
    assert(members.contains(members[i]));
    lemma_kept_contains(members, is_member(id), members[i]);
    let k = choose|k: int| 0 <= k < first.len() && first[k] == members[i];
    assert(first.contains(first[0]));
    lemma_kept_contains(members, is_member(id), first[0]);
    let all = first + rest;
    assert forall|m: Member| #[trigger] all.contains(m) <==> members.contains(m) by {
        lemma_kept_contains(members, is_member(id), m);
        lemma_kept_contains(members, is_other_member(id), m);
        if all.contains(m) {
            let j = choose|j: int| 0 <= j < all.len() && all[j] == m;
            if j < first.len() {
                assert(first[j] == m);
            } else {
                assert(rest[j - first.len()] == m);
            }
        }
        if first.contains(m) {
            let j = choose|j: int| 0 <= j < first.len() && first[j] == m;
            assert(all[j] == m);
        }
        if rest.contains(m) {
            let j = choose|j: int| 0 <= j < rest.len() && rest[j] == m;
            assert(all[first.len() + j] == m);
        }
    }
}

/// The row always holds every window once. Where stacks aren't collapsed, each stays where it is, and
/// nothing is marked as urgent for the others.
pub proof fn law_rows_hold_every_window(view: GroupingView, windows: Seq<Window>, i: int)
    requires
        windows.len() <= usize::MAX,
    ensures
        view.row_of(windows).to_multiset() == in_place(windows.len()).to_multiset(),
        !view.enabled ==> view.row_of(windows).len() == windows.len() && (0 <= i < windows.len()
            ==> view.row_of(windows)[i] == i),
        !view.enabled ==> view.after_row(windows) == view,
        !view.enabled ==> view.urgent_stacks(Seq::empty()).len() == 0,
        view.enabled ==> view.after_row(windows) == view.noted(windows),
{
    if view.enabled {
        law_order_only_rearranges(view.noted(windows), windows);
    }
}

/// The pointer comes or goes just with an ordinary crossing that isn't to or from something inside.
pub proof fn law_inner_crossings_do_not_count(inferior: bool)
    ensures
        counts(true, false),
        !counts(true, true),
        !counts(false, inferior),
{
}

} // verus!
