//! The taskbar: which buttons go on which page, and which page shows.

use std::collections::BTreeMap;
use vstd::prelude::*;
use vstd::string::StringExecFns;

use crate::ids::{ascending, ids_in, lemma_push_contains, lemma_take_contains};
use crate::kept::{
    kept, lemma_kept_add, lemma_kept_all, lemma_kept_contains, lemma_kept_none, lemma_kept_same,
    lemma_kept_twice, lemma_to_the_end, other_than, without,
};
use crate::niri::{name_of, output_name, Snapshot, Window, Workspace};
use crate::output::{Filter, FilterView};
use crate::text::{
    decimal, decimal_of, first_from, law_decimal_reads_back, lemma_first_from, same_text,
};

verus! {

/// Identifies a page in the taskbar stack.
#[derive(Debug, Clone, Copy, PartialEq, Eq, Structural)]
pub enum PageKey {
    /// The single page used when every workspace is shown at once.
    All,
    /// The page for a specific workspace, by Niri workspace ID.
    Workspace(u64),
}

impl PageKey {
    /// What the page is called.
    pub open spec fn called(self) -> Seq<char> {
        match self {
            PageKey::All => "all"@,
            PageKey::Workspace(id) => "workspace-"@ + decimal(id as nat),
        }
    }

    pub fn name(self) -> (r: String)
        ensures
            r@ == self.called(),
    {
        match self {
            PageKey::All => "all".to_owned(),
            PageKey::Workspace(id) => {
                let mut name: String = "workspace-".to_owned();
                name.append(decimal_of(id).as_str());
                name
            },
        }
    }
}

/// Where the buttons are, and which pages there are.
#[verifier::ext_equal]
pub struct Rows {
    /// The page that each window's button is on.
    pub slots: Map<u64, PageKey>,
    pub pages: Set<PageKey>,
}

/// Something to do to the pages and buttons.
#[derive(Debug, Clone, Copy, PartialEq, Eq, Structural)]
pub enum Step {
    /// Makes a page.
    AddPage(PageKey),
    /// Makes a button for a window, and adds it to the end of a page.
    NewButton { id: u64, page: PageKey },
    /// Takes a window's button off the page it's on, if that's still there, and adds it to the end
    /// of another.
    MoveButton { id: u64, from: Option<PageKey>, to: PageKey },
    /// Brings a window's button up to date, and moves it to the end of its page. The window is
    /// given by its place in the snapshot.
    Update { window: usize, id: u64, page: PageKey },
    /// Takes a window's button off the page it's on, if that's still there, and drops it.
    RemoveButton { id: u64, from: Option<PageKey> },
}

/// The page that a window's button belongs on.
pub open spec fn page_for(active_only: bool, window: Window) -> PageKey {
    if active_only {
        PageKey::Workspace(window.workspace)
    } else {
        PageKey::All
    }
}

/// Whether a window is shown at all.
pub open spec fn shown(filter: FilterView, window: Window) -> bool {
    filter.shows(output_name(window.output))
}

/// A page, if it's there.
pub open spec fn if_there(rows: Rows, page: PageKey) -> Option<PageKey> {
    if rows.pages.contains(page) {
        Some(page)
    } else {
        None
    }
}

/// What it takes to make sure of a page.
pub open spec fn ensure_steps(rows: Rows, page: PageKey) -> Seq<Step> {
    if rows.pages.contains(page) {
        Seq::empty()
    } else {
        seq![Step::AddPage(page)]
    }
}

/// What it takes to put a window's button on its page.
pub open spec fn place_steps(rows: Rows, id: u64, page: PageKey) -> Seq<Step> {
    if !rows.slots.contains_key(id) {
        seq![Step::NewButton { id, page }]
    } else if rows.slots[id] != page {
        seq![Step::MoveButton { id, from: if_there(rows, rows.slots[id]), to: page }]
    } else {
        Seq::empty()
    }
}

/// The rows once a window's button is on its page.
pub open spec fn placed(rows: Rows, id: u64, page: PageKey) -> Rows {
    Rows { slots: rows.slots.insert(id, page), pages: rows.pages.insert(page) }
}

/// The rows once the first windows' buttons are in place.
pub open spec fn rows_after(
    start: Rows,
    windows: Seq<Window>,
    filter: FilterView,
    active_only: bool,
    n: int,
) -> Rows
    decreases n,
{
    if n <= 0 {
        start
    } else {
        let rows = rows_after(start, windows, filter, active_only, n - 1);
        let window = windows[n - 1];
        if shown(filter, window) {
            placed(rows, window.id, page_for(active_only, window))
        } else {
            rows
        }
    }
}

/// What it takes to put the first windows' buttons in place.
pub open spec fn steps_after(
    start: Rows,
    windows: Seq<Window>,
    filter: FilterView,
    active_only: bool,
    n: int,
) -> Seq<Step>
    decreases n,
{
    if n <= 0 {
        Seq::empty()
    } else {
        let steps = steps_after(start, windows, filter, active_only, n - 1);
        let rows = rows_after(start, windows, filter, active_only, n - 1);
        let window = windows[n - 1];
        if shown(filter, window) {
            let page = page_for(active_only, window);
            let with_page = Rows { slots: rows.slots, pages: rows.pages.insert(page) };
            steps + ensure_steps(rows, page) + place_steps(with_page, window.id, page) + seq![
                Step::Update { window: (n - 1) as usize, id: window.id, page },
            ]
        } else {
            steps
        }
    }
}

/// Whether a window is among the ones shown.
pub open spec fn is_shown(windows: Seq<Window>, filter: FilterView, id: u64) -> bool {
    exists|i: int| 0 <= i < windows.len() && shown(filter, #[trigger] windows[i]) && windows[i].id == id
}

/// Whether these steps remove the buttons of the windows that were there to start with and aren't
/// shown any more, in order of window.
pub open spec fn removes(
    steps: Seq<Step>,
    start: Rows,
    rows: Rows,
    windows: Seq<Window>,
    filter: FilterView,
) -> bool {
    exists|ids: Seq<u64>| #[trigger]
        ascending(ids) && (forall|id: u64|
            ids.contains(id) <==> start.slots.contains_key(id) && !is_shown(windows, filter, id))
            && steps == removal_steps(rows, ids)
}

/// What it takes to remove windows' buttons.
pub open spec fn removal_steps(rows: Rows, ids: Seq<u64>) -> Seq<Step> {
    ids.map_values(
        |id: u64| Step::RemoveButton { id, from: if_there(rows, rows.slots[id]) },
    )
}

/// The rows once everything is in place: only the buttons for windows that are shown stay, and the
/// page to show is there.
pub open spec fn rows_done(
    start: Rows,
    windows: Seq<Window>,
    filter: FilterView,
    active_only: bool,
    target: PageKey,
) -> Rows {
    let rows = rows_after(start, windows, filter, active_only, windows.len() as int);
    Rows {
        slots: rows.slots.restrict(Set::new(|id: u64| is_shown(windows, filter, id))),
        pages: rows.pages.insert(target),
    }
}

/// Which workspaces are active and shown.
pub open spec fn active(workspaces: Seq<Workspace>, filter: FilterView) -> spec_fn(int) -> bool {
    |i: int| workspaces[i].is_active && filter.shows(output_name(workspaces[i].output))
}

/// Which workspaces are active, shown, and focused.
pub open spec fn active_focused(workspaces: Seq<Workspace>, filter: FilterView) -> spec_fn(
    int,
) -> bool {
    |i: int|
        workspaces[i].is_active && filter.shows(output_name(workspaces[i].output))
            && workspaces[i].is_focused
}

/// Where the workspace to show is: the first that's active on this output, preferring a focused one
/// if the filter spans several outputs.
pub open spec fn active_workspace(workspaces: Seq<Workspace>, filter: FilterView) -> int {
    let len = workspaces.len() as int;
    let focused = first_from(len, 0, active_focused(workspaces, filter));
    if focused < len {
        focused
    } else {
        first_from(len, 0, active(workspaces, filter))
    }
}

/// The page to show, and the index of its workspace.
pub open spec fn target_page(
    workspaces: Seq<Workspace>,
    filter: FilterView,
    active_only: bool,
) -> (PageKey, Option<u8>) {
    let i = active_workspace(workspaces, filter);
    if active_only && i < workspaces.len() {
        (PageKey::Workspace(workspaces[i].id), Some(workspaces[i].idx))
    } else {
        (PageKey::All, None)
    }
}

/// Whether a window's button is on the page to show.
pub open spec fn on_target(filter: FilterView, active_only: bool, target: PageKey, window: Window) -> bool {
    shown(filter, window) && page_for(active_only, window) == target
}

/// The first windows whose buttons are on the page to show.
pub open spec fn visible_after(
    windows: Seq<Window>,
    filter: FilterView,
    active_only: bool,
    target: PageKey,
    n: int,
) -> Seq<u64>
    decreases n,
{
    if n <= 0 {
        Seq::empty()
    } else {
        let rest = visible_after(windows, filter, active_only, target, n - 1);
        if on_target(filter, active_only, target, windows[n - 1]) {
            rest.push(windows[n - 1].id)
        } else {
            rest
        }
    }
}

/// The focused window on the page to show, among the first windows.
pub open spec fn focused_after(
    windows: Seq<Window>,
    filter: FilterView,
    active_only: bool,
    target: PageKey,
    n: int,
) -> Option<u64>
    decreases n,
{
    if n <= 0 {
        None
    } else if on_target(filter, active_only, target, windows[n - 1]) && windows[n - 1].is_focused {
        Some(windows[n - 1].id)
    } else {
        focused_after(windows, filter, active_only, target, n - 1)
    }
}

/// How the taskbar takes in a snapshot.
#[derive(Debug)]
pub struct Layout {
    /// What to do to the pages and buttons, in order.
    pub steps: Vec<Step>,
    /// The page to show.
    pub target: PageKey,
    /// The index of its workspace.
    pub target_idx: Option<u8>,
    /// The windows on the page to show, in order.
    pub visible: Vec<u64>,
    /// The focused one of them.
    pub focused: Option<u64>,
}

/// How a stack of pages moves from one page to another.
#[derive(Debug, Clone, Copy, PartialEq, Eq, Structural)]
pub enum Transition {
    /// It's there at once.
    Cut,
    SlideUp,
    SlideDown,
}

/// How to move to another page, sliding in the same direction Niri moves its workspaces.
pub open spec fn transition(from: Option<u8>, to: Option<u8>, animation_ms: u32) -> Transition {
    match (from, to) {
        _ if animation_ms == 0 => Transition::Cut,
        (Some(from), Some(to)) if to > from => Transition::SlideUp,
        (Some(from), Some(to)) if to < from => Transition::SlideDown,
        _ => Transition::Cut,
    }
}

/// How to move to the page to show, given the name of the one that's visible.
pub open spec fn switched(
    visible: Option<Seq<char>>,
    target: PageKey,
    from: Option<u8>,
    to: Option<u8>,
    animation_ms: u32,
) -> Option<Transition> {
    if visible == Some(target.called()) {
        None
    } else {
        Some(transition(from, to, animation_ms))
    }
}

/// Whether there's a workspace with the given ID.
pub open spec fn is_workspace(workspaces: Seq<Workspace>, id: u64) -> bool {
    exists|i: int| 0 <= i < workspaces.len() && (#[trigger] workspaces[i]).id == id
}

/// Whether a page is for a workspace that no longer exists, and not the one on show.
pub open spec fn stale(workspaces: Seq<Workspace>, target: PageKey, page: PageKey) -> bool {
    match page {
        PageKey::All => false,
        PageKey::Workspace(id) => page != target && !is_workspace(workspaces, id),
    }
}

/// The pages of a taskbar, and where its buttons are.
#[derive(Debug)]
pub struct Instance {
    slots: BTreeMap<u64, PageKey>,
    /// Whether there's a page for every workspace at once.
    all: bool,
    /// The workspaces that have pages.
    workspaces: BTreeMap<u64, ()>,
    /// The workspace index of the currently visible page, used to pick the slide direction.
    current_idx: Option<u8>,
}

impl Instance {
    /// Where the buttons are, and which pages there are.
    pub closed spec fn rows(self) -> Rows {
        Rows {
            slots: self.slots@,
            pages: Set::new(
                |page: PageKey|
                    match page {
                        PageKey::All => self.all,
                        PageKey::Workspace(id) => self.workspaces@.contains_key(id),
                    },
            ),
        }
    }

    /// The workspace index of the currently visible page.
    pub closed spec fn idx(self) -> Option<u8> {
        self.current_idx
    }

    /// A taskbar without any pages or buttons.
    pub fn new() -> (r: Self)
        ensures
            r.rows() == (Rows { slots: Map::empty(), pages: Set::empty() }),
            r.idx() is None,
    {
        let r = Instance {
            slots: BTreeMap::new(),
            all: false,
            workspaces: BTreeMap::new(),
            current_idx: None,
        };
        proof {
            assert(r.rows().pages =~= Set::<PageKey>::empty());
        }
        r
    }

    /// Returns true if the window has a button.
    pub fn has_button(&self, id: u64) -> (r: bool)
        ensures
            r == self.rows().slots.contains_key(id),
    {
        self.slots.contains_key(&id)
    }

    /// Returns true if there's such a page.
    fn has_page(&self, page: PageKey) -> (r: bool)
        ensures
            r == self.rows().pages.contains(page),
    {
        match page {
            PageKey::All => self.all,
            PageKey::Workspace(id) => self.workspaces.contains_key(&id),
        }
    }

    /// Makes sure of a page, returning true if it has to be made.
    pub fn ensure_page(&mut self, page: PageKey) -> (r: bool)
        ensures
            r == !old(self).rows().pages.contains(page),
            final(self).rows().slots == old(self).rows().slots,
            final(self).rows().pages == old(self).rows().pages.insert(page),
            final(self).idx() == old(self).idx(),
    {
        if self.has_page(page) {
            proof {
                assert(self.rows().pages.insert(page) =~= self.rows().pages);
            }
            return false;
        }
        match page {
            PageKey::All => {
                self.all = true;
            },
            PageKey::Workspace(id) => {
                self.workspaces.insert(id, ());
            },
        }
        proof {
            assert(self.rows().pages =~= old(self).rows().pages.insert(page));
        }
        true
    }

    /// Works out which page should be visible: the active workspace on this output, or the single
    /// page for all of them.
    fn find_target(workspaces: &Vec<Workspace>, filter: &Filter, active_only: bool) -> (r: (
        PageKey,
        Option<u8>,
    ))
        ensures
            r == target_page(workspaces@, filter@, active_only),
    {
        if !active_only {
            return (PageKey::All, None);
        }
        let ghost len = workspaces@.len() as int;
        let ghost either = active(workspaces@, filter@);
        let ghost focused = active_focused(workspaces@, filter@);
        let mut first: Option<usize> = None;
        let mut i: usize = 0;
        while i < workspaces.len()
            invariant
                i <= workspaces@.len(),
                len == workspaces@.len(),
                active_only,
                either == active(workspaces@, filter@),
                focused == active_focused(workspaces@, filter@),
                first_from(len, 0, focused) == first_from(len, i as int, focused),
                match first {
                    Some(at) => at < i && first_from(len, 0, either) == at,
                    None => first_from(len, 0, either) == first_from(len, i as int, either),
                },
            decreases workspaces@.len() - i,
        {
            let workspace = &workspaces[i];
            if workspace.is_active && filter.should_show(name_of(&workspace.output)) {
                if workspace.is_focused {
                    return (PageKey::Workspace(workspace.id), Some(workspace.idx));
                }
                if first.is_none() {
                    first = Some(i);
                }
            }
            i += 1;
        }
        match first {
            Some(at) => (PageKey::Workspace(workspaces[at].id), Some(workspaces[at].idx)),
            None => (PageKey::All, None),
        }
    }

    /// Puts a window's button on its page, returning what that takes.
    fn place(&mut self, id: u64, page: PageKey) -> (r: Option<Step>)
        requires
            old(self).rows().pages.contains(page),
        ensures
            match r {
                Some(step) => seq![step],
                None => Seq::empty(),
            } == place_steps(old(self).rows(), id, page),
            final(self).rows() == placed(old(self).rows(), id, page),
            final(self).idx() == old(self).idx(),
    {
        let ghost before = self.rows();
        let r: Option<Step> = match self.slots.get(&id) {
            Some(from) => {
                let from: PageKey = *from;
                if from == page {
                    None
                } else {
                    let there: Option<PageKey> = if self.has_page(from) {
                        Some(from)
                    } else {
                        None
                    };
                    Some(Step::MoveButton { id, from: there, to: page })
                }
            },
            None => Some(Step::NewButton { id, page }),
        };
        self.slots.insert(id, page);
        proof {
            assert(self.rows().pages =~= before.pages.insert(page));
        }
        r
    }

    /// Takes in a snapshot: puts the buttons for the windows that the filter shows on their pages,
    /// in the order of the snapshot, removes the others, and makes sure of the page to show.
    pub fn process_window_snapshot(
        &mut self,
        snapshot: &Snapshot,
        filter: &Filter,
        active_only: bool,
    ) -> (r: Layout)
        ensures
            (r.target, r.target_idx) == target_page(snapshot.workspaces@, filter@, active_only),
            ({
                let start = old(self).rows();
                let windows = snapshot.windows@;
                let n = windows.len() as int;
                let rows = rows_after(start, windows, filter@, active_only, n);
                &&& final(self).rows() == rows_done(start, windows, filter@, active_only, r.target)
                &&& final(self).idx() == old(self).idx()
                &&& r.visible@ == visible_after(windows, filter@, active_only, r.target, n)
                &&& r.focused == focused_after(windows, filter@, active_only, r.target, n)
                &&& exists|removed: Seq<Step>| #[trigger]
                    removes(removed, start, rows, windows, filter@) && r.steps@ == steps_after(
                        start,
                        windows,
                        filter@,
                        active_only,
                        n,
                    ) + removed + ensure_steps(rows, r.target)
            }),
    {
        let windows = &snapshot.windows;
        let ghost start = self.rows();
        let (target, target_idx) = Self::find_target(&snapshot.workspaces, filter, active_only);
        let before = ids_in(&self.slots);
        let mut steps: Vec<Step> = Vec::new();
        let mut visible: Vec<u64> = Vec::new();
        let mut focused: Option<u64> = None;
        // Which windows are still there.
        let mut still: BTreeMap<u64, ()> = BTreeMap::new();
        let mut i: usize = 0;
        while i < windows.len()
            invariant
                i <= windows@.len(),
                self.rows() == rows_after(start, windows@, filter@, active_only, i as int),
                self.idx() == old(self).idx(),
                steps@ == steps_after(start, windows@, filter@, active_only, i as int),
                visible@ == visible_after(windows@, filter@, active_only, target, i as int),
                focused == focused_after(windows@, filter@, active_only, target, i as int),
                forall|id: u64| #[trigger]
                    still@.contains_key(id) <==> is_shown(windows@.take(i as int), filter@, id),
            decreases windows@.len() - i,
        {
            let window = &windows[i];
            let id: u64 = window.id;
            let ghost rows = self.rows();
            let ghost earlier = still@;
            proof {
                lemma_is_shown(windows@, filter@, i as int);
            }
            if filter.should_show(name_of(&window.output)) {
                let page: PageKey = if active_only {
                    PageKey::Workspace(window.workspace)
                } else {
                    PageKey::All
                };
                let ghost done = steps@;
                if self.ensure_page(page) {
                    steps.push(Step::AddPage(page));
                }
                proof {
                    assert(steps@ =~= done + ensure_steps(rows, page));
                }
                let ghost with_page = self.rows();
                if let Some(step) = self.place(id, page) {
                    steps.push(step);
                }
                proof {
                    assert(steps@ =~= done + ensure_steps(rows, page) + place_steps(
                        with_page,
                        id,
                        page,
                    ));
                    assert(with_page.pages.insert(page) =~= with_page.pages);
                }
                steps.push(Step::Update { window: i, id, page });
                still.insert(id, ());
                if page == target {
                    visible.push(id);
                    if window.is_focused {
                        focused = Some(id);
                    }
                }
            }
            i += 1;
        }
        proof {
            assert(windows@.take(i as int) =~= windows@);
        }
        let ghost rows = self.rows();
        let ghost placed_steps = steps@;
        proof {
            lemma_slots_from(start, windows@, filter@, active_only, windows@.len() as int);
            assert(forall|id: u64|
                start.slots.contains_key(id) ==> #[trigger] rows.slots.contains_key(id));
            assert(removal_steps(rows, Seq::empty()) =~= Seq::empty());
        }
        let ghost mut ids: Seq<u64> = Seq::empty();
        let mut k: usize = 0;
        while k < before.len()
            invariant
                k <= before@.len(),
                windows == &snapshot.windows,
                ascending(before@),
                forall|id: u64| before@.contains(id) <==> start.slots.contains_key(id),
                forall|id: u64|
                    start.slots.contains_key(id) ==> #[trigger] rows.slots.contains_key(id),
                self.idx() == old(self).idx(),
                self.rows().pages == rows.pages,
                forall|id: u64| #[trigger]
                    still@.contains_key(id) <==> is_shown(windows@, filter@, id),
                forall|id: u64|
                    ids.contains(id) <==> before@.take(k as int).contains(id) && !is_shown(
                        windows@,
                        filter@,
                        id,
                    ),
                forall|j: int| 0 <= j < ids.len() && k < before@.len() ==> #[trigger] ids[j] < before@[k as int],
                ascending(ids),
                steps@ == placed_steps + removal_steps(rows, ids),
                forall|id: u64| #[trigger]
                    self.rows().slots.contains_key(id) <==> rows.slots.contains_key(id)
                        && !ids.contains(id),
                forall|id: u64| #[trigger]
                    self.rows().slots.contains_key(id) ==> self.rows().slots[id] == rows.slots[id],
            decreases before@.len() - k,
        {
            let id: u64 = before[k];
            let ghost fewer = ids;
            let ghost earlier = self.rows();
            proof {
                assert(before@.contains(id));
                lemma_take_contains(before@, k as int);
            }
            if !still.contains_key(&id) {
                let from: Option<PageKey> = match self.slots.get(&id) {
                    Some(page) => if self.has_page(*page) {
                        Some(*page)
                    } else {
                        None
                    },
                    None => None,
                };
                proof {
                    if fewer.contains(id) {
                        let j = choose|j: int| 0 <= j < fewer.len() && fewer[j] == id;
                        assert(fewer[j] < before@[k as int]);
                    }
                    assert(rows.slots.contains_key(id));
                    assert(self.rows().slots.contains_key(id));
                    assert(from == if_there(rows, rows.slots[id]));
                }
                self.slots.remove(&id);
                proof {
                    assert(self.rows().pages =~= earlier.pages);
                    assert(self.rows().slots == earlier.slots.remove(id));
                    ids = ids.push(id);
                    lemma_push_contains(fewer, id);
                    assert(removal_steps(rows, ids) =~= removal_steps(rows, fewer).push(
                        Step::RemoveButton { id, from },
                    ));
                    assert(steps@.push(Step::RemoveButton { id, from }) =~= placed_steps
                        + removal_steps(rows, ids));
                }
                steps.push(Step::RemoveButton { id, from });
            }
            k += 1;
        }
        let ghost removed = removal_steps(rows, ids);
        proof {
            assert(before@.take(k as int) =~= before@);
            assert(ascending(ids));
            assert(removes(removed, start, rows, windows@, filter@));
            assert(self.rows().slots =~= rows_done(start, windows@, filter@, active_only, target).slots);
        }
        if self.ensure_page(target) {
            steps.push(Step::AddPage(target));
        }
        proof {
            assert(steps@ =~= placed_steps + removed + ensure_steps(rows, target));
        }
        Layout { steps, target, target_idx, visible, focused }
    }

    /// Works out how to move to the page to show, given the name of the one that's visible. Returns
    /// `None` if it's visible already.
    pub fn switch_page(
        &mut self,
        visible: Option<&str>,
        target: PageKey,
        target_idx: Option<u8>,
        animation_ms: u32,
    ) -> (r: Option<Transition>)
        ensures
            r == if visible is Some && visible->0@ == target.called() {
                None
            } else {
                Some(transition(old(self).idx(), target_idx, animation_ms))
            },
            r == switched(
                match visible {
                    Some(name) => Some(name@),
                    None => None,
                },
                target,
                old(self).idx(),
                target_idx,
                animation_ms,
            ),
            final(self).idx() == target_idx,
            final(self).rows() == old(self).rows(),
    {
        let name: String = target.name();
        let changed: bool = match visible {
            Some(visible) => !same_text(visible, name.as_str()),
            None => true,
        };
        let from: Option<u8> = self.current_idx;
        self.current_idx = target_idx;
        if !changed {
            return None;
        }
        if animation_ms == 0 {
            return Some(Transition::Cut);
        }
        match (from, target_idx) {
            (Some(from), Some(to)) => if to > from {
                Some(Transition::SlideUp)
            } else if to < from {
                Some(Transition::SlideDown)
            } else {
                Some(Transition::Cut)
            },
            _ => Some(Transition::Cut),
        }
    }

    /// Removes pages for workspaces that no longer exist, returning the workspaces they were for,
    /// in order. Removing the page a transition is sliding away from would cut the animation short,
    /// so stale pages are left alone until the stack is idle.
    pub fn prune_pages(
        &mut self,
        workspaces: &Vec<Workspace>,
        target: PageKey,
        sliding: bool,
    ) -> (r: Vec<u64>)
        ensures
            ascending(r@),
            forall|id: u64|
                r@.contains(id) <==> !sliding && old(self).rows().pages.contains(
                    PageKey::Workspace(id),
                ) && stale(workspaces@, target, PageKey::Workspace(id)),
            final(self).rows().slots == old(self).rows().slots,
            final(self).rows().pages == old(self).rows().pages.difference(
                Set::new(|page: PageKey| !sliding && stale(workspaces@, target, page)),
            ),
            final(self).idx() == old(self).idx(),
    {
        let mut r: Vec<u64> = Vec::new();
        let ghost start = self.rows().pages;
        let ghost gone = Set::new(|page: PageKey| !sliding && stale(workspaces@, target, page));
        if sliding {
            proof {
                assert(start.difference(gone) =~= start);
            }
            return r;
        }
        let ids = ids_in(&self.workspaces);
        let mut k: usize = 0;
        while k < ids.len()
            invariant
                k <= ids@.len(),
                ascending(ids@),
                !sliding,
                self.all == start.contains(PageKey::All),
                start == old(self).rows().pages,
                self.slots == old(self).slots,
                self.idx() == old(self).idx(),
                forall|id: u64| ids@.contains(id) <==> start.contains(PageKey::Workspace(id)),
                forall|id: u64|
                    r@.contains(id) <==> ids@.take(k as int).contains(id) && stale(
                        workspaces@,
                        target,
                        PageKey::Workspace(id),
                    ),
                forall|j: int| 0 <= j < r@.len() && k < ids@.len() ==> #[trigger] r@[j] < ids@[k as int],
                ascending(r@),
                forall|id: u64| #[trigger]
                    self.workspaces@.contains_key(id) <==> start.contains(PageKey::Workspace(id))
                        && !r@.contains(id),
            decreases ids@.len() - k,
        {
            let id: u64 = ids[k];
            let ghost fewer = r@;
            proof {
                assert(ids@.contains(id));
                lemma_take_contains(ids@, k as int);
            }
            if PageKey::Workspace(id) != target && !Self::listed(workspaces, id) {
                self.workspaces.remove(&id);
                r.push(id);
                proof {
                    lemma_push_contains(fewer, id);
                }
            }
            k += 1;
        }
        proof {
            assert(ids@.take(k as int) =~= ids@);
            assert(self.rows().pages =~= start.difference(gone));
        }
        r
    }

    /// Returns true if there's a workspace with the given ID.
    fn listed(workspaces: &Vec<Workspace>, id: u64) -> (r: bool)
        ensures
            r == is_workspace(workspaces@, id),
    {
        let mut i: usize = 0;
        while i < workspaces.len()
            invariant
                i <= workspaces@.len(),
                forall|j: int| 0 <= j < i ==> (#[trigger] workspaces@[j]).id != id,
            decreases workspaces@.len() - i,
        {
            if workspaces[i].id == id {
                return true;
            }
            i += 1;
        }
        false
    }
}

proof fn lemma_is_shown(windows: Seq<Window>, filter: FilterView, i: int)
    requires
        0 <= i < windows.len(),
    ensures
        forall|id: u64| #[trigger]
            is_shown(windows.take(i + 1), filter, id) <==> is_shown(windows.take(i), filter, id) || (
            shown(filter, windows[i]) && windows[i].id == id),
{
    let fewer = windows.take(i);
    let more = windows.take(i + 1);
    assert forall|id: u64| #[trigger] is_shown(more, filter, id) <==> is_shown(fewer, filter, id) || (
    shown(filter, windows[i]) && windows[i].id == id) by {
        if is_shown(fewer, filter, id) {
            let k = choose|k: int|
                0 <= k < fewer.len() && shown(filter, #[trigger] fewer[k]) && fewer[k].id == id;
            assert(more[k] == fewer[k]);
        }
        if is_shown(more, filter, id) {
            let k = choose|k: int|
                0 <= k < more.len() && shown(filter, #[trigger] more[k]) && more[k].id == id;
            if k < i {
                assert(fewer[k] == more[k]);
            }
        }
        assert(more[i] == windows[i]);
    }
}

/// A button that's there once the windows are in place was there before, or is for one of them.
proof fn lemma_slots_from(
    start: Rows,
    windows: Seq<Window>,
    filter: FilterView,
    active_only: bool,
    n: int,
)
    requires
        0 <= n <= windows.len(),
    ensures
        forall|id: u64| #[trigger]
            rows_after(start, windows, filter, active_only, n).slots.contains_key(id)
                <==> start.slots.contains_key(id) || is_shown(windows.take(n), filter, id),
    decreases n,
{
    if n > 0 {
        lemma_slots_from(start, windows, filter, active_only, n - 1);
        lemma_is_shown(windows, filter, n - 1);
        let fewer = rows_after(start, windows, filter, active_only, n - 1);
        let rows = rows_after(start, windows, filter, active_only, n);
        assert forall|id: u64| #[trigger] rows.slots.contains_key(id) <==> start.slots.contains_key(id)
            || is_shown(windows.take(n), filter, id) by {
            assert(fewer.slots.contains_key(id) <==> start.slots.contains_key(id) || is_shown(
                windows.take(n - 1),
                filter,
                id,
            ));
            assert(is_shown(windows.take(n - 1 + 1), filter, id) == is_shown(
                windows.take(n),
                filter,
                id,
            ));
        }
    }
}

/// The windows on each page, in order, once a step has been carried out.
pub open spec fn carried_out(pages: Map<PageKey, Seq<u64>>, step: Step) -> Map<PageKey, Seq<u64>> {
    match step {
        Step::AddPage(page) => pages.insert(page, Seq::empty()),
        Step::NewButton { id, page } => pages.insert(page, pages[page].push(id)),
        Step::MoveButton { id, from, to } => {
            let left = match from {
                Some(from) => pages.insert(from, without(pages[from], id)),
                None => pages,
            };
            left.insert(to, left[to].push(id))
        },
        Step::Update { window: _, id, page } => pages.insert(
            page,
            without(pages[page], id).push(id),
        ),
        Step::RemoveButton { id, from } => match from {
            Some(from) => pages.insert(from, without(pages[from], id)),
            None => pages,
        },
    }
}

/// The windows on each page, in order, once every step has been carried out.
pub open spec fn all_carried_out(
    pages: Map<PageKey, Seq<u64>>,
    steps: Seq<Step>,
) -> Map<PageKey, Seq<u64>>
    decreases steps.len(),
{
    if steps.len() == 0 {
        pages
    } else {
        carried_out(all_carried_out(pages, steps.drop_last()), steps.last())
    }
}

/// Whether the windows on each page are the ones whose buttons are on it, once each.
pub open spec fn agree(pages: Map<PageKey, Seq<u64>>, rows: Rows) -> bool {
    &&& pages.dom() == rows.pages
    &&& forall|id: u64| #[trigger]
        rows.slots.contains_key(id) ==> rows.pages.contains(rows.slots[id])
    &&& forall|page: PageKey, id: u64|
        rows.pages.contains(page) ==> (#[trigger] pages[page].contains(id) <==> rows.slots.contains_key(
            id,
        ) && rows.slots[id] == page)
}

/// Whether no two windows have the same ID.
pub open spec fn distinct(windows: Seq<Window>) -> bool {
    forall|i: int, j: int|
        0 <= i < j < windows.len() ==> (#[trigger] windows[i]).id != (#[trigger] windows[j]).id
}

proof fn lemma_carried_out_add(pages: Map<PageKey, Seq<u64>>, a: Seq<Step>, b: Seq<Step>)
    ensures
        all_carried_out(pages, a + b) == all_carried_out(all_carried_out(pages, a), b),
    decreases b.len(),
{
    if b.len() == 0 {
        assert(a + b =~= a);
    } else {
        assert((a + b).drop_last() =~= a + b.drop_last());
        lemma_carried_out_add(pages, a, b.drop_last());
    }
}

proof fn lemma_carried_out_one(pages: Map<PageKey, Seq<u64>>, step: Step)
    ensures
        all_carried_out(pages, seq![step]) == carried_out(pages, step),
{
    assert(seq![step].drop_last() =~= Seq::empty());
    assert(all_carried_out(pages, seq![step].drop_last()) == pages);
}

/// The windows that a page starts out with.
spec fn row_of(pages: Map<PageKey, Seq<u64>>, page: PageKey) -> Seq<u64> {
    if pages.dom().contains(page) {
        pages[page]
    } else {
        Seq::empty()
    }
}

/// Which windows haven't been placed yet.
spec fn unplaced(windows: Seq<Window>, filter: FilterView, n: int) -> spec_fn(u64) -> bool {
    |id: u64| !is_shown(windows.take(n), filter, id)
}

/// Those of a page's windows that haven't been placed yet.
spec fn left_on(row: Seq<u64>, windows: Seq<Window>, filter: FilterView, n: int) -> Seq<u64> {
    kept(row, unplaced(windows, filter, n))
}

/// Placed windows are on pages that exist, and are among the ones shown.
proof fn lemma_visible(
    start: Rows,
    windows: Seq<Window>,
    filter: FilterView,
    active_only: bool,
    page: PageKey,
    n: int,
)
    requires
        0 <= n <= windows.len(),
    ensures
        visible_after(windows, filter, active_only, page, n).len() > 0 ==> rows_after(
            start,
            windows,
            filter,
            active_only,
            n,
        ).pages.contains(page),
        forall|id: u64| #[trigger]
            visible_after(windows, filter, active_only, page, n).contains(id) ==> is_shown(
                windows.take(n),
                filter,
                id,
            ),
    decreases n,
{
    if n > 0 {
        lemma_visible(start, windows, filter, active_only, page, n - 1);
        lemma_is_shown(windows, filter, n - 1);
        let fewer = visible_after(windows, filter, active_only, page, n - 1);
        let all = visible_after(windows, filter, active_only, page, n);
        assert forall|id: u64| #[trigger] all.contains(id) implies is_shown(
            windows.take(n),
            filter,
            id,
        ) by {
            let i = choose|i: int| 0 <= i < all.len() && all[i] == id;
            assert(is_shown(windows.take(n - 1 + 1), filter, id) == is_shown(
                windows.take(n),
                filter,
                id,
            ));
            if i < fewer.len() {
                assert(fewer[i] == id);
                assert(fewer.contains(id));
            }
        }
    }
}

/// Pages and slots only grow as windows are placed, and slots for windows yet to be placed stay.
proof fn lemma_rows_grow(
    start: Rows,
    windows: Seq<Window>,
    filter: FilterView,
    active_only: bool,
    n: int,
)
    requires
        0 <= n <= windows.len(),
    ensures
        start.pages.subset_of(rows_after(start, windows, filter, active_only, n).pages),
        forall|id: u64|
            !is_shown(windows.take(n), filter, id) ==> (
            #[trigger] rows_after(start, windows, filter, active_only, n).slots.contains_key(id)
                <==> start.slots.contains_key(id)) && (start.slots.contains_key(id) ==> rows_after(
                start,
                windows,
                filter,
                active_only,
                n,
            ).slots[id] == start.slots[id]),
    decreases n,
{
    if n > 0 {
        lemma_rows_grow(start, windows, filter, active_only, n - 1);
        lemma_is_shown(windows, filter, n - 1);
        let fewer = rows_after(start, windows, filter, active_only, n - 1);
        let rows = rows_after(start, windows, filter, active_only, n);
        assert forall|id: u64| !is_shown(windows.take(n), filter, id) implies (
        #[trigger] rows.slots.contains_key(id) <==> start.slots.contains_key(id)) && (
        start.slots.contains_key(id) ==> rows.slots[id] == start.slots[id]) by {
            assert(is_shown(windows.take(n - 1 + 1), filter, id) == is_shown(
                windows.take(n),
                filter,
                id,
            ));
            assert(fewer.slots.contains_key(id) <==> start.slots.contains_key(id));
        }
    }
}

/// Placing one more window takes it out of those yet to be placed.
proof fn lemma_left_on(row: Seq<u64>, windows: Seq<Window>, filter: FilterView, n: int)
    requires
        0 <= n < windows.len(),
    ensures
        left_on(row, windows, filter, n + 1) == if shown(filter, windows[n]) {
            without(left_on(row, windows, filter, n), windows[n].id)
        } else {
            left_on(row, windows, filter, n)
        },
{
    let before = unplaced(windows, filter, n);
    let after = unplaced(windows, filter, n + 1);
    let other = other_than(windows[n].id);
    lemma_is_shown(windows, filter, n);
    if shown(filter, windows[n]) {
        lemma_kept_twice(row, before, other, after);
    } else {
        lemma_kept_same(row, before, after);
    }
}

/// Once the first windows are in place, each page has what it started with that's yet to be placed,
/// and then the windows placed on it.
#[verifier::rlimit(60)]
proof fn lemma_placed_in_order(
    pages: Map<PageKey, Seq<u64>>,
    start: Rows,
    windows: Seq<Window>,
    filter: FilterView,
    active_only: bool,
    n: int,
)
    requires
        0 <= n <= windows.len(),
        agree(pages, start),
        distinct(windows),
    ensures
        ({
            let rows = rows_after(start, windows, filter, active_only, n);
            let now = all_carried_out(
                pages,
                steps_after(start, windows, filter, active_only, n),
            );
            &&& now.dom() =~= rows.pages
            &&& forall|page: PageKey|
                rows.pages.contains(page) ==> #[trigger] now[page] == left_on(
                    row_of(pages, page),
                    windows,
                    filter,
                    n,
                ) + visible_after(windows, filter, active_only, page, n)
        }),
    decreases n,
{
    let rows = rows_after(start, windows, filter, active_only, n);
    let steps = steps_after(start, windows, filter, active_only, n);
    let now = all_carried_out(pages, steps);
    if n == 0 {
        assert forall|page: PageKey| rows.pages.contains(page) implies #[trigger] now[page]
            == left_on(row_of(pages, page), windows, filter, n) + visible_after(
            windows,
            filter,
            active_only,
            page,
            n,
        ) by {
            let row = pages[page];
            lemma_kept_all(row, unplaced(windows, filter, n));
            assert(row + Seq::<u64>::empty() =~= row);
        }
    } else {
        let m = n - 1;
        let window = windows[m];
        let id = window.id;
        let page = page_for(active_only, window);
        lemma_placed_in_order(pages, start, windows, filter, active_only, m);
        lemma_is_shown(windows, filter, m);
        lemma_rows_grow(start, windows, filter, active_only, m);
        lemma_slots_from(start, windows, filter, active_only, m);
        let old_rows = rows_after(start, windows, filter, active_only, m);
        let old_steps = steps_after(start, windows, filter, active_only, m);
        let old_now = all_carried_out(pages, old_steps);
        // This window hasn't been placed yet.
        assert(!is_shown(windows.take(m), filter, id)) by {
            if is_shown(windows.take(m), filter, id) {
                let k = choose|k: int|
                    0 <= k < windows.take(m).len() && shown(filter, #[trigger] windows.take(m)[k])
                        && windows.take(m)[k].id == id;
                assert(windows[k].id == windows[m].id);
            }
        }
        if shown(filter, window) {
            let with_page = Rows { slots: old_rows.slots, pages: old_rows.pages.insert(page) };
            let a = ensure_steps(old_rows, page);
            let b = place_steps(with_page, id, page);
            let c = seq![Step::Update { window: m as usize, id, page }];
            lemma_carried_out_add(pages, old_steps + a + b, c);
            lemma_carried_out_add(pages, old_steps + a, b);
            lemma_carried_out_add(pages, old_steps, a);
            let one = all_carried_out(old_now, a);
            let two = all_carried_out(one, b);
            lemma_carried_out_one(two, c[0]);
            assert(now == carried_out(two, c[0]));
            // The page is there now, with what it should have on it.
            lemma_visible(start, windows, filter, active_only, page, m);
            if !old_rows.pages.contains(page) {
                lemma_carried_out_one(old_now, a[0]);
                assert(!start.pages.contains(page));
                assert(visible_after(windows, filter, active_only, page, m) =~= Seq::empty());
                assert(left_on(row_of(pages, page), windows, filter, m) =~= Seq::empty());
            }
            assert(one.dom() =~= with_page.pages);
            assert forall|p: PageKey| with_page.pages.contains(p) implies #[trigger] one[p]
                == left_on(row_of(pages, p), windows, filter, m) + visible_after(
                windows,
                filter,
                active_only,
                p,
                m,
            ) by {
                if p == page && !old_rows.pages.contains(page) {
                    assert(one[p] =~= Seq::<u64>::empty() + Seq::<u64>::empty());
                } else {
                    assert(one[p] == old_now[p]);
                }
            }
            if b.len() > 0 {
                lemma_carried_out_one(one, b[0]);
                assert(b =~= seq![b[0]]);
            }
            assert(two.dom() =~= with_page.pages);
            assert(now.dom() =~= rows.pages);
            assert forall|p: PageKey| rows.pages.contains(p) implies #[trigger] now[p] == left_on(
                row_of(pages, p),
                windows,
                filter,
                n,
            ) + visible_after(windows, filter, active_only, p, n) by {
                let row = row_of(pages, p);
                let left = left_on(row, windows, filter, m);
                let placed_here = visible_after(windows, filter, active_only, p, m);
                lemma_left_on(row, windows, filter, m);
                lemma_visible(start, windows, filter, active_only, p, m);
                lemma_kept_contains(row, unplaced(windows, filter, m), id);
                assert(!placed_here.contains(id));
                lemma_to_the_end(left, placed_here, id);
                let home = start.slots.contains_key(id) && start.slots[id] == p;
                assert(row.contains(id) <==> home);
                if p == page {
                    assert(visible_after(windows, filter, active_only, p, n) == placed_here.push(id));
                    if home {
                        assert(two[p] == one[p]);
                    } else {
                        assert(two[p] == one[p].push(id));
                    }
                    assert(now[p] == without(two[p], id).push(id));
                } else {
                    if home {
                        assert(two[p] == without(one[p], id));
                    } else {
                        assert(two[p] == one[p]);
                    }
                }
            }
        } else {
            assert forall|p: PageKey| rows.pages.contains(p) implies #[trigger] now[p] == left_on(
                row_of(pages, p),
                windows,
                filter,
                n,
            ) + visible_after(windows, filter, active_only, p, n) by {
                lemma_left_on(row_of(pages, p), windows, filter, m);
                assert(now[p] == old_now[p]);
            }
        }
    }
}

/// Which windows haven't been removed yet.
spec fn unremoved(ids: Seq<u64>) -> spec_fn(u64) -> bool {
    |id: u64| !ids.contains(id)
}

/// Removing windows takes them off their pages and leaves the others.
proof fn lemma_removed(pages: Map<PageKey, Seq<u64>>, rows: Rows, ids: Seq<u64>)
    requires
        pages.dom() == rows.pages,
        forall|page: PageKey, id: u64|
            rows.pages.contains(page) && #[trigger] pages[page].contains(id) ==> rows.slots[id] == page
                || !ids.contains(id),
        forall|id: u64| ids.contains(id) ==> rows.pages.contains(#[trigger] rows.slots[id]),
    ensures
        ({
            let now = all_carried_out(pages, removal_steps(rows, ids));
            &&& now.dom() == rows.pages
            &&& forall|page: PageKey|
                rows.pages.contains(page) ==> #[trigger] now[page] == kept(
                    pages[page],
                    unremoved(ids),
                )
        }),
    decreases ids.len(),
{
    let steps = removal_steps(rows, ids);
    let now = all_carried_out(pages, steps);
    if ids.len() == 0 {
        assert forall|page: PageKey| rows.pages.contains(page) implies #[trigger] now[page] == kept(
            pages[page],
            unremoved(ids),
        ) by {
            lemma_kept_all(pages[page], unremoved(ids));
        }
    } else {
        let fewer = ids.drop_last();
        let id = ids.last();
        lemma_push_contains(fewer, id);
        assert(fewer.push(id) =~= ids);
        assert(ids.contains(id));
        assert forall|x: u64| fewer.contains(x) implies rows.pages.contains(#[trigger] rows.slots[x]) by {
            assert(ids.contains(x));
        }
        assert forall|page: PageKey, x: u64|
            rows.pages.contains(page) && #[trigger] pages[page].contains(x) implies rows.slots[x]
            == page || !fewer.contains(x) by {
            assert(ids.contains(x) <==> fewer.contains(x) || x == id);
        }
        lemma_removed(pages, rows, fewer);
        assert(steps.drop_last() =~= removal_steps(rows, fewer));
        let before = all_carried_out(pages, removal_steps(rows, fewer));
        let from = rows.slots[id];
        assert(steps.last() == Step::RemoveButton { id, from: Some(from) });
        assert(now == before.insert(from, without(before[from], id)));
        assert(now.dom() =~= rows.pages);
        assert forall|page: PageKey| rows.pages.contains(page) implies #[trigger] now[page] == kept(
            pages[page],
            unremoved(ids),
        ) by {
            let row = pages[page];
            if page == from {
                assert forall|x: u64| #[trigger] unremoved(ids)(x) == (unremoved(fewer)(x)
                    && other_than(id)(x)) by {
                    assert(ids.contains(x) <==> fewer.contains(x) || x == id);
                }
                lemma_kept_twice(row, unremoved(fewer), other_than(id), unremoved(ids));
            } else {
                assert forall|x: u64| row.contains(x) implies #[trigger] unremoved(fewer)(x)
                    == unremoved(ids)(x) by {
                    assert(pages[page].contains(x));
                    assert(ids.contains(x) <==> fewer.contains(x) || x == id);
                }
                lemma_kept_same(row, unremoved(fewer), unremoved(ids));
            }
        }
    }
}

/// Once a snapshot has been taken in, each page holds the windows that belong on it and are shown,
/// in the order of the snapshot, and nothing else, whatever was on it before.
pub proof fn law_buttons_follow_the_snapshot(
    pages: Map<PageKey, Seq<u64>>,
    start: Rows,
    windows: Seq<Window>,
    filter: FilterView,
    active_only: bool,
    target: PageKey,
    removed: Seq<Step>,
)
    requires
        agree(pages, start),
        distinct(windows),
        removes(
            removed,
            start,
            rows_after(start, windows, filter, active_only, windows.len() as int),
            windows,
            filter,
        ),
    ensures
        ({
            let n = windows.len() as int;
            let rows = rows_after(start, windows, filter, active_only, n);
            let now = all_carried_out(
                pages,
                steps_after(start, windows, filter, active_only, n) + removed + ensure_steps(
                    rows,
                    target,
                ),
            );
            let done = rows_done(start, windows, filter, active_only, target);
            &&& now.dom() == done.pages
            &&& forall|page: PageKey|
                done.pages.contains(page) ==> #[trigger] now[page] == visible_after(
                    windows,
                    filter,
                    active_only,
                    page,
                    n,
                )
        }),
{
    let n = windows.len() as int;
    let rows = rows_after(start, windows, filter, active_only, n);
    let steps = steps_after(start, windows, filter, active_only, n);
    let ids = choose|ids: Seq<u64>| #[trigger]
        ascending(ids) && (forall|id: u64|
            ids.contains(id) <==> start.slots.contains_key(id) && !is_shown(windows, filter, id))
            && removed == removal_steps(rows, ids);
    assert(windows.take(n) =~= windows);
    lemma_placed_in_order(pages, start, windows, filter, active_only, n);
    lemma_rows_grow(start, windows, filter, active_only, n);
    lemma_slots_from(start, windows, filter, active_only, n);
    let placed_pages = all_carried_out(pages, steps);
    assert forall|id: u64| ids.contains(id) implies rows.pages.contains(#[trigger] rows.slots[id])
        && rows.slots[id] == start.slots[id] by {
        assert(rows.slots.contains_key(id));
    }
    assert forall|page: PageKey, id: u64|
        rows.pages.contains(page) && #[trigger] placed_pages[page].contains(id) implies rows.slots[id]
        == page || !ids.contains(id) by {
        let left = left_on(row_of(pages, page), windows, filter, n);
        let placed_here = visible_after(windows, filter, active_only, page, n);
        lemma_visible(start, windows, filter, active_only, page, n);
        lemma_kept_contains(row_of(pages, page), unplaced(windows, filter, n), id);
        let i = choose|i: int| 0 <= i < placed_pages[page].len() && placed_pages[page][i] == id;
        if i < left.len() {
            assert(left[i] == id);
            assert(left.contains(id));
            assert(rows.slots.contains_key(id));
        } else {
            assert(placed_here[i - left.len()] == id);
            assert(placed_here.contains(id));
        }
    }
    lemma_removed(placed_pages, rows, ids);
    lemma_carried_out_add(pages, steps, removed);
    let cleared = all_carried_out(pages, steps + removed);
    assert forall|page: PageKey| rows.pages.contains(page) implies #[trigger] cleared[page]
        == visible_after(windows, filter, active_only, page, n) by {
        let row = row_of(pages, page);
        let left = left_on(row, windows, filter, n);
        let placed_here = visible_after(windows, filter, active_only, page, n);
        lemma_visible(start, windows, filter, active_only, page, n);
        lemma_kept_add(left, placed_here, unremoved(ids));
        assert forall|id: u64| placed_here.contains(id) implies #[trigger] unremoved(ids)(id) by {
            assert(is_shown(windows.take(n), filter, id));
        }
        lemma_kept_all(placed_here, unremoved(ids));
        assert forall|id: u64| left.contains(id) implies !#[trigger] unremoved(ids)(id) by {
            lemma_kept_contains(row, unplaced(windows, filter, n), id);
            assert(pages[page].contains(id));
        }
        lemma_kept_none(left, unremoved(ids));
        assert(Seq::<u64>::empty() + placed_here =~= placed_here);
        assert(placed_pages[page] == left + placed_here);
    }
    let last = ensure_steps(rows, target);
    lemma_carried_out_add(pages, steps + removed, last);
    lemma_visible(start, windows, filter, active_only, target, n);
    if !rows.pages.contains(target) {
        lemma_carried_out_one(cleared, last[0]);
        assert(visible_after(windows, filter, active_only, target, n) =~= Seq::empty());
    }
    let now = all_carried_out(pages, steps + removed + last);
    let done = rows_done(start, windows, filter, active_only, target);
    assert(now.dom() =~= done.pages);
}

/// A window's button ends up on the page it belongs on, and that page is there.
proof fn lemma_slot_of(
    start: Rows,
    windows: Seq<Window>,
    filter: FilterView,
    active_only: bool,
    n: int,
    i: int,
)
    requires
        0 <= i < n <= windows.len(),
        distinct(windows),
        shown(filter, windows[i]),
    ensures
        ({
            let rows = rows_after(start, windows, filter, active_only, n);
            &&& rows.slots.contains_key(windows[i].id)
            &&& rows.slots[windows[i].id] == page_for(active_only, windows[i])
            &&& rows.pages.contains(page_for(active_only, windows[i]))
            &&& visible_after(
                windows,
                filter,
                active_only,
                page_for(active_only, windows[i]),
                n,
            ).contains(windows[i].id)
        }),
    decreases n,
{
    let page = page_for(active_only, windows[i]);
    let all = visible_after(windows, filter, active_only, page, n);
    if i == n - 1 {
        assert(all[all.len() - 1] == windows[i].id);
    } else {
        lemma_slot_of(start, windows, filter, active_only, n - 1, i);
        assert(windows[i].id != windows[n - 1].id);
        let fewer = visible_after(windows, filter, active_only, page, n - 1);
        let k = choose|k: int| 0 <= k < fewer.len() && fewer[k] == windows[i].id;
        assert(all[k] == windows[i].id);
    }
}

/// What's visible is there for a window on the page that's shown.
proof fn lemma_visible_from(
    windows: Seq<Window>,
    filter: FilterView,
    active_only: bool,
    page: PageKey,
    n: int,
    id: u64,
)
    requires
        0 <= n <= windows.len(),
        visible_after(windows, filter, active_only, page, n).contains(id),
    ensures
        exists|i: int|
            0 <= i < n && (#[trigger] windows[i]).id == id && on_target(
                filter,
                active_only,
                page,
                windows[i],
            ),
    decreases n,
{
    let all = visible_after(windows, filter, active_only, page, n);
    if n > 0 {
        let fewer = visible_after(windows, filter, active_only, page, n - 1);
        let k = choose|k: int| 0 <= k < all.len() && all[k] == id;
        if k < fewer.len() {
            assert(fewer[k] == id);
            lemma_visible_from(windows, filter, active_only, page, n - 1, id);
        } else {
            assert(windows[n - 1].id == id);
        }
    }
}

/// Taking in a snapshot leaves the pages holding just the windows whose buttons are on them, as it
/// found them.
pub proof fn law_pages_stay_in_step(
    pages: Map<PageKey, Seq<u64>>,
    start: Rows,
    windows: Seq<Window>,
    filter: FilterView,
    active_only: bool,
    target: PageKey,
    removed: Seq<Step>,
)
    requires
        agree(pages, start),
        distinct(windows),
        removes(
            removed,
            start,
            rows_after(start, windows, filter, active_only, windows.len() as int),
            windows,
            filter,
        ),
    ensures
        ({
            let n = windows.len() as int;
            let rows = rows_after(start, windows, filter, active_only, n);
            agree(
                all_carried_out(
                    pages,
                    steps_after(start, windows, filter, active_only, n) + removed + ensure_steps(
                        rows,
                        target,
                    ),
                ),
                rows_done(start, windows, filter, active_only, target),
            )
        }),
{
    let n = windows.len() as int;
    let rows = rows_after(start, windows, filter, active_only, n);
    let now = all_carried_out(
        pages,
        steps_after(start, windows, filter, active_only, n) + removed + ensure_steps(rows, target),
    );
    let done = rows_done(start, windows, filter, active_only, target);
    law_buttons_follow_the_snapshot(pages, start, windows, filter, active_only, target, removed);
    assert forall|id: u64| #[trigger] done.slots.contains_key(id) implies done.pages.contains(
        done.slots[id],
    ) by {
        assert(is_shown(windows, filter, id));
        let i = choose|i: int|
            0 <= i < windows.len() && shown(filter, #[trigger] windows[i]) && windows[i].id == id;
        lemma_slot_of(start, windows, filter, active_only, n, i);
    }
    assert forall|page: PageKey, id: u64| done.pages.contains(page) implies (
    #[trigger] now[page].contains(id) <==> done.slots.contains_key(id) && done.slots[id] == page) by {
        if now[page].contains(id) {
            lemma_visible_from(windows, filter, active_only, page, n, id);
            let i = choose|i: int|
                0 <= i < n && (#[trigger] windows[i]).id == id && on_target(
                    filter,
                    active_only,
                    page,
                    windows[i],
                );
            lemma_slot_of(start, windows, filter, active_only, n, i);
            assert(is_shown(windows, filter, id));
        }
        if done.slots.contains_key(id) {
            assert(is_shown(windows, filter, id));
            let i = choose|i: int|
                0 <= i < windows.len() && shown(filter, #[trigger] windows[i]) && windows[i].id == id;
            lemma_slot_of(start, windows, filter, active_only, n, i);
        }
    }
}

/// With only the active workspace on show, the windows that are visible, and so the ones scrolling
/// goes through, are all on that workspace, and on an output that's shown.
pub proof fn law_only_the_active_workspace(
    windows: Seq<Window>,
    filter: FilterView,
    workspace: u64,
    n: int,
    id: u64,
)
    requires
        0 <= n <= windows.len(),
        visible_after(windows, filter, true, PageKey::Workspace(workspace), n).contains(id),
    ensures
        exists|i: int|
            0 <= i < n && (#[trigger] windows[i]).id == id && windows[i].workspace == workspace
                && filter.shows(output_name(windows[i].output)),
    decreases n,
{
    let page = PageKey::Workspace(workspace);
    let all = visible_after(windows, filter, true, page, n);
    if n > 0 {
        let fewer = visible_after(windows, filter, true, page, n - 1);
        let k = choose|k: int| 0 <= k < all.len() && all[k] == id;
        if k < fewer.len() {
            assert(fewer[k] == id);
            law_only_the_active_workspace(windows, filter, workspace, n - 1, id);
        } else {
            assert(windows[n - 1].id == id);
        }
    }
}

/// Showing every workspace, every window on an output that's shown is visible.
pub proof fn law_every_window_shows(windows: Seq<Window>, filter: FilterView, i: int, n: int)
    requires
        0 <= i < n <= windows.len(),
        filter.shows(output_name(windows[i].output)),
    ensures
        visible_after(windows, filter, false, PageKey::All, n).contains(windows[i].id),
    decreases n,
{
    let all = visible_after(windows, filter, false, PageKey::All, n);
    if i == n - 1 {
        assert(all[all.len() - 1] == windows[i].id);
    } else {
        law_every_window_shows(windows, filter, i, n - 1);
        let fewer = visible_after(windows, filter, false, PageKey::All, n - 1);
        let k = choose|k: int| 0 <= k < fewer.len() && fewer[k] == windows[i].id;
        assert(all[k] == windows[i].id);
    }
}

/// On a bar that's on one output, only the windows on that output have buttons.
pub proof fn law_only_the_bars_output(
    start: Rows,
    windows: Seq<Window>,
    output: Seq<char>,
    active_only: bool,
    target: PageKey,
    id: u64,
)
    requires
        rows_done(start, windows, FilterView::Only(output), active_only, target).slots.contains_key(id),
    ensures
        exists|i: int|
            0 <= i < windows.len() && (#[trigger] windows[i]).id == id && output_name(windows[i].output)
                == output,
{
    let filter = FilterView::Only(output);
    assert(is_shown(windows, filter, id));
    let i = choose|i: int|
        0 <= i < windows.len() && shown(filter, #[trigger] windows[i]) && windows[i].id == id;
    assert(output_name(windows[i].output) == output);
}

/// Going to another workspace and back slides one way and then the other.
pub proof fn law_slides_are_opposite(a: u8, b: u8, animation_ms: u32)
    ensures
        transition(Some(a), Some(b), animation_ms) == Transition::SlideUp <==> transition(
            Some(b),
            Some(a),
            animation_ms,
        ) == Transition::SlideDown,
{
}

/// Whether a window belongs on a page: the page of its own workspace, where only the active one is
/// on show, and the one page there is otherwise.
pub open spec fn belongs_on(active_only: bool, window: Window, page: PageKey) -> bool {
    match page {
        PageKey::All => !active_only,
        PageKey::Workspace(id) => active_only && window.workspace == id,
    }
}

/// The windows that are visible on a page are just those that belong on it and are on an output
/// that's shown, floating or tiled, in the order of the snapshot.
pub proof fn law_every_window_is_on_its_page(
    windows: Seq<Window>,
    filter: FilterView,
    active_only: bool,
    page: PageKey,
    n: int,
)
    requires
        0 <= n <= windows.len(),
    ensures
        ({
            let visible = visible_after(windows, filter, active_only, page, n);
            &&& forall|i: int|
                0 <= i < n && filter.shows(output_name((#[trigger] windows[i]).output)) && belongs_on(
                    active_only,
                    windows[i],
                    page,
                ) ==> visible.contains(windows[i].id)
            &&& forall|k: int|
                0 <= k < visible.len() ==> exists|i: int|
                    0 <= i < n && (#[trigger] windows[i]).id == #[trigger] visible[k] && filter.shows(
                        output_name(windows[i].output),
                    ) && belongs_on(active_only, windows[i], page)
            &&& distinct(windows) ==> forall|j: int, k: int, a: int, b: int|
                0 <= j < k < visible.len() && 0 <= a < n && 0 <= b < n && #[trigger] visible[j]
                    == (#[trigger] windows[a]).id && #[trigger] visible[k] == (
                #[trigger] windows[b]).id ==> a < b
        }),
    decreases n,
{
    let visible = visible_after(windows, filter, active_only, page, n);
    if n > 0 {
        law_every_window_is_on_its_page(windows, filter, active_only, page, n - 1);
        let rest = visible_after(windows, filter, active_only, page, n - 1);
        let window = windows[n - 1];
        lemma_push_contains(rest, window.id);
        assert(on_target(filter, active_only, page, window) == (filter.shows(
            output_name(window.output),
        ) && belongs_on(active_only, window, page)));
        assert forall|k: int| 0 <= k < visible.len() implies exists|i: int|
            0 <= i < n && (#[trigger] windows[i]).id == #[trigger] visible[k] && filter.shows(
                output_name(windows[i].output),
            ) && belongs_on(active_only, windows[i], page) by {
            if k < rest.len() {
                assert(visible[k] == rest[k]);
                let i = choose|i: int|
                    0 <= i < n - 1 && (#[trigger] windows[i]).id == rest[k] && filter.shows(
                        output_name(windows[i].output),
                    ) && belongs_on(active_only, windows[i], page);
                assert(windows[i].id == visible[k]);
            } else {
                assert(windows[n - 1].id == visible[k]);
            }
        }
        if distinct(windows) {
            assert forall|j: int, k: int, a: int, b: int|
                0 <= j < k < visible.len() && 0 <= a < n && 0 <= b < n && #[trigger] visible[j]
                    == (#[trigger] windows[a]).id && #[trigger] visible[k] == (
                #[trigger] windows[b]).id implies a < b by {
                assert(visible[j] == rest[j]);
                let i = choose|i: int|
                    0 <= i < n - 1 && (#[trigger] windows[i]).id == rest[j] && filter.shows(
                        output_name(windows[i].output),
                    ) && belongs_on(active_only, windows[i], page);
                if a != i {
                    if a < i {
                        assert(windows[a].id != windows[i].id);
                    } else {
                        assert(windows[i].id != windows[a].id);
                    }
                }
                if k < rest.len() {
                    assert(visible[k] == rest[k]);
                    if b == n - 1 {
                        let i = choose|i: int|
                            0 <= i < n - 1 && (#[trigger] windows[i]).id == rest[k] && filter.shows(
                                output_name(windows[i].output),
                            ) && belongs_on(active_only, windows[i], page);
                        assert(windows[i].id != windows[b].id);
                    }
                } else {
                    assert(visible[k] == windows[n - 1].id);
                    if b < n - 1 {
                        assert(windows[b].id != windows[n - 1].id);
                    }
                }
            }
        }
    }
}

/// A window has a button just if it's on an output that's shown, and the button is on the page of
/// the window's workspace, where only the active one is on show, and otherwise on the one page there
/// is.
pub proof fn law_buttons_are_where_they_belong(
    start: Rows,
    windows: Seq<Window>,
    filter: FilterView,
    active_only: bool,
    target: PageKey,
    i: int,
)
    requires
        0 <= i < windows.len(),
        distinct(windows),
    ensures
        ({
            let done = rows_done(start, windows, filter, active_only, target);
            &&& done.slots.contains_key(windows[i].id) == filter.shows(output_name(windows[i].output))
            &&& filter.shows(output_name(windows[i].output)) ==> {
                &&& done.slots[windows[i].id] == if active_only {
                    PageKey::Workspace(windows[i].workspace)
                } else {
                    PageKey::All
                }
                &&& done.pages.contains(done.slots[windows[i].id])
            }
            &&& done.pages.contains(target)
        }),
{
    let n = windows.len() as int;
    let done = rows_done(start, windows, filter, active_only, target);
    if filter.shows(output_name(windows[i].output)) {
        lemma_slot_of(start, windows, filter, active_only, n, i);
        assert(is_shown(windows, filter, windows[i].id));
    } else {
        if is_shown(windows, filter, windows[i].id) {
            let k = choose|k: int|
                0 <= k < windows.len() && shown(filter, #[trigger] windows[k]) && windows[k].id
                    == windows[i].id;
            if k < i {
                assert(windows[k].id != windows[i].id);
            } else if i < k {
                assert(windows[i].id != windows[k].id);
            }
        }
    }
}

proof fn lemma_pages_from(
    start: Rows,
    windows: Seq<Window>,
    filter: FilterView,
    active_only: bool,
    n: int,
    page: PageKey,
)
    requires
        0 <= n <= windows.len(),
        rows_after(start, windows, filter, active_only, n).pages.contains(page),
    ensures
        start.pages.contains(page) || exists|i: int|
            0 <= i < n && filter.shows(output_name((#[trigger] windows[i]).output)) && belongs_on(
                active_only,
                windows[i],
                page,
            ),
    decreases n,
{
    if n > 0 {
        let before = rows_after(start, windows, filter, active_only, n - 1);
        if before.pages.contains(page) {
            lemma_pages_from(start, windows, filter, active_only, n - 1, page);
            if !start.pages.contains(page) {
                let i = choose|i: int|
                    0 <= i < n - 1 && filter.shows(output_name((#[trigger] windows[i]).output))
                        && belongs_on(active_only, windows[i], page);
                assert(belongs_on(active_only, windows[i], page));
            }
        } else {
            assert(belongs_on(active_only, windows[n - 1], page));
        }
    }
}

/// Pages that are there stay, and the only ones that are made are the one to show and those that
/// some window that's shown belongs on.
pub proof fn law_pages_are_made_for_windows(
    start: Rows,
    windows: Seq<Window>,
    filter: FilterView,
    active_only: bool,
    target: PageKey,
    page: PageKey,
)
    ensures
        rows_done(start, windows, filter, active_only, target).pages.contains(page) ==> {
            ||| start.pages.contains(page)
            ||| page == target
            ||| exists|i: int|
                0 <= i < windows.len() && filter.shows(output_name((#[trigger] windows[i]).output))
                    && belongs_on(active_only, windows[i], page)
        },
        start.pages.contains(page) ==> rows_done(
            start,
            windows,
            filter,
            active_only,
            target,
        ).pages.contains(page),
{
    let n = windows.len() as int;
    lemma_rows_grow(start, windows, filter, active_only, n);
    if rows_after(start, windows, filter, active_only, n).pages.contains(page) {
        lemma_pages_from(start, windows, filter, active_only, n, page);
    }
}

/// The window that's focused on a page is the last of the focused windows that belong on it and are
/// on an output that's shown, and none where there's no such window.
pub proof fn law_focus_is_on_the_page(
    windows: Seq<Window>,
    filter: FilterView,
    active_only: bool,
    page: PageKey,
    n: int,
    i: int,
)
    requires
        0 <= n <= windows.len(),
    ensures
        ({
            let focused = focused_after(windows, filter, active_only, page, n);
            &&& 0 <= i < n && windows[i].is_focused && filter.shows(output_name(windows[i].output))
                && belongs_on(active_only, windows[i], page) && (forall|j: int|
                i < j < n ==> !((#[trigger] windows[j]).is_focused && filter.shows(
                    output_name(windows[j].output),
                ) && belongs_on(active_only, windows[j], page))) ==> focused == Some(windows[i].id)
            &&& (forall|j: int|
                0 <= j < n ==> !((#[trigger] windows[j]).is_focused && filter.shows(
                    output_name(windows[j].output),
                ) && belongs_on(active_only, windows[j], page))) ==> focused is None
        }),
    decreases n,
{
    if n > 0 {
        law_focus_is_on_the_page(windows, filter, active_only, page, n - 1, i);
        assert(on_target(filter, active_only, page, windows[n - 1]) == (filter.shows(
            output_name(windows[n - 1].output),
        ) && belongs_on(active_only, windows[n - 1], page)));
    }
}

/// Whether a workspace is active, on an output that's shown.
pub open spec fn is_candidate(filter: FilterView, workspace: Workspace) -> bool {
    workspace.is_active && filter.shows(output_name(workspace.output))
}

/// The page to show is that of the first workspace that's active and focused on an output that's
/// shown, then of the first that's active on one. Where there's none, or every workspace is shown at
/// once, it's the page for them all.
pub proof fn law_active_workspace_is_shown(workspaces: Seq<Workspace>, filter: FilterView, i: int)
    ensures
        target_page(workspaces, filter, false) == (PageKey::All, None::<u8>),
        0 <= i < workspaces.len() && is_candidate(filter, workspaces[i]) && workspaces[i].is_focused && (
        forall|j: int|
            0 <= j < i ==> !(is_candidate(filter, #[trigger] workspaces[j])
                && workspaces[j].is_focused)) ==> target_page(workspaces, filter, true) == (
            PageKey::Workspace(workspaces[i].id),
            Some(workspaces[i].idx),
        ),
        0 <= i < workspaces.len() && is_candidate(filter, workspaces[i]) && (forall|j: int|
            0 <= j < workspaces.len() ==> !(is_candidate(filter, #[trigger] workspaces[j])
                && workspaces[j].is_focused)) && (forall|j: int|
            0 <= j < i ==> !is_candidate(filter, #[trigger] workspaces[j])) ==> target_page(
            workspaces,
            filter,
            true,
        ) == (PageKey::Workspace(workspaces[i].id), Some(workspaces[i].idx)),
        (forall|j: int| 0 <= j < workspaces.len() ==> !is_candidate(filter, #[trigger] workspaces[j]))
            ==> target_page(workspaces, filter, true) == (PageKey::All, None::<u8>),
{
    let len = workspaces.len() as int;
    let (a, b) = (active(workspaces, filter), active_focused(workspaces, filter));
    lemma_first_from(len, 0, a);
    lemma_first_from(len, 0, b);
    let (x, y) = (first_from(len, 0, a), first_from(len, 0, b));
    assert(x < len ==> a(x));
    assert(y < len ==> b(y));
    assert forall|j: int| 0 <= j < len implies a(j) == is_candidate(filter, #[trigger] workspaces[j])
        && b(j) == (is_candidate(filter, workspaces[j]) && workspaces[j].is_focused) by {}
    if 0 <= i < len {
        assert(i < x ==> !a(i));
        assert(i < y ==> !b(i));
    }
    if x < len {
        assert(is_candidate(filter, workspaces[x]));
    }
    if y < len {
        assert(is_candidate(filter, workspaces[y]) && workspaces[y].is_focused);
    }
}

/// A page slides up to a workspace further down, and down to one further up. Anything else, or
/// without any time to do it in, is a cut.
pub proof fn law_slides_follow_the_index(from: Option<u8>, to: Option<u8>, animation_ms: u32)
    ensures
        animation_ms > 0 && from is Some && to is Some && from->0 < to->0 ==> transition(
            from,
            to,
            animation_ms,
        ) == Transition::SlideUp,
        animation_ms > 0 && from is Some && to is Some && to->0 < from->0 ==> transition(
            from,
            to,
            animation_ms,
        ) == Transition::SlideDown,
        animation_ms == 0 || from is None || to is None || from == to ==> transition(
            from,
            to,
            animation_ms,
        ) == Transition::Cut,
{
}

/// A page is only dropped for being that of a workspace that isn't there any more, while it's not
/// the one to show.
pub proof fn law_only_dead_pages_go(workspaces: Seq<Workspace>, target: PageKey, page: PageKey, i: int)
    ensures
        !stale(workspaces, target, target),
        !stale(workspaces, target, PageKey::All),
        0 <= i < workspaces.len() ==> !stale(workspaces, target, PageKey::Workspace(workspaces[i].id)),
        page matches PageKey::Workspace(id) ==> page != target && (forall|j: int|
            0 <= j < workspaces.len() ==> (#[trigger] workspaces[j]).id != id) ==> stale(
            workspaces,
            target,
            page,
        ),
{
    if 0 <= i < workspaces.len() {
        assert(is_workspace(workspaces, workspaces[i].id));
    }
}

/// No two pages have the same name.
pub proof fn law_pages_have_their_own_names(a: PageKey, b: PageKey)
    requires
        a.called() == b.called(),
    ensures
        a == b,
{
    reveal_strlit("all");
    reveal_strlit("workspace-");
    assert("all"@[0] == 'a');
    assert("workspace-"@[0] == 'w');
    match (a, b) {
        (PageKey::Workspace(x), PageKey::Workspace(y)) => {
            let (p, q) = (decimal(x as nat), decimal(y as nat));
            assert(("workspace-"@ + p).skip(10) =~= p);
            assert(("workspace-"@ + q).skip(10) =~= q);
            law_decimal_reads_back(x as nat);
            law_decimal_reads_back(y as nat);
        },
        (PageKey::All, PageKey::Workspace(y)) => {
            assert(a.called()[0] == 'a');
            assert(b.called()[0] == 'w');
        },
        (PageKey::Workspace(x), PageKey::All) => {
            assert(a.called()[0] == 'w');
            assert(b.called()[0] == 'a');
        },
        _ => {},
    }
}

proof fn lemma_steps(
    start: Rows,
    windows: Seq<Window>,
    filter: FilterView,
    active_only: bool,
    n: int,
)
    requires
        0 <= n <= windows.len() <= usize::MAX,
        distinct(windows),
    ensures
        ({
            let steps = steps_after(start, windows, filter, active_only, n);
            &&& forall|k: int|
                0 <= k < steps.len() ==> is_called_for(start, windows, #[trigger] steps[k])
            &&& forall|i: int|
                0 <= i < n && filter.shows(output_name((#[trigger] windows[i]).output))
                    ==> steps.contains(
                    Step::Update {
                        window: i as usize,
                        id: windows[i].id,
                        page: if active_only {
                            PageKey::Workspace(windows[i].workspace)
                        } else {
                            PageKey::All
                        },
                    },
                )
        }),
    decreases n,
{
    if n > 0 {
        let m = n - 1;
        lemma_steps(start, windows, filter, active_only, m);
        lemma_rows_grow(start, windows, filter, active_only, m);
        let window = windows[m];
        let id = window.id;
        let rows = rows_after(start, windows, filter, active_only, m);
        let before = steps_after(start, windows, filter, active_only, m);
        let steps = steps_after(start, windows, filter, active_only, n);
        if shown(filter, window) {
            let page = page_for(active_only, window);
            let with_page = Rows { slots: rows.slots, pages: rows.pages.insert(page) };
            let (a, b) = (ensure_steps(rows, page), place_steps(with_page, id, page));
            let last = Step::Update { window: m as usize, id, page };
            assert(!is_shown(windows.take(m), filter, id)) by {
                if is_shown(windows.take(m), filter, id) {
                    let k = choose|k: int|
                        0 <= k < windows.take(m).len() && shown(filter, #[trigger] windows.take(m)[k])
                            && windows.take(m)[k].id == id;
                    assert(windows[k].id == windows[m].id);
                }
            }
            assert(rows.slots.contains_key(id) <==> start.slots.contains_key(id));
            assert forall|k: int| 0 <= k < steps.len() implies is_called_for(
                start,
                windows,
                #[trigger] steps[k],
            ) by {
                if k < before.len() {
                    assert(steps[k] == before[k]);
                } else if k < before.len() + a.len() {
                    assert(steps[k] == a[k - before.len()]);
                } else if k < before.len() + a.len() + b.len() {
                    assert(steps[k] == b[k - before.len() - a.len()]);
                }
            }
            assert forall|i: int|
                0 <= i < n && filter.shows(
                    output_name((#[trigger] windows[i]).output),
                ) implies steps.contains(
                Step::Update {
                    window: i as usize,
                    id: windows[i].id,
                    page: if active_only {
                        PageKey::Workspace(windows[i].workspace)
                    } else {
                        PageKey::All
                    },
                },
            ) by {
                let step = Step::Update {
                    window: i as usize,
                    id: windows[i].id,
                    page: if active_only {
                        PageKey::Workspace(windows[i].workspace)
                    } else {
                        PageKey::All
                    },
                };
                if i < m {
                    let j = choose|j: int| 0 <= j < before.len() && before[j] == step;
                    assert(steps[j] == step);
                } else {
                    assert(steps[steps.len() - 1] == step);
                }
            }
        }
    }
}

/// Whether a step is called for: a page is made only where it's not there, a button only for a
/// window that has none, a button moved only off another page than the one it's to be on, and one
/// brought up to date only from its own window.
pub open spec fn is_called_for(start: Rows, windows: Seq<Window>, step: Step) -> bool {
    match step {
        Step::AddPage(page) => !start.pages.contains(page),
        Step::NewButton { id, page: _ } => !start.slots.contains_key(id),
        Step::MoveButton { id, from, to } => {
            &&& start.slots.contains_key(id)
            &&& start.slots[id] != to
            &&& from is Some ==> from->0 == start.slots[id]
            &&& start.pages.contains(start.slots[id]) ==> from is Some
        },
        Step::Update { window, id, page: _ } => window < windows.len() && windows[window as int].id == id,
        Step::RemoveButton { id: _, from: _ } => false,
    }
}

/// Every button of a window that's shown is brought up to date on its page, and nothing is made or
/// moved that doesn't have to be.
pub proof fn law_buttons_are_left_alone(
    start: Rows,
    windows: Seq<Window>,
    filter: FilterView,
    active_only: bool,
)
    requires
        windows.len() <= usize::MAX,
        distinct(windows),
    ensures
        ({
            let steps = steps_after(start, windows, filter, active_only, windows.len() as int);
            &&& forall|k: int|
                0 <= k < steps.len() ==> is_called_for(start, windows, #[trigger] steps[k])
            &&& forall|i: int|
                0 <= i < windows.len() && filter.shows(output_name((#[trigger] windows[i]).output))
                    ==> steps.contains(
                    Step::Update {
                        window: i as usize,
                        id: windows[i].id,
                        page: if active_only {
                            PageKey::Workspace(windows[i].workspace)
                        } else {
                            PageKey::All
                        },
                    },
                )
        }),
{
    lemma_steps(start, windows, filter, active_only, windows.len() as int);
}

/// A page that's visible already isn't moved to, and any other is, in the way that goes with where its
/// workspace is.
pub proof fn law_visible_pages_stay(
    visible: Option<Seq<char>>,
    target: PageKey,
    from: Option<u8>,
    to: Option<u8>,
    animation_ms: u32,
)
    ensures
        visible == Some(target.called()) ==> switched(visible, target, from, to, animation_ms) is None,
        visible != Some(target.called()) ==> switched(visible, target, from, to, animation_ms) == Some(
            transition(from, to, animation_ms),
        ),
{
}

} // verus!
