//! Which windows a notification is about.

use std::collections::HashMap;
use vstd::prelude::*;

use crate::config::Config;
use crate::ids::lemma_push_contains;
use crate::niri::{Snapshot, Window};
use crate::taskbar::{Instance, Rows};
use crate::text::{
    law_last_piece_is_the_end, pieces, same_text, split_at_char, text_of, texts,
};

verus! {

/// Text in lower case, by Unicode's rules.
pub uninterp spec fn lowercase(s: Seq<char>) -> Seq<char>;

/// Calls `str::to_lowercase`, which gives the text in lower case. What that is of each character is
/// left to the name.
#[verifier::external_body]
fn lower(s: &str) -> (r: String)
    ensures
        r@ == lowercase(s@),
{
    s.to_lowercase()
}

/// Whether a window belongs to a process.
pub open spec fn belongs(window: Window, pid: int) -> bool {
    match window.pid {
        Some(own) => own == pid,
        None => false,
    }
}

/// Where the last of the first windows to belong to a process is, if any does.
pub open spec fn last_of(windows: Seq<Window>, pid: int, n: int) -> Option<int>
    decreases n,
{
    if n <= 0 {
        None
    } else if belongs(windows[n - 1], pid) {
        Some(n - 1)
    } else {
        last_of(windows, pid, n - 1)
    }
}

/// A basic map of PIDs to windows, by their places in the list it was made from.
///
/// Windows that don't have a PID are ignored, since we can't match on them anyway. Where several
/// have the same, the last one counts.
pub struct PidWindowMap {
    windows: HashMap<i64, usize>,
}

/// What a map has for a process.
spec fn looked_up(map: Map<i64, usize>, pid: i64) -> Option<int> {
    if map.contains_key(pid) {
        Some(map[pid] as int)
    } else {
        None
    }
}

impl PidWindowMap {
    /// Where the window for a process is, if there's one.
    pub closed spec fn at(self, pid: i64) -> Option<int> {
        looked_up(self.windows@, pid)
    }

    pub fn new(windows: &Vec<Window>) -> (r: Self)
        ensures
            forall|pid: i64| #[trigger]
                r.at(pid) == last_of(windows@, pid as int, windows@.len() as int),
    {
        broadcast use vstd::std_specs::hash::group_hash_axioms;

        let mut map: HashMap<i64, usize> = HashMap::new();
        let mut i: usize = 0;
        while i < windows.len()
            invariant
                i <= windows@.len(),
                forall|pid: i64| #[trigger]
                    looked_up(map@, pid) == last_of(windows@, pid as int, i as int),
            decreases windows@.len() - i,
        {
            let ghost before = map@;
            if let Some(pid) = windows[i].pid {
                map.insert(pid as i64, i);
            }
            proof {
                assert forall|pid: i64| #[trigger]
                    looked_up(map@, pid) == last_of(windows@, pid as int, i + 1) by {
                    assert(looked_up(before, pid) == last_of(windows@, pid as int, i as int));
                }
            }
            i += 1;
        }
        PidWindowMap { windows: map }
    }

    /// Returns where the window for a process is, if there's one.
    pub fn get(&self, pid: i64) -> (r: Option<usize>)
        ensures
            match self.at(pid) {
                Some(at) => r is Some && r->0 == at,
                None => r is None,
            },
    {
        broadcast use vstd::std_specs::hash::group_hash_axioms;

        match self.windows.get(&pid) {
            Some(at) => Some(*at),
            None => None,
        }
    }
}

/// The window to mark as urgent for a process, if any: not the focused one, and not one without a
/// button.
pub open spec fn marked_for(windows: Seq<Window>, rows: Rows, pid: i64) -> Option<u64> {
    match last_of(windows, pid as int, windows.len() as int) {
        Some(at) => if !windows[at].is_focused && rows.slots.contains_key(windows[at].id) {
            Some(windows[at].id)
        } else {
            None
        },
        None => None,
    }
}

/// The windows to mark as urgent for the first processes.
pub open spec fn marked_by_pid(windows: Seq<Window>, rows: Rows, pids: Seq<i64>, n: int) -> Seq<u64>
    decreases n,
{
    if n <= 0 {
        Seq::empty()
    } else {
        let rest = marked_by_pid(windows, rows, pids, n - 1);
        match marked_for(windows, rows, pids[n - 1]) {
            Some(id) => rest.push(id),
            None => rest,
        }
    }
}

/// Finds the windows to mark as urgent, given the process that sent a notification, its parent, and
/// so on up.
pub fn by_pid(windows: &Vec<Window>, taskbar: &Instance, pids: &Vec<i64>) -> (r: Vec<u64>)
    ensures
        r@ == marked_by_pid(windows@, taskbar.rows(), pids@, pids@.len() as int),
{
    let map = PidWindowMap::new(windows);
    let mut r: Vec<u64> = Vec::new();
    let mut i: usize = 0;
    while i < pids.len()
        invariant
            i <= pids@.len(),
            forall|pid: i64| #[trigger]
                map.at(pid) == last_of(windows@, pid as int, windows@.len() as int),
            r@ == marked_by_pid(windows@, taskbar.rows(), pids@, i as int),
        decreases pids@.len() - i,
    {
        if let Some(at) = map.get(pids[i]) {
            proof {
                lemma_last_of(windows@, pids@[i as int] as int, windows@.len() as int);
            }
            let window = &windows[at];
            if !window.is_focused && taskbar.has_button(window.id) {
                r.push(window.id);
            }
        }
        i += 1;
    }
    r
}

proof fn lemma_last_of(windows: Seq<Window>, pid: int, n: int)
    requires
        0 <= n <= windows.len(),
    ensures
        match last_of(windows, pid, n) {
            Some(at) => 0 <= at < n && belongs(windows[at], pid),
            None => true,
        },
    decreases n,
{
    if n > 0 {
        lemma_last_of(windows, pid, n - 1);
    }
}

/// An app ID in lower case, and the last of its components.
#[derive(Debug)]
pub struct Lowered {
    pub whole: String,
    pub last: String,
}

/// What a [`Lowered`] says.
#[verifier::ext_equal]
pub struct LoweredView {
    pub whole: Seq<char>,
    pub last: Seq<char>,
}

impl View for Lowered {
    type V = LoweredView;

    open spec fn view(&self) -> LoweredView {
        LoweredView { whole: self.whole@, last: self.last@ }
    }
}

/// An app ID in lower case, and the last of its components.
pub open spec fn lowered(app_id: Seq<char>) -> LoweredView {
    LoweredView { whole: lowercase(app_id), last: lowercase(pieces(app_id, '.').last()) }
}

/// Whether a window is an exact match for an app ID.
pub open spec fn exact(window: Window, mapped: Seq<char>) -> bool {
    text_of(window.app_id) == Some(mapped)
}

/// Whether a window is a fuzzy match for an app ID: they match case insensitively, or the last
/// component of the one matches the last component of the other.
pub open spec fn fuzzy(window: Window, own: LoweredView, mapped: LoweredView) -> bool {
    match text_of(window.app_id) {
        Some(app_id) => own.whole == mapped.whole || (pieces(app_id, '.').len() > 1 && own.last
            == mapped.last),
        None => false,
    }
}

/// Those of the first windows that are exact matches and have buttons.
pub open spec fn exact_matches(windows: Seq<Window>, rows: Rows, mapped: Seq<char>, n: int) -> Seq<u64>
    decreases n,
{
    if n <= 0 {
        Seq::empty()
    } else {
        let rest = exact_matches(windows, rows, mapped, n - 1);
        let window = windows[n - 1];
        if exact(window, mapped) && rows.slots.contains_key(window.id) {
            rest.push(window.id)
        } else {
            rest
        }
    }
}

/// Those of the first windows that are fuzzy matches only and have buttons, given each one's app ID
/// in lower case.
pub open spec fn fuzzy_matches(
    windows: Seq<Window>,
    rows: Rows,
    own: Seq<LoweredView>,
    mapped: Seq<char>,
    mapped_lower: LoweredView,
    n: int,
) -> Seq<u64>
    decreases n,
{
    if n <= 0 {
        Seq::empty()
    } else {
        let rest = fuzzy_matches(windows, rows, own, mapped, mapped_lower, n - 1);
        let window = windows[n - 1];
        if !exact(window, mapped) && fuzzy(window, own[n - 1], mapped_lower)
            && rows.slots.contains_key(window.id) {
            rest.push(window.id)
        } else {
            rest
        }
    }
}

/// The windows to mark as urgent for an app ID: the ones that match it exactly, or failing that, if
/// it's wanted, the ones that match it loosely.
pub open spec fn marked_by_entry(
    windows: Seq<Window>,
    rows: Rows,
    own: Seq<LoweredView>,
    mapped: Seq<char>,
    mapped_lower: LoweredView,
    use_fuzzy: bool,
) -> Seq<u64> {
    let n = windows.len() as int;
    let exact_ids = exact_matches(windows, rows, mapped, n);
    if exact_ids.len() == 0 && use_fuzzy {
        fuzzy_matches(windows, rows, own, mapped, mapped_lower, n)
    } else {
        exact_ids
    }
}

/// What each of a sequence says.
pub open spec fn lowered_views(s: Seq<Lowered>) -> Seq<LoweredView> {
    s.map_values(|l: Lowered| l@)
}

/// Finds the windows to mark as urgent for an app ID, given it and each window's app ID (or nothing,
/// for windows without one) in lower case.
pub fn by_lowered(
    windows: &Vec<Window>,
    taskbar: &Instance,
    own: &Vec<Lowered>,
    mapped: &str,
    mapped_lower: &Lowered,
    use_fuzzy: bool,
) -> (r: Vec<u64>)
    requires
        own@.len() == windows@.len(),
    ensures
        r@ == marked_by_entry(
            windows@,
            taskbar.rows(),
            lowered_views(own@),
            mapped@,
            mapped_lower@,
            use_fuzzy,
        ),
{
    let ghost views = lowered_views(own@);
    let mut found: Vec<u64> = Vec::new();
    let mut loose: Vec<u64> = Vec::new();
    let mut i: usize = 0;
    while i < windows.len()
        invariant
            i <= windows@.len(),
            own@.len() == windows@.len(),
            views == lowered_views(own@),
            found@ == exact_matches(windows@, taskbar.rows(), mapped@, i as int),
            loose@ == fuzzy_matches(
                windows@,
                taskbar.rows(),
                views,
                mapped@,
                mapped_lower@,
                i as int,
            ),
        decreases windows@.len() - i,
    {
        let window = &windows[i];
        if let Some(app_id) = &window.app_id {
            if same_text(app_id.as_str(), mapped) {
                if taskbar.has_button(window.id) {
                    found.push(window.id);
                }
            } else {
                let matches: bool = if same_text(
                    own[i].whole.as_str(),
                    mapped_lower.whole.as_str(),
                ) {
                    true
                } else {
                    let parts = split_at_char(app_id.as_str(), '.');
                    proof {
                        assert(texts(parts@).len() == parts@.len());
                    }
                    parts.len() > 1 && same_text(own[i].last.as_str(), mapped_lower.last.as_str())
                };
                if matches && taskbar.has_button(window.id) {
                    loose.push(window.id);
                }
            }
        }
        i += 1;
    }
    if found.len() == 0 && use_fuzzy {
        loose
    } else {
        found
    }
}

/// Puts an app ID, and the last of its components, in lower case.
fn lower_app_id(app_id: &str) -> (r: Lowered)
    ensures
        r@ == lowered(app_id@),
{
    let parts = split_at_char(app_id, '.');
    proof {
        assert(texts(parts@).last() == parts@.last()@);
    }
    Lowered { whole: lower(app_id), last: lower(parts[parts.len() - 1].as_str()) }
}

/// Each window's app ID in lower case.
pub open spec fn lowered_app_ids(windows: Seq<Window>) -> Seq<LoweredView> {
    windows.map_values(
        |w: Window|
            match text_of(w.app_id) {
                Some(app_id) => lowered(app_id),
                None => LoweredView { whole: Seq::empty(), last: Seq::empty() },
            },
    )
}

/// Finds the windows to mark as urgent for an app ID.
pub fn by_app_id(windows: &Vec<Window>, taskbar: &Instance, mapped: &str, use_fuzzy: bool) -> (r: Vec<
    u64,
>)
    ensures
        r@ == marked_by_entry(
            windows@,
            taskbar.rows(),
            lowered_app_ids(windows@),
            mapped@,
            lowered(mapped@),
            use_fuzzy,
        ),
{
    let mapped_lower = lower_app_id(mapped);
    let mut own: Vec<Lowered> = Vec::new();
    let mut i: usize = 0;
    while i < windows.len()
        invariant
            i <= windows@.len(),
            own@.len() == i,
            forall|j: int| 0 <= j < i ==> (#[trigger] own@[j])@ == lowered_app_ids(windows@)[j],
        decreases windows@.len() - i,
    {
        let next: Lowered = match &windows[i].app_id {
            Some(app_id) => lower_app_id(app_id.as_str()),
            None => Lowered { whole: String::new(), last: String::new() },
        };
        proof {
            if windows@[i as int].app_id is None {
                assert(next.whole@ =~= Seq::empty());
                assert(next.last@ =~= Seq::empty());
            }
        }
        own.push(next);
        i += 1;
    }
    proof {
        assert(lowered_views(own@) =~= lowered_app_ids(windows@));
    }
    by_lowered(windows, taskbar, &own, mapped, &mapped_lower, use_fuzzy)
}

/// The app ID that a desktop entry stands for.
pub open spec fn mapped_entry(config: Config, entry: Seq<char>) -> Seq<char> {
    if config.notifications.map_app_ids@.contains_key(entry) {
        config.notifications.map_app_ids@[entry]@
    } else {
        entry
    }
}

/// The windows to mark as urgent for a notification: by its sender if that leads anywhere, and
/// otherwise by its desktop entry, if there's one and those are in use.
pub open spec fn marked(
    windows: Seq<Window>,
    rows: Rows,
    config: Config,
    pids: Seq<i64>,
    entry: Option<Seq<char>>,
) -> Seq<u64> {
    let found = marked_by_pid(windows, rows, pids, pids.len() as int);
    if found.len() > 0 {
        found
    } else {
        match entry {
            Some(entry) if config.notifications.use_desktop_entry => {
                let mapped = mapped_entry(config, entry);
                marked_by_entry(
                    windows,
                    rows,
                    lowered_app_ids(windows),
                    mapped,
                    lowered(mapped),
                    config.notifications.use_fuzzy_matching,
                )
            },
            _ => Seq::empty(),
        }
    }
}

/// Works out which windows to mark as urgent for a notification, given the process that sent it, if
/// that's known, along with its parent and so on up, and its desktop entry, if it has one. There are
/// none until there's been a snapshot.
pub fn process_notification(
    last_snapshot: Option<&Snapshot>,
    taskbar: &Instance,
    config: &Config,
    pids: &Vec<i64>,
    desktop_entry: Option<&str>,
) -> (r: Vec<u64>)
    ensures
        r@ == match last_snapshot {
            Some(snapshot) => marked(
                snapshot.windows@,
                taskbar.rows(),
                *config,
                pids@,
                match desktop_entry {
                    Some(entry) => Some(entry@),
                    None => None,
                },
            ),
            None => Seq::empty(),
        },
{
    match last_snapshot {
        Some(snapshot) => {
            let found = by_pid(&snapshot.windows, taskbar, pids);
            if found.len() > 0 {
                return found;
            }
            if !config.notifications_use_desktop_entry() {
                return Vec::new();
            }
            match desktop_entry {
                Some(entry) => {
                    let mapped: &str = match config.notifications_app_map(entry) {
                        Some(mapped) => mapped,
                        None => entry,
                    };
                    by_app_id(
                        &snapshot.windows,
                        taskbar,
                        mapped,
                        config.notifications_use_fuzzy_matching(),
                    )
                },
                None => Vec::new(),
            }
        },
        None => Vec::new(),
    }
}

/// Only windows with buttons that aren't focused are marked for a process.
pub proof fn law_marked_by_pid(windows: Seq<Window>, rows: Rows, pids: Seq<i64>, n: int, id: u64)
    requires
        0 <= n <= pids.len(),
        marked_by_pid(windows, rows, pids, n).contains(id),
    ensures
        rows.slots.contains_key(id),
        exists|i: int, k: int|
            0 <= i < windows.len() && 0 <= k < n && (#[trigger] windows[i]).id == id
                && !windows[i].is_focused && belongs(windows[i], #[trigger] pids[k] as int),
    decreases n,
{
    if n > 0 {
        let all = marked_by_pid(windows, rows, pids, n);
        let rest = marked_by_pid(windows, rows, pids, n - 1);
        let j = choose|j: int| 0 <= j < all.len() && all[j] == id;
        if j < rest.len() {
            assert(rest[j] == id);
            law_marked_by_pid(windows, rows, pids, n - 1, id);
        } else {
            let pid = pids[n - 1];
            lemma_last_of(windows, pid as int, windows.len() as int);
            let at = last_of(windows, pid as int, windows.len() as int)->0;
            assert(windows[at].id == id && belongs(windows[at], pids[n - 1] as int));
        }
    }
}

/// As long as one window that matches exactly has a button, fuzzy matches don't count.
pub proof fn law_exact_matches_win(
    windows: Seq<Window>,
    rows: Rows,
    own: Seq<LoweredView>,
    mapped: Seq<char>,
    mapped_lower: LoweredView,
    use_fuzzy: bool,
    i: int,
)
    requires
        0 <= i < windows.len(),
        exact(windows[i], mapped),
        rows.slots.contains_key(windows[i].id),
    ensures
        marked_by_entry(windows, rows, own, mapped, mapped_lower, use_fuzzy) == exact_matches(
            windows,
            rows,
            mapped,
            windows.len() as int,
        ),
        marked_by_entry(windows, rows, own, mapped, mapped_lower, use_fuzzy).contains(windows[i].id),
{
    lemma_exact_match(windows, rows, mapped, windows.len() as int, i);
}

proof fn lemma_exact_match(windows: Seq<Window>, rows: Rows, mapped: Seq<char>, n: int, i: int)
    requires
        0 <= i < n <= windows.len(),
        exact(windows[i], mapped),
        rows.slots.contains_key(windows[i].id),
    ensures
        exact_matches(windows, rows, mapped, n).contains(windows[i].id),
    decreases n,
{
    let all = exact_matches(windows, rows, mapped, n);
    if i == n - 1 {
        assert(all[all.len() - 1] == windows[i].id);
    } else {
        lemma_exact_match(windows, rows, mapped, n - 1, i);
        let rest = exact_matches(windows, rows, mapped, n - 1);
        let k = choose|k: int| 0 <= k < rest.len() && rest[k] == windows[i].id;
        assert(all[k] == windows[i].id);
    }
}

/// A notification whose sender leads to a window is never matched by its desktop entry.
pub proof fn law_sender_comes_first(
    windows: Seq<Window>,
    rows: Rows,
    config: Config,
    pids: Seq<i64>,
    entry: Option<Seq<char>>,
    other: Option<Seq<char>>,
)
    requires
        marked_by_pid(windows, rows, pids, pids.len() as int).len() > 0,
    ensures
        marked(windows, rows, config, pids, entry) == marked(windows, rows, config, pids, other),
{
}

/// Whether a window is the last that belongs to a process.
pub open spec fn is_last_of(windows: Seq<Window>, i: int, pid: i64) -> bool {
    &&& 0 <= i < windows.len()
    &&& windows[i].pid is Some
    &&& windows[i].pid->0 == pid
    &&& forall|j: int|
        i < j < windows.len() ==> !((#[trigger] windows[j]).pid is Some && windows[j].pid->0 == pid)
}

proof fn lemma_is_last(windows: Seq<Window>, pid: i64, n: int, i: int)
    requires
        0 <= i < n <= windows.len(),
        windows[i].pid is Some,
        windows[i].pid->0 == pid,
        forall|j: int|
            i < j < n ==> !((#[trigger] windows[j]).pid is Some && windows[j].pid->0 == pid),
    ensures
        last_of(windows, pid as int, n) == Some(i),
    decreases n,
{
    if i < n - 1 {
        assert(!(windows[n - 1].pid is Some && windows[n - 1].pid->0 == pid));
        lemma_is_last(windows, pid, n - 1, i);
    }
}

proof fn lemma_last_of_is(windows: Seq<Window>, pid: i64, n: int)
    requires
        0 <= n <= windows.len(),
    ensures
        match last_of(windows, pid as int, n) {
            Some(at) => {
                &&& 0 <= at < n
                &&& windows[at].pid is Some
                &&& windows[at].pid->0 == pid
                &&& forall|j: int|
                    at < j < n ==> !((#[trigger] windows[j]).pid is Some && windows[j].pid->0 == pid)
            },
            None => forall|j: int|
                0 <= j < n ==> !((#[trigger] windows[j]).pid is Some && windows[j].pid->0 == pid),
        },
    decreases n,
{
    if n > 0 {
        lemma_last_of_is(windows, pid, n - 1);
    }
}

/// The windows marked for some processes are just those that are the last to belong to one of them,
/// have a button, and aren't focused.
pub proof fn law_every_process_marks_its_window(
    windows: Seq<Window>,
    rows: Rows,
    pids: Seq<i64>,
    n: int,
    id: u64,
)
    requires
        0 <= n <= pids.len(),
    ensures
        marked_by_pid(windows, rows, pids, n).contains(id) <==> exists|k: int, i: int|
            0 <= k < n && #[trigger] is_last_of(windows, i, pids[k]) && windows[i].id == id
                && !windows[i].is_focused && rows.slots.contains_key(id),
    decreases n,
{
    if n > 0 {
        law_every_process_marks_its_window(windows, rows, pids, n - 1, id);
        let rest = marked_by_pid(windows, rows, pids, n - 1);
        let all = marked_by_pid(windows, rows, pids, n);
        let pid = pids[n - 1];
        lemma_last_of_is(windows, pid, windows.len() as int);
        if let Some(marked) = marked_for(windows, rows, pid) {
            lemma_push_contains(rest, marked);
        }
        if rest.contains(id) {
            let (k, i) = choose|k: int, i: int|
                0 <= k < n - 1 && #[trigger] is_last_of(windows, i, pids[k]) && windows[i].id == id
                    && !windows[i].is_focused && rows.slots.contains_key(id);
            assert(is_last_of(windows, i, pids[k]));
        } else if all.contains(id) {
            let at = last_of(windows, pid as int, windows.len() as int)->0;
            assert(is_last_of(windows, at, pids[n - 1]));
        }
        if exists|k: int, i: int|
            0 <= k < n && #[trigger] is_last_of(windows, i, pids[k]) && windows[i].id == id
                && !windows[i].is_focused && rows.slots.contains_key(id) {
            let (k, i) = choose|k: int, i: int|
                0 <= k < n && #[trigger] is_last_of(windows, i, pids[k]) && windows[i].id == id
                    && !windows[i].is_focused && rows.slots.contains_key(id);
            if k == n - 1 {
                lemma_is_last(windows, pid, windows.len() as int, i);
                assert(marked_for(windows, rows, pid) == Some(id));
            } else {
                assert(is_last_of(windows, i, pids[k]));
            }
        }
    }
}

proof fn lemma_exact_matches(windows: Seq<Window>, rows: Rows, mapped: Seq<char>, n: int, id: u64)
    requires
        0 <= n <= windows.len(),
    ensures
        exact_matches(windows, rows, mapped, n).contains(id) <==> exists|i: int|
            0 <= i < n && (#[trigger] windows[i]).id == id && windows[i].app_id is Some
                && windows[i].app_id->0@ == mapped && rows.slots.contains_key(id),
    decreases n,
{
    if n > 0 {
        lemma_exact_matches(windows, rows, mapped, n - 1, id);
        let rest = exact_matches(windows, rows, mapped, n - 1);
        lemma_push_contains(rest, windows[n - 1].id);
        if rest.contains(id) {
            let i = choose|i: int|
                0 <= i < n - 1 && (#[trigger] windows[i]).id == id && windows[i].app_id is Some
                    && windows[i].app_id->0@ == mapped && rows.slots.contains_key(id);
            assert(windows[i].id == id);
        } else if exact_matches(windows, rows, mapped, n).contains(id) {
            assert(windows[n - 1].id == id);
        }
    }
}

/// Whether a window matches an app ID loosely, but not exactly: the whole of their app IDs are the
/// same in lower case, or the window's app ID has several components, the last of which is the same
/// as the other's in lower case.
pub open spec fn is_loose_match(
    window: Window,
    own: LoweredView,
    mapped: Seq<char>,
    mapped_lower: LoweredView,
) -> bool {
    match window.app_id {
        Some(app_id) => {
            &&& app_id@ != mapped
            &&& own.whole == mapped_lower.whole || (app_id@.contains('.') && own.last
                == mapped_lower.last)
        },
        None => false,
    }
}

proof fn lemma_fuzzy_matches(
    windows: Seq<Window>,
    rows: Rows,
    own: Seq<LoweredView>,
    mapped: Seq<char>,
    mapped_lower: LoweredView,
    n: int,
    id: u64,
)
    requires
        0 <= n <= windows.len(),
    ensures
        fuzzy_matches(windows, rows, own, mapped, mapped_lower, n).contains(id) <==> exists|i: int|
            0 <= i < n && (#[trigger] windows[i]).id == id && is_loose_match(
                windows[i],
                own[i],
                mapped,
                mapped_lower,
            ) && rows.slots.contains_key(id),
    decreases n,
{
    if n > 0 {
        lemma_fuzzy_matches(windows, rows, own, mapped, mapped_lower, n - 1, id);
        let rest = fuzzy_matches(windows, rows, own, mapped, mapped_lower, n - 1);
        let window = windows[n - 1];
        lemma_push_contains(rest, window.id);
        if let Some(app_id) = window.app_id {
            law_last_piece_is_the_end(app_id@, '.', 0);
        }
        assert(is_loose_match(window, own[n - 1], mapped, mapped_lower) == (!exact(window, mapped)
            && fuzzy(window, own[n - 1], mapped_lower)));
        if rest.contains(id) {
            let i = choose|i: int|
                0 <= i < n - 1 && (#[trigger] windows[i]).id == id && is_loose_match(
                    windows[i],
                    own[i],
                    mapped,
                    mapped_lower,
                ) && rows.slots.contains_key(id);
            assert(windows[i].id == id);
        } else if fuzzy_matches(windows, rows, own, mapped, mapped_lower, n).contains(id) {
            assert(windows[n - 1].id == id);
        }
    }
}

/// The windows marked for an app ID are those with a button whose app ID is just that. Only where
/// there's none of them, and it's wanted, are they those with a button that match it loosely.
pub proof fn law_every_match_is_marked(
    windows: Seq<Window>,
    rows: Rows,
    own: Seq<LoweredView>,
    mapped: Seq<char>,
    mapped_lower: LoweredView,
    use_fuzzy: bool,
    id: u64,
)
    ensures
        ({
            let ids = marked_by_entry(windows, rows, own, mapped, mapped_lower, use_fuzzy);
            let any_exact = exists|i: int|
                0 <= i < windows.len() && (#[trigger] windows[i]).app_id is Some
                    && windows[i].app_id->0@ == mapped && rows.slots.contains_key(windows[i].id);
            &&& any_exact || !use_fuzzy ==> (ids.contains(id) <==> exists|i: int|
                0 <= i < windows.len() && (#[trigger] windows[i]).id == id && windows[i].app_id is Some
                    && windows[i].app_id->0@ == mapped && rows.slots.contains_key(id))
            &&& !any_exact && use_fuzzy ==> (ids.contains(id) <==> exists|i: int|
                0 <= i < windows.len() && (#[trigger] windows[i]).id == id && is_loose_match(
                    windows[i],
                    own[i],
                    mapped,
                    mapped_lower,
                ) && rows.slots.contains_key(id))
        }),
{
    let n = windows.len() as int;
    let found = exact_matches(windows, rows, mapped, n);
    lemma_exact_matches(windows, rows, mapped, n, id);
    lemma_fuzzy_matches(windows, rows, own, mapped, mapped_lower, n, id);
    if found.len() > 0 {
        lemma_exact_matches(windows, rows, mapped, n, found[0]);
        assert(found.contains(found[0]));
        let i = choose|i: int|
            0 <= i < windows.len() && (#[trigger] windows[i]).id == found[0] && windows[i].app_id is Some
                && windows[i].app_id->0@ == mapped && rows.slots.contains_key(found[0]);
        assert(rows.slots.contains_key(windows[i].id));
    }
    if exists|i: int|
        0 <= i < windows.len() && (#[trigger] windows[i]).app_id is Some && windows[i].app_id->0@
            == mapped && rows.slots.contains_key(windows[i].id) {
        let i = choose|i: int|
            0 <= i < windows.len() && (#[trigger] windows[i]).app_id is Some && windows[i].app_id->0@
                == mapped && rows.slots.contains_key(windows[i].id);
        lemma_exact_match(windows, rows, mapped, n, i);
        assert(found.len() > 0);
    }
}

/// An app ID is matched by all of it in lower case, and by what comes after its last dot, all of it
/// where there's none.
pub proof fn law_app_ids_are_matched_in_lower_case(app_id: Seq<char>, at: int)
    ensures
        lowered(app_id).whole == lowercase(app_id),
        !app_id.contains('.') ==> lowered(app_id).last == lowercase(app_id),
        0 <= at < app_id.len() && app_id[at] == '.' && (forall|i: int|
            at < i < app_id.len() ==> app_id[i] != '.') ==> lowered(app_id).last == lowercase(
            app_id.skip(at + 1),
        ),
{
    law_last_piece_is_the_end(app_id, '.', at);
}

/// A notification whose sender leads to no window marks those for its desktop entry, as the
/// configuration maps it, with the loose matches that the configuration asks for. It marks none where
/// it has no desktop entry, or where those aren't to be used.
pub proof fn law_desktop_entries_come_second(
    windows: Seq<Window>,
    rows: Rows,
    config: Config,
    pids: Seq<i64>,
    entry: Option<Seq<char>>,
)
    ensures
        ({
            let by_pid = marked_by_pid(windows, rows, pids, pids.len() as int);
            let ids = marked(windows, rows, config, pids, entry);
            &&& by_pid.len() > 0 ==> ids == by_pid
            &&& by_pid.len() == 0 && (entry is None || !config.notifications.use_desktop_entry)
                ==> ids.len() == 0
            &&& by_pid.len() == 0 && entry is Some && config.notifications.use_desktop_entry ==> {
                let map = config.notifications.map_app_ids@;
                let mapped = if map.contains_key(entry->0) {
                    map[entry->0]@
                } else {
                    entry->0
                };
                ids == marked_by_entry(
                    windows,
                    rows,
                    lowered_app_ids(windows),
                    mapped,
                    lowered(mapped),
                    config.notifications.use_fuzzy_matching,
                )
            }
        }),
{
}

/// Each window is matched by its own app ID, and by nothing where it hasn't one.
pub proof fn law_windows_match_by_their_own_app_id(windows: Seq<Window>, i: int)
    requires
        0 <= i < windows.len(),
    ensures
        lowered_app_ids(windows).len() == windows.len(),
        windows[i].app_id is Some ==> lowered_app_ids(windows)[i] == lowered(windows[i].app_id->0@),
        windows[i].app_id is None ==> lowered_app_ids(windows)[i].whole.len() == 0 && lowered_app_ids(
            windows,
        )[i].last.len() == 0,
{
}

} // verus!
