//! Putting together what Niri says of its windows and its workspaces.

use vstd::prelude::*;

use crate::ids::lemma_push_contains;
use crate::menu::numbered;
use crate::niri::{Snapshot, Window, Workspace};
use crate::order::{
    in_order, law_sorted_in_order, law_sorted_rearranges, lemma_sorted_from, lemma_sorted_len, sorted, stable_sort, within,
};
use crate::text::{first_from, lemma_first_from};

verus! {

/// A window as Niri describes it, apart from the workspace that it's on.
#[derive(Debug)]
pub struct Toplevel {
    pub id: u64,
    pub title: Option<String>,
    pub app_id: Option<String>,
    pub pid: Option<i32>,
    pub workspace_id: Option<u64>,
    pub is_focused: bool,
    pub is_floating: bool,
    pub is_urgent: bool,
    pub position: Option<(usize, usize)>,
}

/// Where the workspace that a window is on is, if it's on one that's there.
pub open spec fn workspace_of(workspaces: Seq<Workspace>, window: Toplevel) -> Option<int> {
    match window.workspace_id {
        Some(id) => {
            let i = first_from(workspaces.len() as int, 0, numbered(workspaces, id));
            if i < workspaces.len() {
                Some(i)
            } else {
                None
            }
        },
        None => None,
    }
}

/// A window, along with what's needed of the workspace that it's on.
pub open spec fn joined(window: Toplevel, workspace: Workspace) -> Window {
    Window {
        id: window.id,
        title: window.title,
        app_id: window.app_id,
        pid: window.pid,
        workspace: workspace.id,
        output: workspace.output,
        is_focused: window.is_focused,
        is_floating: window.is_floating,
        is_urgent: window.is_urgent,
        position: window.position,
    }
}

/// Where those of the first windows are that are on a workspace.
pub open spec fn placed_at(windows: Seq<Toplevel>, workspaces: Seq<Workspace>, n: int) -> Seq<usize>
    decreases n,
{
    if n <= 0 {
        Seq::empty()
    } else {
        let rest = placed_at(windows, workspaces, n - 1);
        if workspace_of(workspaces, windows[n - 1]) is Some {
            rest.push((n - 1) as usize)
        } else {
            rest
        }
    }
}

/// Whether a window comes before another, or level with it: by the index of its workspace, and then
/// by its own ID.
pub open spec fn window_le(a: Toplevel, on_a: Workspace, b: Toplevel, on_b: Workspace) -> bool {
    on_a.idx < on_b.idx || (on_a.idx == on_b.idx && a.id <= b.id)
}

/// The workspace that the window at a place is on.
pub open spec fn home(windows: Seq<Toplevel>, workspaces: Seq<Workspace>, i: usize) -> Workspace {
    workspaces[workspace_of(workspaces, windows[i as int])->0]
}

/// The order of the windows at two places.
pub open spec fn window_order(windows: Seq<Toplevel>, workspaces: Seq<Workspace>) -> spec_fn(
    usize,
    usize,
) -> bool {
    |a: usize, b: usize|
        window_le(
            windows[a as int],
            home(windows, workspaces, a),
            windows[b as int],
            home(windows, workspaces, b),
        )
}

/// Where the windows that are on a workspace are, in order.
pub open spec fn window_places(windows: Seq<Toplevel>, workspaces: Seq<Workspace>) -> Seq<usize> {
    sorted(
        placed_at(windows, workspaces, windows.len() as int),
        window_order(windows, workspaces),
    )
}

/// The windows that are on a workspace, in order.
pub open spec fn windows_in_order(windows: Seq<Toplevel>, workspaces: Seq<Workspace>) -> Seq<Window> {
    window_places(windows, workspaces).map_values(
        |i: usize| joined(windows[i as int], home(windows, workspaces, i)),
    )
}

/// Finds where the workspace that a window is on is.
fn find_workspace(workspaces: &Vec<Workspace>, window: &Toplevel) -> (r: Option<usize>)
    ensures
        match workspace_of(workspaces@, *window) {
            Some(i) => r is Some && r->0 == i && i < workspaces@.len(),
            None => r is None,
        },
{
    if let Some(id) = window.workspace_id {
        let ghost stop = numbered(workspaces@, id);
        let mut i: usize = 0;
        while i < workspaces.len()
            invariant
                i <= workspaces@.len(),
                stop == numbered(workspaces@, id),
                window.workspace_id == Some(id),
                first_from(workspaces@.len() as int, 0, stop) == first_from(
                    workspaces@.len() as int,
                    i as int,
                    stop,
                ),
            decreases workspaces@.len() - i,
        {
            if workspaces[i].id == id {
                return Some(i);
            }
            i += 1;
        }
    }
    None
}

/// Copies a string that may not be there.
fn copy_maybe(s: &Option<String>) -> (r: Option<String>)
    ensures
        r == *s,
{
    match s {
        Some(s) => Some(s.clone()),
        None => None,
    }
}

/// Returns true if a window comes before another, or level with it.
fn window_before(a: &Toplevel, on_a: &Workspace, b: &Toplevel, on_b: &Workspace) -> (r: bool)
    ensures
        r == window_le(*a, *on_a, *b, *on_b),
{
    on_a.idx < on_b.idx || (on_a.idx == on_b.idx && a.id <= b.id)
}

/// Puts together a snapshot: the windows that are on a workspace, in order of the index of the
/// workspace, and then of their own IDs. Windows that aren't on one are left out.
pub fn collect(windows: &Vec<Toplevel>, workspaces: Vec<Workspace>) -> (r: Snapshot)
    ensures
        r.windows@ == windows_in_order(windows@, workspaces@),
        r.workspaces == workspaces,
{
    let ghost on = workspaces@;
    let mut found: Vec<usize> = Vec::new();
    let mut homes: Vec<usize> = Vec::new();
    let mut i: usize = 0;
    while i < windows.len()
        invariant
            i <= windows@.len(),
            on == workspaces@,
            homes@.len() == i,
            found@ == placed_at(windows@, on, i as int),
            forall|k: int|
                0 <= k < found@.len() ==> #[trigger] found@[k] < i && workspace_of(
                    on,
                    windows@[found@[k] as int],
                ) is Some,
            forall|k: int|
                0 <= k < i ==> match workspace_of(on, windows@[k]) {
                    Some(at) => #[trigger] homes@[k] == at && at < on.len(),
                    None => true,
                },
        decreases windows@.len() - i,
    {
        match find_workspace(&workspaces, &windows[i]) {
            Some(at) => {
                found.push(i);
                homes.push(at);
            },
            None => {
                homes.push(0);
            },
        }
        i += 1;
    }
    let ghost rel = window_order(windows@, on);
    let before = |a: usize, b: usize| -> (c: bool)
        requires
            within(windows@.len(), a, b),
            homes@.len() == windows@.len(),
            homes@[a as int] < workspaces@.len(),
            homes@[b as int] < workspaces@.len(),
            workspaces@[homes@[a as int] as int] == home(windows@, workspaces@, a),
            workspaces@[homes@[b as int] as int] == home(windows@, workspaces@, b),
        ensures
            c == rel(a, b),
        { window_before(&windows[a], &workspaces[homes[a]], &windows[b], &workspaces[homes[b]]) };
    let at = stable_sort(&found, before, Ghost(rel));
    proof {
        lemma_sorted_len(found@, rel);
        assert forall|k: int| 0 <= k < at@.len() implies found@.contains(#[trigger] at@[k]) by {
            lemma_sorted_from(found@, rel, k);
        }
    }
    let ghost expected = windows_in_order(windows@, on);
    let mut r: Vec<Window> = Vec::new();
    let mut k: usize = 0;
    while k < at.len()
        invariant
            k <= at@.len(),
            on == workspaces@,
            homes@.len() == windows@.len(),
            at@ == window_places(windows@, on),
            expected == windows_in_order(windows@, on),
            forall|j: int| 0 <= j < at@.len() ==> found@.contains(#[trigger] at@[j]),
            forall|j: int|
                0 <= j < found@.len() ==> #[trigger] found@[j] < windows@.len() && workspace_of(
                    on,
                    windows@[found@[j] as int],
                ) is Some,
            forall|j: int|
                0 <= j < windows@.len() ==> match workspace_of(on, windows@[j]) {
                    Some(at) => #[trigger] homes@[j] == at && at < on.len(),
                    None => true,
                },
            r@ =~= expected.take(k as int),
        decreases at@.len() - k,
    {
        let i: usize = at[k];
        proof {
            let j = choose|j: int| 0 <= j < found@.len() && found@[j] == at@[k as int];
            assert(found@[j] < windows@.len());
            assert(homes@[i as int] < on.len());
        }
        let window = &windows[i];
        let workspace = &workspaces[homes[i]];
        r.push(
            Window {
                id: window.id,
                title: copy_maybe(&window.title),
                app_id: copy_maybe(&window.app_id),
                pid: window.pid,
                workspace: workspace.id,
                output: copy_maybe(&workspace.output),
                is_focused: window.is_focused,
                is_floating: window.is_floating,
                is_urgent: window.is_urgent,
                position: window.position,
            },
        );
        k += 1;
    }
    proof {
        assert(expected.take(k as int) =~= expected);
    }
    Snapshot { windows: r, workspaces }
}

/// Windows are in order of the index of their workspaces, and then of their own IDs.
pub proof fn law_windows_follow_their_workspaces(
    windows: Seq<Toplevel>,
    workspaces: Seq<Workspace>,
    i: int,
    j: int,
)
    requires
        0 <= i < j < windows_in_order(windows, workspaces).len(),
    ensures
        ({
            let places = window_places(windows, workspaces);
            let (a, b) = (home(windows, workspaces, places[i]), home(windows, workspaces, places[j]));
            &&& windows_in_order(windows, workspaces)[i] == joined(windows[places[i] as int], a)
            &&& windows_in_order(windows, workspaces)[j] == joined(windows[places[j] as int], b)
            &&& a.idx <= b.idx
            &&& a.idx == b.idx ==> windows[places[i] as int].id <= windows[places[j] as int].id
        }),
{
    let le = window_order(windows, workspaces);
    law_sorted_in_order(placed_at(windows, workspaces, windows.len() as int), le);
    let places = window_places(windows, workspaces);
    assert(in_order(places, le));
    assert(le(places[i], places[j]));
}

proof fn lemma_placed_at(windows: Seq<Toplevel>, workspaces: Seq<Workspace>, n: int, i: int)
    requires
        0 <= i < windows.len() <= usize::MAX,
        0 <= n <= windows.len(),
    ensures
        placed_at(windows, workspaces, n).contains(i as usize) == (i < n && workspace_of(
            workspaces,
            windows[i],
        ) is Some),
    decreases n,
{
    if n > 0 {
        let rest = placed_at(windows, workspaces, n - 1);
        lemma_placed_at(windows, workspaces, n - 1, i);
        lemma_push_contains(rest, (n - 1) as usize);
    }
}

/// The windows that are on a workspace are all there, and no others.
pub proof fn law_every_placed_window_is_there(
    windows: Seq<Toplevel>,
    workspaces: Seq<Workspace>,
    i: int,
)
    requires
        0 <= i < windows.len() <= usize::MAX,
    ensures
        window_places(windows, workspaces).contains(i as usize) == (workspace_of(
            workspaces,
            windows[i],
        ) is Some),
{
    broadcast use vstd::seq_lib::group_to_multiset_ensures;

    let found = placed_at(windows, workspaces, windows.len() as int);
    let places = window_places(windows, workspaces);
    law_sorted_rearranges(found, window_order(windows, workspaces));
    lemma_placed_at(windows, workspaces, windows.len() as int, i);
    assert(places.contains(i as usize) == (places.to_multiset().count(i as usize) > 0));
    assert(found.contains(i as usize) == (found.to_multiset().count(i as usize) > 0));
}

/// Whether a workspace is the first with the given ID.
pub open spec fn is_first_with(workspaces: Seq<Workspace>, at: int, id: u64) -> bool {
    &&& 0 <= at < workspaces.len()
    &&& workspaces[at].id == id
    &&& forall|j: int| 0 <= j < at ==> (#[trigger] workspaces[j]).id != id
}

proof fn lemma_workspace_of(workspaces: Seq<Workspace>, window: Toplevel)
    ensures
        match workspace_of(workspaces, window) {
            Some(at) => window.workspace_id is Some && is_first_with(
                workspaces,
                at,
                window.workspace_id->0,
            ),
            None => window.workspace_id is Some ==> forall|j: int|
                0 <= j < workspaces.len() ==> (#[trigger] workspaces[j]).id != window.workspace_id->0,
        },
{
    if let Some(id) = window.workspace_id {
        let stop = numbered(workspaces, id);
        lemma_first_from(workspaces.len() as int, 0, stop);
        let x = first_from(workspaces.len() as int, 0, stop);
        assert(x < workspaces.len() ==> stop(x));
        assert forall|j: int| 0 <= j < x && j < workspaces.len() implies (#[trigger] workspaces[j]).id
            != id by {
            assert(!stop(j));
        }
    }
}

/// A window is in the snapshot just if it's on a workspace that's there.
pub proof fn law_windows_need_a_workspace(
    windows: Seq<Toplevel>,
    workspaces: Seq<Workspace>,
    i: int,
)
    requires
        0 <= i < windows.len() <= usize::MAX,
    ensures
        window_places(windows, workspaces).contains(i as usize) == (windows[i].workspace_id is Some
            && exists|j: int|
            0 <= j < workspaces.len() && (#[trigger] workspaces[j]).id == windows[i].workspace_id->0),
        windows_in_order(windows, workspaces).len() == window_places(windows, workspaces).len(),
{
    law_every_placed_window_is_there(windows, workspaces, i);
    lemma_workspace_of(workspaces, windows[i]);
    if let Some(at) = workspace_of(workspaces, windows[i]) {
        assert(workspaces[at].id == windows[i].workspace_id->0);
    }
}

/// Each window in the snapshot is just as Niri describes it, with the ID and the output of the first
/// workspace that has the ID of the one it's on.
pub proof fn law_windows_keep_their_details(
    windows: Seq<Toplevel>,
    workspaces: Seq<Workspace>,
    k: int,
)
    requires
        0 <= k < windows_in_order(windows, workspaces).len(),
        windows.len() <= usize::MAX,
    ensures
        ({
            let r = windows_in_order(windows, workspaces)[k];
            let i = window_places(windows, workspaces)[k] as int;
            &&& 0 <= i < windows.len()
            &&& r.id == windows[i].id
            &&& r.title == windows[i].title
            &&& r.app_id == windows[i].app_id
            &&& r.pid == windows[i].pid
            &&& r.is_focused == windows[i].is_focused
            &&& r.is_floating == windows[i].is_floating
            &&& r.is_urgent == windows[i].is_urgent
            &&& r.position == windows[i].position
            &&& Some(r.workspace) == windows[i].workspace_id
            &&& exists|at: int| #[trigger]
                is_first_with(workspaces, at, r.workspace) && r.output == workspaces[at].output
        }),
{
    let found = placed_at(windows, workspaces, windows.len() as int);
    let le = window_order(windows, workspaces);
    lemma_sorted_len(found, le);
    lemma_sorted_from(found, le, k);
    let at = window_places(windows, workspaces)[k];
    let j = choose|j: int| 0 <= j < found.len() && found[j] == at;
    lemma_placed_within(windows, workspaces, windows.len() as int, j);
    lemma_workspace_of(workspaces, windows[at as int]);
    let x = workspace_of(workspaces, windows[at as int])->0;
    assert(is_first_with(workspaces, x, windows_in_order(windows, workspaces)[k].workspace));
}

proof fn lemma_placed_within(windows: Seq<Toplevel>, workspaces: Seq<Workspace>, n: int, j: int)
    requires
        0 <= n <= windows.len() <= usize::MAX,
        0 <= j < placed_at(windows, workspaces, n).len(),
    ensures
        placed_at(windows, workspaces, n)[j] < n,
        workspace_of(workspaces, windows[placed_at(windows, workspaces, n)[j] as int]) is Some,
    decreases n,
{
    if n > 0 {
        let rest = placed_at(windows, workspaces, n - 1);
        if j < rest.len() {
            lemma_placed_within(windows, workspaces, n - 1, j);
        }
    }
}

/// Of two windows in the snapshot, the earlier is on the workspace with the lower index, or has the
/// lower ID where the indices are the same.
pub proof fn law_lower_indices_come_first(
    windows: Seq<Toplevel>,
    workspaces: Seq<Workspace>,
    i: int,
    j: int,
    a: int,
    b: int,
)
    requires
        0 <= i < j < windows_in_order(windows, workspaces).len(),
        windows.len() <= usize::MAX,
        is_first_with(workspaces, a, windows_in_order(windows, workspaces)[i].workspace),
        is_first_with(workspaces, b, windows_in_order(windows, workspaces)[j].workspace),
    ensures
        workspaces[a].idx < workspaces[b].idx || (workspaces[a].idx == workspaces[b].idx
            && windows_in_order(windows, workspaces)[i].id <= windows_in_order(
            windows,
            workspaces,
        )[j].id),
{
    law_windows_follow_their_workspaces(windows, workspaces, i, j);
    law_windows_keep_their_details(windows, workspaces, i);
    law_windows_keep_their_details(windows, workspaces, j);
    let places = window_places(windows, workspaces);
    lemma_home(windows, workspaces, i, a);
    lemma_home(windows, workspaces, j, b);
}

proof fn lemma_home(windows: Seq<Toplevel>, workspaces: Seq<Workspace>, k: int, at: int)
    requires
        0 <= k < windows_in_order(windows, workspaces).len(),
        windows.len() <= usize::MAX,
        is_first_with(workspaces, at, windows_in_order(windows, workspaces)[k].workspace),
    ensures
        home(windows, workspaces, window_places(windows, workspaces)[k]) == workspaces[at],
{
    let found = placed_at(windows, workspaces, windows.len() as int);
    let le = window_order(windows, workspaces);
    let place = window_places(windows, workspaces)[k];
    lemma_sorted_len(found, le);
    lemma_sorted_from(found, le, k);
    let j = choose|j: int| 0 <= j < found.len() && found[j] == place;
    lemma_placed_within(windows, workspaces, windows.len() as int, j);
    lemma_workspace_of(workspaces, windows[place as int]);
    let x = workspace_of(workspaces, windows[place as int])->0;
    if x < at {
        assert(workspaces[x].id != windows_in_order(windows, workspaces)[k].workspace);
    } else if at < x {
        assert(workspaces[at].id != workspaces[x].id);
    }
}

} // verus!
