//! The workspace switcher.

use std::collections::BTreeMap;
use vstd::prelude::*;

use crate::ids::{ascending, ids_in, lemma_push_contains, lemma_take_contains};
use crate::kept::{
    kept, lemma_kept_add, lemma_kept_all, lemma_kept_contains, lemma_kept_none, lemma_kept_twice,
    lemma_to_the_end, other_than, without,
};
use crate::menu::workspace_name;
use crate::niri::{name_of, output_name, Snapshot, Workspace};
use crate::order::{
    in_order, law_sorted_in_order, law_sorted_rearranges, lemma_sorted_from, lemma_sorted_len,
    sorted, stable_sort, within,
};
use crate::output::{Filter, FilterView};
use crate::text::{
    all_digits, decimal_of, digits_value, law_decimal_reads_back, same_text, texts,
};

verus! {

/// What a workspace's button says: the workspace's name, or its index where it doesn't have one.
pub fn label(workspace: &Workspace) -> (r: String)
    ensures
        r@ == workspace_name(*workspace),
{
    match &workspace.name {
        Some(name) => name.clone(),
        None => decimal_of(workspace.idx as u64),
    }
}

/// Something to do to the buttons, with labels as `T`.
#[derive(Debug)]
pub enum Step<T> {
    /// Makes a button for a workspace, and adds it to the end of the row.
    New { id: u64, label: T },
    /// Changes what a workspace's button says.
    Label { id: u64, label: T },
    /// Brings the look of a workspace's button up to date, and moves it to the end of the row. The
    /// workspace is given by its place in the snapshot.
    Update { workspace: usize, id: u64 },
    /// Takes a workspace's button out of the row.
    Remove { id: u64 },
}

impl Step<String> {
    /// The same step, with its label as text.
    pub open spec fn says(self) -> Step<Seq<char>> {
        match self {
            Step::New { id, label } => Step::New { id, label: label@ },
            Step::Label { id, label } => Step::Label { id, label: label@ },
            Step::Update { workspace, id } => Step::Update { workspace, id },
            Step::Remove { id } => Step::Remove { id },
        }
    }
}

/// What each step in a sequence says.
pub open spec fn steps_say(steps: Seq<Step<String>>) -> Seq<Step<Seq<char>>> {
    steps.map_values(|s: Step<String>| s.says())
}

/// Whether a workspace is shown.
pub open spec fn shown(filter: FilterView, workspace: Workspace) -> bool {
    filter.shows(output_name(workspace.output))
}

/// Where the first workspaces that are shown are.
pub open spec fn shown_at(workspaces: Seq<Workspace>, filter: FilterView, n: int) -> Seq<usize>
    decreases n,
{
    if n <= 0 {
        Seq::empty()
    } else {
        let rest = shown_at(workspaces, filter, n - 1);
        if shown(filter, workspaces[n - 1]) {
            rest.push((n - 1) as usize)
        } else {
            rest
        }
    }
}

/// Whether a workspace comes before another, or level with it: by index, then by ID.
pub open spec fn comes_before(a: Workspace, b: Workspace) -> bool {
    a.idx < b.idx || (a.idx == b.idx && a.id <= b.id)
}

/// The order of the workspaces at two places.
pub open spec fn row_order(workspaces: Seq<Workspace>) -> spec_fn(usize, usize) -> bool {
    |a: usize, b: usize| comes_before(workspaces[a as int], workspaces[b as int])
}

/// Where the workspaces that are shown are, in the order they're shown in.
pub open spec fn visible(workspaces: Seq<Workspace>, filter: FilterView) -> Seq<usize> {
    sorted(shown_at(workspaces, filter, workspaces.len() as int), row_order(workspaces))
}

/// The labels once the first workspaces have been shown.
pub open spec fn labels_after(
    start: Map<u64, Seq<char>>,
    workspaces: Seq<Workspace>,
    labels: Seq<Seq<char>>,
    at: Seq<usize>,
    n: int,
) -> Map<u64, Seq<char>>
    decreases n,
{
    if n <= 0 {
        start
    } else {
        let i = at[n - 1] as int;
        labels_after(start, workspaces, labels, at, n - 1).insert(workspaces[i].id, labels[i])
    }
}

/// What it takes for a workspace's button to say what it should.
pub open spec fn label_steps(have: Map<u64, Seq<char>>, id: u64, label: Seq<char>) -> Seq<
    Step<Seq<char>>,
> {
    if !have.contains_key(id) {
        seq![Step::New { id, label }]
    } else if have[id] != label {
        seq![Step::Label { id, label }]
    } else {
        Seq::empty()
    }
}

/// What it takes to show the first workspaces.
pub open spec fn steps_after(
    start: Map<u64, Seq<char>>,
    workspaces: Seq<Workspace>,
    labels: Seq<Seq<char>>,
    at: Seq<usize>,
    n: int,
) -> Seq<Step<Seq<char>>>
    decreases n,
{
    if n <= 0 {
        Seq::empty()
    } else {
        let i = at[n - 1] as int;
        let id = workspaces[i].id;
        let have = labels_after(start, workspaces, labels, at, n - 1);
        steps_after(start, workspaces, labels, at, n - 1) + label_steps(have, id, labels[i]) + seq![
            Step::Update { workspace: at[n - 1], id },
        ]
    }
}

/// Whether a workspace is among the first ones shown.
pub open spec fn is_shown(workspaces: Seq<Workspace>, at: Seq<usize>, n: int, id: u64) -> bool {
    exists|k: int| 0 <= k < n && workspaces[#[trigger] at[k] as int].id == id
}

/// What it takes to take buttons out of the row.
pub open spec fn removal_steps(ids: Seq<u64>) -> Seq<Step<Seq<char>>> {
    ids.map_values(|id: u64| Step::Remove { id })
}

/// Whether these steps take out the buttons that were there to start with and aren't shown any more,
/// in order of workspace.
pub open spec fn removes(
    steps: Seq<Step<Seq<char>>>,
    start: Map<u64, Seq<char>>,
    workspaces: Seq<Workspace>,
    at: Seq<usize>,
) -> bool {
    exists|ids: Seq<u64>| #[trigger]
        ascending(ids) && (forall|id: u64|
            ids.contains(id) <==> start.contains_key(id) && !is_shown(
                workspaces,
                at,
                at.len() as int,
                id,
            )) && steps == removal_steps(ids)
}

/// The workspace that the indicator sits under, among the first ones shown: the first active one, or
/// the last one that's focused as well.
pub open spec fn target_after(workspaces: Seq<Workspace>, at: Seq<usize>, n: int) -> Option<u64>
    decreases n,
{
    if n <= 0 {
        None
    } else {
        let rest = target_after(workspaces, at, n - 1);
        let workspace = workspaces[at[n - 1] as int];
        if workspace.is_active && (rest is None || workspace.is_focused) {
            Some(workspace.id)
        } else {
            rest
        }
    }
}

/// How the switcher takes in a snapshot.
#[derive(Debug)]
pub struct Rendering {
    /// What to do to the buttons, in order.
    pub steps: Vec<Step<String>>,
    /// Which workspace the indicator should sit under: the active one on this output, or the
    /// focused one if the bar is showing several outputs at once.
    pub target: Option<u64>,
}

/// The buttons of a workspace switcher, by what they say.
#[derive(Debug)]
pub struct Instance {
    buttons: BTreeMap<u64, String>,
}

impl Instance {
    /// What each workspace's button says.
    pub closed spec fn labels(self) -> Map<u64, Seq<char>> {
        self.buttons@.map_values(|label: String| label@)
    }

    /// A switcher without any buttons.
    pub fn new() -> (r: Self)
        ensures
            r.labels() == Map::<u64, Seq<char>>::empty(),
    {
        let r = Instance { buttons: BTreeMap::new() };
        proof {
            assert(r.labels() =~= Map::empty());
        }
        r
    }

    /// Finds where the workspaces that are shown are, in the order they're shown in.
    fn find_visible(workspaces: &Vec<Workspace>, filter: &Filter) -> (r: Vec<usize>)
        ensures
            r@ == visible(workspaces@, filter@),
            forall|k: int| 0 <= k < r@.len() ==> #[trigger] r@[k] < workspaces@.len(),
    {
        let mut found: Vec<usize> = Vec::new();
        let mut i: usize = 0;
        while i < workspaces.len()
            invariant
                i <= workspaces@.len(),
                found@ == shown_at(workspaces@, filter@, i as int),
                forall|j: int| 0 <= j < found@.len() ==> #[trigger] found@[j] < workspaces@.len(),
            decreases workspaces@.len() - i,
        {
            if filter.should_show(name_of(&workspaces[i].output)) {
                found.push(i);
            }
            i += 1;
        }
        let ghost rel = row_order(workspaces@);
        let before = |a: usize, b: usize| -> (c: bool)
            requires
                within(workspaces@.len(), a, b),
            ensures
                c == rel(a, b),
            {
                let (a, b) = (&workspaces[a], &workspaces[b]);
                a.idx < b.idx || (a.idx == b.idx && a.id <= b.id)
            };
        let r = stable_sort(&found, before, Ghost(rel));
        proof {
            lemma_sorted_len(found@, rel);
            assert forall|k: int| 0 <= k < r@.len() implies #[trigger] r@[k] < workspaces@.len() by {
                lemma_sorted_from(found@, rel, k);
            }
        }
        r
    }

    /// Takes in a snapshot, given what each workspace's button should say: shows the workspaces that
    /// the filter does, in order, and takes out the others.
    pub fn render(&mut self, snapshot: &Snapshot, labels: &Vec<String>, filter: &Filter) -> (r:
        Rendering)
        requires
            labels@.len() == snapshot.workspaces@.len(),
        ensures
            ({
                let start = old(self).labels();
                let workspaces = snapshot.workspaces@;
                let at = visible(workspaces, filter@);
                let n = at.len() as int;
                &&& final(self).labels() == labels_after(
                    start,
                    workspaces,
                    texts(labels@),
                    at,
                    n,
                ).restrict(Set::new(|id: u64| is_shown(workspaces, at, n, id)))
                &&& r.target == target_after(workspaces, at, n)
                &&& exists|removed: Seq<Step<Seq<char>>>| #[trigger]
                    removes(removed, start, workspaces, at) && steps_say(r.steps@) == steps_after(
                        start,
                        workspaces,
                        texts(labels@),
                        at,
                        n,
                    ) + removed
            }),
    {
        let workspaces = &snapshot.workspaces;
        let ghost start = self.labels();
        let ghost says = texts(labels@);
        let at = Self::find_visible(workspaces, filter);
        let before = ids_in(&self.buttons);
        let mut steps: Vec<Step<String>> = Vec::new();
        let mut target: Option<u64> = None;
        let mut still: BTreeMap<u64, ()> = BTreeMap::new();
        let mut k: usize = 0;
        proof {
            assert(steps_say(steps@) =~= Seq::empty());
        }
        while k < at.len()
            invariant
                k <= at@.len(),
                workspaces == &snapshot.workspaces,
                labels@.len() == workspaces@.len(),
                says == texts(labels@),
                forall|j: int| 0 <= j < at@.len() ==> #[trigger] at@[j] < workspaces@.len(),
                self.labels() == labels_after(start, workspaces@, says, at@, k as int),
                steps_say(steps@) == steps_after(start, workspaces@, says, at@, k as int),
                target == target_after(workspaces@, at@, k as int),
                forall|id: u64| #[trigger]
                    still@.contains_key(id) <==> is_shown(workspaces@, at@, k as int, id),
            decreases at@.len() - k,
        {
            let i: usize = at[k];
            let workspace = &workspaces[i];
            let id: u64 = workspace.id;
            let label: &String = &labels[i];
            let ghost have = self.labels();
            let ghost done = steps@;
            proof {
                lemma_is_shown(workspaces@, at@, k as int);
                assert(says[i as int] == label@);
            }
            let step: Option<Step<String>> = match self.buttons.get(&id) {
                Some(old_label) => if same_text(old_label.as_str(), label.as_str()) {
                    None
                } else {
                    Some(Step::Label { id, label: label.clone() })
                },
                None => Some(Step::New { id, label: label.clone() }),
            };
            if let Some(step) = step {
                proof {
                    assert(steps_say(done.push(step)) =~= steps_say(done).push(step.says()));
                }
                steps.push(step);
            }
            proof {
                assert(steps_say(steps@) =~= steps_say(done) + label_steps(have, id, label@));
            }
            let ghost labelled = steps@;
            self.buttons.insert(id, label.clone());
            proof {
                assert(self.labels() =~= have.insert(id, label@));
            }
            steps.push(Step::Update { workspace: i, id });
            proof {
                assert(steps_say(steps@) =~= steps_say(labelled) + seq![
                    Step::Update { workspace: i, id },
                ]);
            }
            still.insert(id, ());
            if workspace.is_active && (target.is_none() || workspace.is_focused) {
                target = Some(id);
            }
            k += 1;
        }
        let ghost n = at@.len() as int;
        let ghost all = self.labels();
        let ghost placed = steps_say(steps@);
        let ghost mut ids: Seq<u64> = Seq::empty();
        let mut k: usize = 0;
        proof {
            assert(removal_steps(ids) =~= Seq::empty());
        }
        while k < before.len()
            invariant
                k <= before@.len(),
                n == at@.len(),
                ascending(before@),
                forall|id: u64| before@.contains(id) <==> start.contains_key(id),
                forall|id: u64| #[trigger]
                    still@.contains_key(id) <==> is_shown(workspaces@, at@, n, id),
                forall|id: u64|
                    ids.contains(id) <==> before@.take(k as int).contains(id) && !is_shown(
                        workspaces@,
                        at@,
                        n,
                        id,
                    ),
                forall|j: int| 0 <= j < ids.len() && k < before@.len() ==> #[trigger] ids[j] < before@[k as int],
                ascending(ids),
                steps_say(steps@) == placed + removal_steps(ids),
                forall|id: u64| #[trigger]
                    self.labels().contains_key(id) <==> all.contains_key(id) && !ids.contains(id),
                forall|id: u64| #[trigger]
                    self.labels().contains_key(id) ==> self.labels()[id] == all[id],
            decreases before@.len() - k,
        {
            let id: u64 = before[k];
            let ghost fewer = ids;
            let ghost earlier = self.labels();
            let ghost done = steps@;
            proof {
                assert(before@.contains(id));
                lemma_take_contains(before@, k as int);
            }
            if !still.contains_key(&id) {
                self.buttons.remove(&id);
                steps.push(Step::Remove { id });
                proof {
                    assert(self.labels() =~= earlier.remove(id));
                    ids = ids.push(id);
                    lemma_push_contains(fewer, id);
                    assert(removal_steps(ids) =~= removal_steps(fewer).push(Step::Remove { id }));
                    assert(steps_say(steps@) =~= steps_say(done).push(Step::Remove { id }));
                    assert(steps_say(steps@) =~= placed + removal_steps(ids));
                }
            }
            k += 1;
        }
        proof {
            assert(before@.take(k as int) =~= before@);
            assert(ascending(ids));
            assert(removes(removal_steps(ids), start, workspaces@, at@));
            lemma_labels_from(start, workspaces@, says, at@, n);
            assert(self.labels() =~= all.restrict(
                Set::new(|id: u64| is_shown(workspaces@, at@, n, id)),
            ));
        }
        Rendering { steps, target }
    }
}

proof fn lemma_is_shown(workspaces: Seq<Workspace>, at: Seq<usize>, k: int)
    requires
        0 <= k < at.len(),
    ensures
        forall|id: u64| #[trigger]
            is_shown(workspaces, at, k + 1, id) <==> is_shown(workspaces, at, k, id)
                || workspaces[at[k] as int].id == id,
{
}

/// A button that's there once the workspaces are shown was there before, or is for one of them.
proof fn lemma_labels_from(
    start: Map<u64, Seq<char>>,
    workspaces: Seq<Workspace>,
    labels: Seq<Seq<char>>,
    at: Seq<usize>,
    n: int,
)
    requires
        0 <= n <= at.len(),
    ensures
        forall|id: u64| #[trigger]
            labels_after(start, workspaces, labels, at, n).contains_key(id) <==> start.contains_key(id)
                || is_shown(workspaces, at, n, id),
    decreases n,
{
    if n > 0 {
        lemma_labels_from(start, workspaces, labels, at, n - 1);
        lemma_is_shown(workspaces, at, n - 1);
        let fewer = labels_after(start, workspaces, labels, at, n - 1);
        let all = labels_after(start, workspaces, labels, at, n);
        assert forall|id: u64| #[trigger] all.contains_key(id) <==> start.contains_key(id) || is_shown(
            workspaces,
            at,
            n,
            id,
        ) by {
            assert(fewer.contains_key(id) <==> start.contains_key(id) || is_shown(
                workspaces,
                at,
                n - 1,
                id,
            ));
            assert(is_shown(workspaces, at, n - 1 + 1, id) == is_shown(workspaces, at, n, id));
        }
    }
}

/// The workspaces are shown in order of index.
pub proof fn law_workspaces_show_in_order(workspaces: Seq<Workspace>, filter: FilterView)
    ensures
        in_order(visible(workspaces, filter), row_order(workspaces)),
{
    law_sorted_in_order(
        shown_at(workspaces, filter, workspaces.len() as int),
        row_order(workspaces),
    );
}

/// The indicator sits under a workspace that's shown and active, as long as there's one.
pub proof fn law_indicator_is_under_an_active_workspace(
    workspaces: Seq<Workspace>,
    at: Seq<usize>,
    n: int,
)
    requires
        0 <= n <= at.len(),
    ensures
        match target_after(workspaces, at, n) {
            Some(id) => exists|k: int|
                0 <= k < n && workspaces[#[trigger] at[k] as int].id == id
                    && workspaces[at[k] as int].is_active,
            None => forall|k: int| 0 <= k < n ==> !workspaces[#[trigger] at[k] as int].is_active,
        },
    decreases n,
{
    if n > 0 {
        law_indicator_is_under_an_active_workspace(workspaces, at, n - 1);
        let w = workspaces[at[n - 1] as int];
        if !(w.is_active && (target_after(workspaces, at, n - 1) is None || w.is_focused)) {
            if let Some(id) = target_after(workspaces, at, n - 1) {
                let k = choose|k: int|
                    0 <= k < n - 1 && workspaces[#[trigger] at[k] as int].id == id
                        && workspaces[at[k] as int].is_active;
                assert(workspaces[at[k] as int].id == id);
            }
        }
    }
}

/// The workspaces in the row, in order, once a step has been carried out.
pub open spec fn carried_out(row: Seq<u64>, step: Step<Seq<char>>) -> Seq<u64> {
    match step {
        Step::New { id, label: _ } => row.push(id),
        Step::Label { id: _, label: _ } => row,
        Step::Update { workspace: _, id } => without(row, id).push(id),
        Step::Remove { id } => without(row, id),
    }
}

/// The workspaces in the row, in order, once every step has been carried out.
pub open spec fn all_carried_out(row: Seq<u64>, steps: Seq<Step<Seq<char>>>) -> Seq<u64>
    decreases steps.len(),
{
    if steps.len() == 0 {
        row
    } else {
        carried_out(all_carried_out(row, steps.drop_last()), steps.last())
    }
}

/// The IDs of the workspaces at the given places.
pub open spec fn ids_at(workspaces: Seq<Workspace>, at: Seq<usize>) -> Seq<u64> {
    at.map_values(|i: usize| workspaces[i as int].id)
}

/// Whether no two workspaces have the same ID.
pub open spec fn distinct(workspaces: Seq<Workspace>) -> bool {
    forall|i: int, j: int|
        0 <= i < j < workspaces.len() ==> (#[trigger] workspaces[i]).id != (
        #[trigger] workspaces[j]).id
}

proof fn lemma_carried_out_add(row: Seq<u64>, a: Seq<Step<Seq<char>>>, b: Seq<Step<Seq<char>>>)
    ensures
        all_carried_out(row, a + b) == all_carried_out(all_carried_out(row, a), b),
    decreases b.len(),
{
    if b.len() == 0 {
        assert(a + b =~= a);
    } else {
        assert((a + b).drop_last() =~= a + b.drop_last());
        lemma_carried_out_add(row, a, b.drop_last());
    }
}

proof fn lemma_carried_out_one(row: Seq<u64>, step: Step<Seq<char>>)
    ensures
        all_carried_out(row, seq![step]) == carried_out(row, step),
{
    assert(seq![step].drop_last() =~= Seq::empty());
    assert(all_carried_out(row, seq![step].drop_last()) == row);
}

/// Which workspaces haven't been shown yet.
spec fn unshown(workspaces: Seq<Workspace>, at: Seq<usize>, n: int) -> spec_fn(u64) -> bool {
    |id: u64| !is_shown(workspaces, at, n, id)
}

/// Which workspaces haven't been taken out yet.
spec fn unremoved(ids: Seq<u64>) -> spec_fn(u64) -> bool {
    |id: u64| !ids.contains(id)
}

proof fn lemma_shown_in_order(
    row: Seq<u64>,
    start: Map<u64, Seq<char>>,
    workspaces: Seq<Workspace>,
    labels: Seq<Seq<char>>,
    at: Seq<usize>,
    n: int,
)
    requires
        0 <= n <= at.len(),
        forall|id: u64| row.contains(id) <==> start.contains_key(id),
        ids_at(workspaces, at).no_duplicates(),
    ensures
        all_carried_out(row, steps_after(start, workspaces, labels, at, n)) == kept(
            row,
            unshown(workspaces, at, n),
        ) + ids_at(workspaces, at).take(n),
    decreases n,
{
    let all_ids = ids_at(workspaces, at);
    if n == 0 {
        lemma_kept_all(row, unshown(workspaces, at, n));
        assert(row + all_ids.take(0) =~= row);
    } else {
        let m = n - 1;
        let i = at[m] as int;
        let id = workspaces[i].id;
        lemma_shown_in_order(row, start, workspaces, labels, at, m);
        lemma_is_shown(workspaces, at, m);
        lemma_labels_from(start, workspaces, labels, at, m);
        assert(!is_shown(workspaces, at, m, id)) by {
            if is_shown(workspaces, at, m, id) {
                let k = choose|k: int| 0 <= k < m && workspaces[#[trigger] at[k] as int].id == id;
                assert(all_ids[k] == all_ids[m]);
            }
        }
        let have = labels_after(start, workspaces, labels, at, m);
        let before = steps_after(start, workspaces, labels, at, m);
        let a = label_steps(have, id, labels[i]);
        let b = seq![Step::<Seq<char>>::Update { workspace: at[m], id }];
        lemma_carried_out_add(row, before + a, b);
        lemma_carried_out_add(row, before, a);
        let one = all_carried_out(row, before);
        let two = all_carried_out(one, a);
        lemma_carried_out_one(two, b[0]);
        if a.len() > 0 {
            lemma_carried_out_one(one, a[0]);
            assert(a =~= seq![a[0]]);
        }
        let left = kept(row, unshown(workspaces, at, m));
        let placed = all_ids.take(m);
        assert(!placed.contains(id)) by {
            if placed.contains(id) {
                let k = choose|k: int| 0 <= k < placed.len() && placed[k] == id;
                assert(all_ids[k] == all_ids[m]);
            }
        }
        lemma_kept_twice(
            row,
            unshown(workspaces, at, m),
            other_than(id),
            unshown(workspaces, at, n),
        );
        lemma_to_the_end(left, placed, id);
        lemma_kept_contains(row, unshown(workspaces, at, m), id);
        assert(all_ids.take(n) =~= placed.push(id));
        if !have.contains_key(id) {
            assert(two == one.push(id));
        } else {
            assert(two == one);
        }
    }
}

proof fn lemma_removed(row: Seq<u64>, ids: Seq<u64>)
    ensures
        all_carried_out(row, removal_steps(ids)) == kept(row, unremoved(ids)),
    decreases ids.len(),
{
    if ids.len() == 0 {
        lemma_kept_all(row, unremoved(ids));
    } else {
        let fewer = ids.drop_last();
        let id = ids.last();
        lemma_push_contains(fewer, id);
        assert(fewer.push(id) =~= ids);
        lemma_removed(row, fewer);
        assert(removal_steps(ids).drop_last() =~= removal_steps(fewer));
        assert forall|x: u64| #[trigger] unremoved(ids)(x) == (unremoved(fewer)(x) && other_than(id)(
            x,
        )) by {
            assert(ids.contains(x) <==> fewer.contains(x) || x == id);
        }
        lemma_kept_twice(row, unremoved(fewer), other_than(id), unremoved(ids));
    }
}

proof fn lemma_shown_at(workspaces: Seq<Workspace>, filter: FilterView, n: int)
    requires
        0 <= n <= workspaces.len(),
        workspaces.len() <= usize::MAX,
    ensures
        forall|k: int|
            0 <= k < shown_at(workspaces, filter, n).len() ==> #[trigger] shown_at(
                workspaces,
                filter,
                n,
            )[k] < n,
        shown_at(workspaces, filter, n).no_duplicates(),
    decreases n,
{
    if n > 0 {
        lemma_shown_at(workspaces, filter, n - 1);
    }
}

/// Once a snapshot has been taken in, the row holds the workspaces that are shown, in order, and
/// nothing else, whatever was in it before.
pub proof fn law_buttons_follow_the_snapshot(
    row: Seq<u64>,
    start: Map<u64, Seq<char>>,
    workspaces: Seq<Workspace>,
    labels: Seq<Seq<char>>,
    filter: FilterView,
    removed: Seq<Step<Seq<char>>>,
)
    requires
        forall|id: u64| row.contains(id) <==> start.contains_key(id),
        distinct(workspaces),
        workspaces.len() <= usize::MAX,
        removes(removed, start, workspaces, visible(workspaces, filter)),
    ensures
        ({
            let at = visible(workspaces, filter);
            all_carried_out(
                row,
                steps_after(start, workspaces, labels, at, at.len() as int) + removed,
            ) == ids_at(workspaces, at)
        }),
{
    let found = shown_at(workspaces, filter, workspaces.len() as int);
    let at = visible(workspaces, filter);
    let n = at.len() as int;
    let all_ids = ids_at(workspaces, at);
    lemma_shown_at(workspaces, filter, workspaces.len() as int);
    lemma_sorted_len(found, row_order(workspaces));
    law_sorted_rearranges(found, row_order(workspaces));
    assert(at.no_duplicates()) by {
        found.lemma_multiset_has_no_duplicates();
        at.lemma_multiset_has_no_duplicates_conv();
    }
    assert forall|k: int| 0 <= k < at.len() implies #[trigger] at[k] < workspaces.len() by {
        lemma_sorted_from(found, row_order(workspaces), k);
    }
    assert(all_ids.no_duplicates()) by {
        assert forall|j: int, k: int| 0 <= j < all_ids.len() && 0 <= k < all_ids.len() && j
            != k implies all_ids[j] != all_ids[k] by {
            let (a, b) = (at[j] as int, at[k] as int);
            assert(a != b);
            if a < b {
                assert(workspaces[a].id != workspaces[b].id);
            } else {
                assert(workspaces[b].id != workspaces[a].id);
            }
        }
    }
    lemma_shown_in_order(row, start, workspaces, labels, at, n);
    let ids = choose|ids: Seq<u64>| #[trigger]
        ascending(ids) && (forall|id: u64|
            ids.contains(id) <==> start.contains_key(id) && !is_shown(workspaces, at, n, id))
            && removed == removal_steps(ids);
    let steps = steps_after(start, workspaces, labels, at, n);
    lemma_carried_out_add(row, steps, removed);
    let left = kept(row, unshown(workspaces, at, n));
    assert(all_ids.take(n) =~= all_ids);
    lemma_removed(left + all_ids, ids);
    lemma_kept_add(left, all_ids, unremoved(ids));
    assert forall|id: u64| left.contains(id) implies !#[trigger] unremoved(ids)(id) by {
        lemma_kept_contains(row, unshown(workspaces, at, n), id);
    }
    lemma_kept_none(left, unremoved(ids));
    assert forall|id: u64| all_ids.contains(id) implies #[trigger] unremoved(ids)(id) by {
        let k = choose|k: int| 0 <= k < all_ids.len() && all_ids[k] == id;
        assert(workspaces[at[k] as int].id == id);
    }
    lemma_kept_all(all_ids, unremoved(ids));
    assert(Seq::<u64>::empty() + all_ids =~= all_ids);
}

proof fn lemma_shown_at_contains(workspaces: Seq<Workspace>, filter: FilterView, n: int, i: int)
    requires
        0 <= i < workspaces.len() <= usize::MAX,
        0 <= n <= workspaces.len(),
    ensures
        shown_at(workspaces, filter, n).contains(i as usize) == (i < n && filter.shows(
            output_name(workspaces[i].output),
        )),
    decreases n,
{
    if n > 0 {
        let rest = shown_at(workspaces, filter, n - 1);
        lemma_shown_at_contains(workspaces, filter, n - 1, i);
        lemma_push_contains(rest, (n - 1) as usize);
    }
}

/// Every workspace on an output that's shown has a button, just the one, whatever else there is to
/// the workspace, and no other workspace has.
pub proof fn law_every_shown_workspace_has_a_button(
    workspaces: Seq<Workspace>,
    filter: FilterView,
    i: int,
)
    requires
        0 <= i < workspaces.len() <= usize::MAX,
    ensures
        visible(workspaces, filter).contains(i as usize) == filter.shows(
            output_name(workspaces[i].output),
        ),
        visible(workspaces, filter).no_duplicates(),
{
    broadcast use vstd::seq_lib::group_to_multiset_ensures;

    let found = shown_at(workspaces, filter, workspaces.len() as int);
    let at = visible(workspaces, filter);
    law_sorted_rearranges(found, row_order(workspaces));
    lemma_shown_at_contains(workspaces, filter, workspaces.len() as int, i);
    lemma_shown_at(workspaces, filter, workspaces.len() as int);
    assert(at.contains(i as usize) == (at.to_multiset().count(i as usize) > 0));
    assert(found.contains(i as usize) == (found.to_multiset().count(i as usize) > 0));
    found.lemma_multiset_has_no_duplicates();
    at.lemma_multiset_has_no_duplicates_conv();
}

/// Of two buttons, the one further left is for the workspace with the lower index, or for the one
/// with the lower ID where the indices are the same.
pub proof fn law_lower_indices_are_further_left(
    workspaces: Seq<Workspace>,
    filter: FilterView,
    j: int,
    k: int,
)
    requires
        0 <= j < k < visible(workspaces, filter).len(),
    ensures
        ({
            let a = workspaces[visible(workspaces, filter)[j] as int];
            let b = workspaces[visible(workspaces, filter)[k] as int];
            a.idx < b.idx || (a.idx == b.idx && a.id <= b.id)
        }),
{
    law_workspaces_show_in_order(workspaces, filter);
    let at = visible(workspaces, filter);
    assert(row_order(workspaces)(at[j], at[k]));
}

/// Whether one of the workspaces shown, from a place in the row on, is both active and focused.
spec fn focused_from(workspaces: Seq<Workspace>, at: Seq<usize>, k: int, n: int) -> bool {
    exists|j: int|
        k <= j < n && workspaces[#[trigger] at[j] as int].is_active
            && workspaces[at[j] as int].is_focused
}

proof fn lemma_target(workspaces: Seq<Workspace>, at: Seq<usize>, n: int, k: int)
    requires
        0 <= k < n <= at.len(),
        workspaces[at[k] as int].is_active,
        !focused_from(workspaces, at, k + 1, n),
        workspaces[at[k] as int].is_focused || !focused_from(workspaces, at, 0, n),
        workspaces[at[k] as int].is_focused || (forall|j: int|
            0 <= j < k ==> !workspaces[#[trigger] at[j] as int].is_active),
    ensures
        target_after(workspaces, at, n) == Some(workspaces[at[k] as int].id),
    decreases n,
{
    if k < n - 1 {
        let w = workspaces[at[n - 1] as int];
        assert(!(w.is_active && w.is_focused));
        assert(!focused_from(workspaces, at, k + 1, n - 1));
        assert(focused_from(workspaces, at, 0, n - 1) ==> focused_from(workspaces, at, 0, n));
        lemma_target(workspaces, at, n - 1, k);
    } else if !workspaces[at[k] as int].is_focused {
        law_indicator_is_under_an_active_workspace(workspaces, at, n - 1);
    }
}

/// The indicator sits under the workspace that's focused, where one that's shown is. Where it's none
/// of them, it sits under the first one that's active.
pub proof fn law_indicator_is_under_the_focused_workspace(
    workspaces: Seq<Workspace>,
    at: Seq<usize>,
    k: int,
)
    requires
        0 <= k < at.len(),
        workspaces[at[k] as int].is_active,
    ensures
        workspaces[at[k] as int].is_focused && (forall|j: int|
            k < j < at.len() ==> !(workspaces[#[trigger] at[j] as int].is_active
                && workspaces[at[j] as int].is_focused)) ==> target_after(
            workspaces,
            at,
            at.len() as int,
        ) == Some(workspaces[at[k] as int].id),
        (forall|j: int|
            0 <= j < at.len() ==> !(workspaces[#[trigger] at[j] as int].is_active
                && workspaces[at[j] as int].is_focused)) && (forall|j: int|
            0 <= j < k ==> !workspaces[#[trigger] at[j] as int].is_active) ==> target_after(
            workspaces,
            at,
            at.len() as int,
        ) == Some(workspaces[at[k] as int].id),
{
    let n = at.len() as int;
    if workspaces[at[k] as int].is_focused && (forall|j: int|
        k < j < at.len() ==> !(workspaces[#[trigger] at[j] as int].is_active
            && workspaces[at[j] as int].is_focused)) {
        assert(!focused_from(workspaces, at, k + 1, n));
        lemma_target(workspaces, at, n, k);
    }
    if (forall|j: int|
        0 <= j < at.len() ==> !(workspaces[#[trigger] at[j] as int].is_active
            && workspaces[at[j] as int].is_focused)) && (forall|j: int|
        0 <= j < k ==> !workspaces[#[trigger] at[j] as int].is_active) {
        assert(!focused_from(workspaces, at, k + 1, n));
        assert(!focused_from(workspaces, at, 0, n));
        lemma_target(workspaces, at, n, k);
    }
}

/// What each button says once a step has been carried out.
pub open spec fn said_after(have: Map<u64, Seq<char>>, step: Step<Seq<char>>) -> Map<u64, Seq<char>> {
    match step {
        Step::New { id, label } => have.insert(id, label),
        Step::Label { id, label } => have.insert(id, label),
        Step::Update { workspace: _, id: _ } => have,
        Step::Remove { id } => have.remove(id),
    }
}

/// What each button says once every step has been carried out.
pub open spec fn all_said_after(have: Map<u64, Seq<char>>, steps: Seq<Step<Seq<char>>>) -> Map<
    u64,
    Seq<char>,
>
    decreases steps.len(),
{
    if steps.len() == 0 {
        have
    } else {
        said_after(all_said_after(have, steps.drop_last()), steps.last())
    }
}

proof fn lemma_said_add(have: Map<u64, Seq<char>>, a: Seq<Step<Seq<char>>>, b: Seq<Step<Seq<char>>>)
    ensures
        all_said_after(have, a + b) == all_said_after(all_said_after(have, a), b),
    decreases b.len(),
{
    if b.len() == 0 {
        assert(a + b =~= a);
    } else {
        assert((a + b).drop_last() =~= a + b.drop_last());
        lemma_said_add(have, a, b.drop_last());
    }
}

proof fn lemma_said_one(have: Map<u64, Seq<char>>, step: Step<Seq<char>>)
    ensures
        all_said_after(have, seq![step]) == said_after(have, step),
{
    assert(seq![step].drop_last() =~= Seq::empty());
    assert(all_said_after(have, seq![step].drop_last()) == have);
}

proof fn lemma_said(
    start: Map<u64, Seq<char>>,
    workspaces: Seq<Workspace>,
    labels: Seq<Seq<char>>,
    at: Seq<usize>,
    n: int,
)
    requires
        0 <= n <= at.len(),
        ids_at(workspaces, at).no_duplicates(),
    ensures
        all_said_after(start, steps_after(start, workspaces, labels, at, n)) =~= labels_after(
            start,
            workspaces,
            labels,
            at,
            n,
        ),
        forall|k: int|
            0 <= k < n ==> {
                &&& labels_after(start, workspaces, labels, at, n).contains_key(
                    workspaces[#[trigger] at[k] as int].id,
                )
                &&& labels_after(start, workspaces, labels, at, n)[workspaces[at[k] as int].id]
                    == labels[at[k] as int]
            },
    decreases n,
{
    if n > 0 {
        let m = n - 1;
        lemma_said(start, workspaces, labels, at, m);
        let i = at[m] as int;
        let id = workspaces[i].id;
        let have = labels_after(start, workspaces, labels, at, m);
        let before = steps_after(start, workspaces, labels, at, m);
        let a = label_steps(have, id, labels[i]);
        let b = seq![Step::<Seq<char>>::Update { workspace: at[m], id }];
        lemma_said_add(start, before + a, b);
        lemma_said_add(start, before, a);
        lemma_said_one(all_said_after(have, a), b[0]);
        if a.len() > 0 {
            lemma_said_one(have, a[0]);
            assert(a =~= seq![a[0]]);
        }
        assert(all_said_after(have, a) =~= have.insert(id, labels[i]));
        let all = ids_at(workspaces, at);
        assert forall|k: int| 0 <= k < m implies workspaces[#[trigger] at[k] as int].id != id by {
            assert(all[k] != all[m]);
        }
    }
}

/// Once the steps have been carried out, every workspace that's shown has a button that says what
/// it's meant to, and there are no other buttons, whatever was there before.
pub proof fn law_buttons_say_what_they_should(
    start: Map<u64, Seq<char>>,
    workspaces: Seq<Workspace>,
    labels: Seq<Seq<char>>,
    filter: FilterView,
    removed: Seq<Step<Seq<char>>>,
)
    requires
        distinct(workspaces),
        workspaces.len() <= usize::MAX,
        removes(removed, start, workspaces, visible(workspaces, filter)),
    ensures
        ({
            let at = visible(workspaces, filter);
            let says = all_said_after(
                start,
                steps_after(start, workspaces, labels, at, at.len() as int) + removed,
            );
            &&& forall|k: int|
                0 <= k < at.len() ==> {
                    &&& says.contains_key(workspaces[#[trigger] at[k] as int].id)
                    &&& says[workspaces[at[k] as int].id] == labels[at[k] as int]
                }
            &&& forall|id: u64| #[trigger]
                says.contains_key(id) ==> exists|k: int|
                    0 <= k < at.len() && workspaces[#[trigger] at[k] as int].id == id
        }),
{
    let at = visible(workspaces, filter);
    let n = at.len() as int;
    lemma_visible_ids(workspaces, filter);
    lemma_said(start, workspaces, labels, at, n);
    lemma_labels_from(start, workspaces, labels, at, n);
    let steps = steps_after(start, workspaces, labels, at, n);
    lemma_said_add(start, steps, removed);
    let ids = choose|ids: Seq<u64>| #[trigger]
        ascending(ids) && (forall|id: u64|
            ids.contains(id) <==> start.contains_key(id) && !is_shown(workspaces, at, n, id))
            && removed == removal_steps(ids);
    let have = all_said_after(start, steps);
    lemma_said_removed(have, ids);
    let says = all_said_after(have, removed);
    assert forall|k: int| 0 <= k < at.len() implies {
        &&& says.contains_key(workspaces[#[trigger] at[k] as int].id)
        &&& says[workspaces[at[k] as int].id] == labels[at[k] as int]
    } by {
        let id = workspaces[at[k] as int].id;
        assert(is_shown(workspaces, at, n, id));
        assert(!ids.contains(id));
    }
    assert forall|id: u64| #[trigger] says.contains_key(id) implies exists|k: int|
        0 <= k < at.len() && workspaces[#[trigger] at[k] as int].id == id by {
        assert(have.contains_key(id) && !ids.contains(id));
        assert(is_shown(workspaces, at, n, id));
    }
}

proof fn lemma_said_removed(have: Map<u64, Seq<char>>, ids: Seq<u64>)
    ensures
        forall|id: u64| #[trigger]
            all_said_after(have, removal_steps(ids)).contains_key(id) <==> have.contains_key(id)
                && !ids.contains(id),
        forall|id: u64| #[trigger]
            all_said_after(have, removal_steps(ids)).contains_key(id) ==> all_said_after(
                have,
                removal_steps(ids),
            )[id] == have[id],
    decreases ids.len(),
{
    if ids.len() > 0 {
        let fewer = ids.drop_last();
        lemma_said_removed(have, fewer);
        lemma_push_contains(fewer, ids.last());
        assert(fewer.push(ids.last()) =~= ids);
        assert(removal_steps(ids).drop_last() =~= removal_steps(fewer));
        let before = all_said_after(have, removal_steps(fewer));
        assert(all_said_after(have, removal_steps(ids)) == before.remove(ids.last()));
        assert forall|id: u64| #[trigger]
            before.remove(ids.last()).contains_key(id) <==> have.contains_key(id) && !ids.contains(
            id,
        ) by {
            assert(before.contains_key(id) <==> have.contains_key(id) && !fewer.contains(id));
            assert(ids.contains(id) <==> fewer.contains(id) || id == ids.last());
        }
    }
}

proof fn lemma_visible_ids(workspaces: Seq<Workspace>, filter: FilterView)
    requires
        distinct(workspaces),
        workspaces.len() <= usize::MAX,
    ensures
        ids_at(workspaces, visible(workspaces, filter)).no_duplicates(),
{
    let found = shown_at(workspaces, filter, workspaces.len() as int);
    let at = visible(workspaces, filter);
    let all_ids = ids_at(workspaces, at);
    lemma_shown_at(workspaces, filter, workspaces.len() as int);
    lemma_sorted_len(found, row_order(workspaces));
    law_sorted_rearranges(found, row_order(workspaces));
    found.lemma_multiset_has_no_duplicates();
    at.lemma_multiset_has_no_duplicates_conv();
    assert forall|k: int| 0 <= k < at.len() implies #[trigger] at[k] < workspaces.len() by {
        lemma_sorted_from(found, row_order(workspaces), k);
    }
    assert forall|j: int, k: int| 0 <= j < all_ids.len() && 0 <= k < all_ids.len() && j
        != k implies all_ids[j] != all_ids[k] by {
        let (a, b) = (at[j] as int, at[k] as int);
        assert(a != b);
        if a < b {
            assert(workspaces[a].id != workspaces[b].id);
        } else {
            assert(workspaces[b].id != workspaces[a].id);
        }
    }
}

proof fn lemma_steps(
    start: Map<u64, Seq<char>>,
    workspaces: Seq<Workspace>,
    labels: Seq<Seq<char>>,
    at: Seq<usize>,
    n: int,
)
    requires
        0 <= n <= at.len(),
        ids_at(workspaces, at).no_duplicates(),
    ensures
        forall|k: int|
            0 <= k < steps_after(start, workspaces, labels, at, n).len() ==> match #[trigger] steps_after(
                start,
                workspaces,
                labels,
                at,
                n,
            )[k] {
                Step::New { id, label: _ } => !start.contains_key(id),
                Step::Label { id, label } => start.contains_key(id) && start[id] != label,
                Step::Update { workspace, id } => at.contains(workspace) && workspaces[workspace as int].id
                    == id,
                Step::Remove { id: _ } => false,
            },
        forall|id: u64|
            !is_shown(workspaces, at, n, id) && #[trigger] labels_after(
                start,
                workspaces,
                labels,
                at,
                n,
            ).contains_key(id) ==> start.contains_key(id) && labels_after(
                start,
                workspaces,
                labels,
                at,
                n,
            )[id] == start[id],
        forall|k: int|
            #![trigger at[k]]
            0 <= k < n ==> steps_after(start, workspaces, labels, at, n).contains(
                Step::Update { workspace: at[k], id: workspaces[at[k] as int].id },
            ),
    decreases n,
{
    if n > 0 {
        let m = n - 1;
        lemma_steps(start, workspaces, labels, at, m);
        lemma_is_shown(workspaces, at, m);
        lemma_labels_from(start, workspaces, labels, at, m);
        let i = at[m] as int;
        let id = workspaces[i].id;
        let have = labels_after(start, workspaces, labels, at, m);
        let before = steps_after(start, workspaces, labels, at, m);
        let a = label_steps(have, id, labels[i]);
        let all = ids_at(workspaces, at);
        let steps = steps_after(start, workspaces, labels, at, n);
        assert(!is_shown(workspaces, at, m, id)) by {
            if is_shown(workspaces, at, m, id) {
                let k = choose|k: int| 0 <= k < m && workspaces[#[trigger] at[k] as int].id == id;
                assert(all[k] == all[m]);
            }
        }
        assert(have.contains_key(id) ==> start.contains_key(id) && have[id] == start[id]);
        assert(!have.contains_key(id) ==> !start.contains_key(id));
        assert(at.contains(at[m]));
        assert forall|k: int| 0 <= k < steps.len() implies match #[trigger] steps[k] {
            Step::New { id, label: _ } => !start.contains_key(id),
            Step::Label { id, label } => start.contains_key(id) && start[id] != label,
            Step::Update { workspace, id } => at.contains(workspace) && workspaces[workspace as int].id
                == id,
            Step::Remove { id: _ } => false,
        } by {
            if k < before.len() {
                assert(steps[k] == before[k]);
            } else if k < before.len() + a.len() {
                assert(steps[k] == a[k - before.len()]);
            }
        }
        assert forall|k: int| #![trigger at[k]] 0 <= k < n implies steps.contains(
            Step::Update { workspace: at[k], id: workspaces[at[k] as int].id },
        ) by {
            let step = Step::<Seq<char>>::Update { workspace: at[k], id: workspaces[at[k] as int].id };
            if k < m {
                assert(before.contains(step));
                let j = choose|j: int| 0 <= j < before.len() && before[j] == step;
                assert(steps[j] == step);
            } else {
                assert(steps[steps.len() - 1] == step);
            }
        }
    }
}

/// A button is only made for a workspace that doesn't have one, only given a new label where it says
/// something else, and brought up to date for every workspace that's shown, and no other.
pub proof fn law_buttons_are_left_alone(
    start: Map<u64, Seq<char>>,
    workspaces: Seq<Workspace>,
    labels: Seq<Seq<char>>,
    filter: FilterView,
)
    requires
        distinct(workspaces),
        workspaces.len() <= usize::MAX,
    ensures
        ({
            let at = visible(workspaces, filter);
            let steps = steps_after(start, workspaces, labels, at, at.len() as int);
            &&& forall|k: int|
                0 <= k < steps.len() ==> match #[trigger] steps[k] {
                    Step::New { id, label: _ } => !start.contains_key(id),
                    Step::Label { id, label } => start.contains_key(id) && start[id] != label,
                    Step::Update { workspace, id } => at.contains(workspace)
                        && workspaces[workspace as int].id == id,
                    Step::Remove { id: _ } => false,
                }
            &&& forall|k: int|
                #![trigger at[k]]
                0 <= k < at.len() ==> steps.contains(
                    Step::Update { workspace: at[k], id: workspaces[at[k] as int].id },
                )
        }),
{
    let at = visible(workspaces, filter);
    lemma_visible_ids(workspaces, filter);
    lemma_steps(start, workspaces, labels, at, at.len() as int);
}

/// A workspace that has a name is called by it, and one that hasn't is called by its index.
pub proof fn law_names_come_before_indices(workspace: Workspace)
    ensures
        workspace.name matches Some(name) ==> workspace_name(workspace) == name@,
        workspace.name is None ==> digits_value(workspace_name(workspace)) == workspace.idx
            && all_digits(workspace_name(workspace)),
{
    law_decimal_reads_back(workspace.idx as nat);
}

/// What steps say is the steps themselves, in order, with their own labels.
pub proof fn law_steps_say_what_they_are(steps: Seq<Step<String>>, i: int)
    requires
        0 <= i < steps.len(),
    ensures
        steps_say(steps).len() == steps.len(),
        match steps[i] {
            Step::New { id, label } => steps_say(steps)[i] == (Step::New { id, label: label@ }),
            Step::Label { id, label } => steps_say(steps)[i] == (Step::Label { id, label: label@ }),
            Step::Update { workspace, id } => steps_say(steps)[i] == (Step::<Seq<char>>::Update {
                workspace,
                id,
            }),
            Step::Remove { id } => steps_say(steps)[i] == (Step::<Seq<char>>::Remove { id }),
        },
{
}

} // verus!
