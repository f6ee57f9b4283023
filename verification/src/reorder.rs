//! Dragging buttons along the row to move their windows' columns.

use std::collections::HashMap;
use vstd::prelude::*;

use crate::order::{
    in_order, in_place, law_sorted_in_order, law_sorted_rearranges, places, sorted, stable_sort, within,
};

verus! {

/// Where a window's button sits, as far as dragging it around is concerned.
#[derive(Debug, Clone, Copy, PartialEq, Eq, Structural)]
pub struct Placement {
    pub workspace: u64,
    /// The window's 1-based column in the scrolling layout, or `None` if it's floating, in which
    /// case there's no column to move.
    pub column: Option<usize>,
    /// The window's position in Niri's own order, so the row can be put back if a drag goes
    /// nowhere.
    pub order: usize,
}

/// A button in the row.
#[derive(Debug, Clone, Copy)]
pub struct Child {
    /// The window the button is for, if it's for one.
    pub window: Option<u64>,
    pub x: i32,
    pub width: i32,
}

/// A button being dragged, or one that might be.
#[derive(Debug, Clone, Copy)]
pub struct Drag {
    pub window: u64,
    pub workspace: u64,
    /// Where the press happened, relative to the button.
    pub start: (i32, i32),
    /// Whether the pointer has moved far enough for this to count as a drag rather than a click.
    pub active: bool,
    /// The column index we last asked Niri to move the column to.
    pub requested: usize,
    /// Whether talking to Niri went wrong, after which we stop trying until the next drag.
    pub failed: bool,
}

/// A run of buttons for one column, with where the first and last of them are among the buttons
/// that aren't being dragged.
#[derive(Debug, Clone, Copy)]
pub struct Span {
    pub column: usize,
    pub first: usize,
    pub last: usize,
    pub left: i64,
    pub right: i64,
}

/// The column on a workspace that a button is for.
pub open spec fn column_of(placements: Map<u64, Placement>, workspace: u64, child: Child) -> Option<
    usize,
> {
    match child.window {
        Some(window) => if placements.contains_key(window) && placements[window].workspace
            == workspace {
            placements[window].column
        } else {
            None
        },
        None => None,
    }
}

/// Which of the first buttons are in the column being dragged.
pub open spec fn dragged_at(
    placements: Map<u64, Placement>,
    workspace: u64,
    column: usize,
    children: Seq<Child>,
    n: int,
) -> Seq<usize>
    decreases n,
{
    if n <= 0 {
        Seq::empty()
    } else {
        let rest = dragged_at(placements, workspace, column, children, n - 1);
        if column_of(placements, workspace, children[n - 1]) == Some(column) {
            rest.push((n - 1) as usize)
        } else {
            rest
        }
    }
}

/// Which of the first buttons aren't in the column being dragged.
pub open spec fn others_at(
    placements: Map<u64, Placement>,
    workspace: u64,
    column: usize,
    children: Seq<Child>,
    n: int,
) -> Seq<usize>
    decreases n,
{
    if n <= 0 {
        Seq::empty()
    } else {
        let rest = others_at(placements, workspace, column, children, n - 1);
        if column_of(placements, workspace, children[n - 1]) == Some(column) {
            rest
        } else {
            rest.push((n - 1) as usize)
        }
    }
}

/// The runs of spans with one more button, which goes into the last run if that's for its column.
pub open spec fn with_button(spans: Seq<Span>, column: usize, at: usize, child: Child) -> Seq<Span> {
    let left = child.x as i64;
    let right = (child.x + child.width) as i64;
    if spans.len() > 0 && spans.last().column == column {
        spans.drop_last().push(Span { last: at, right, ..spans.last() })
    } else {
        spans.push(Span { column, first: at, last: at, left, right })
    }
}

/// The runs of the other columns' buttons, among the first buttons.
pub open spec fn spans_of(
    placements: Map<u64, Placement>,
    workspace: u64,
    column: usize,
    children: Seq<Child>,
    n: int,
) -> Seq<Span>
    decreases n,
{
    if n <= 0 {
        Seq::empty()
    } else {
        let spans = spans_of(placements, workspace, column, children, n - 1);
        let at = others_at(placements, workspace, column, children, n - 1).len();
        match column_of(placements, workspace, children[n - 1]) {
            Some(other) if other != column => with_button(spans, other, at as usize, children[n - 1]),
            _ => spans,
        }
    }
}

/// Whether the middle of a run is to the left of the pointer, which is given as twice its position,
/// rounded up.
pub open spec fn passed(span: Span, pointer: int) -> bool {
    span.left + span.right < pointer
}

/// How many of the first runs have their middles to the left of the pointer.
pub open spec fn passed_of(spans: Seq<Span>, pointer: int, n: int) -> int
    decreases n,
{
    if n <= 0 {
        0
    } else if passed(spans[n - 1], pointer) {
        passed_of(spans, pointer, n - 1) + 1
    } else {
        passed_of(spans, pointer, n - 1)
    }
}

/// Where among the other buttons the dragged ones go, having passed the given number of runs.
pub open spec fn landing(spans: Seq<Span>, before: int) -> int {
    if before < spans.len() {
        spans[before].first as int
    } else {
        spans[before - 1].last + 1
    }
}

/// The buttons with the dragged ones among the others.
pub open spec fn landed(others: Seq<usize>, dragged: Seq<usize>, at: int) -> Seq<usize> {
    others.take(at) + dragged + others.skip(at)
}

/// Where the dragged column goes: the order of the buttons, and the index of the column.
pub open spec fn arranged(
    placements: Map<u64, Placement>,
    workspace: u64,
    column: usize,
    children: Seq<Child>,
    pointer: int,
) -> (Seq<usize>, int) {
    let n = children.len() as int;
    let dragged = dragged_at(placements, workspace, column, children, n);
    let others = others_at(placements, workspace, column, children, n);
    let spans = spans_of(placements, workspace, column, children, n);
    if dragged.len() == 0 || spans.len() == 0 {
        (in_place(children.len()), column as int)
    } else {
        let before = passed_of(spans, pointer, spans.len() as int);
        (landed(others, dragged, landing(spans, before)), before + 1)
    }
}

proof fn lemma_passed_of(spans: Seq<Span>, pointer: int, n: int)
    requires
        0 <= n <= spans.len(),
    ensures
        0 <= passed_of(spans, pointer, n) <= n,
    decreases n,
{
    if n > 0 {
        lemma_passed_of(spans, pointer, n - 1);
    }
}

/// Runs lie within the buttons that aren't being dragged.
proof fn lemma_spans(
    placements: Map<u64, Placement>,
    workspace: u64,
    column: usize,
    children: Seq<Child>,
    n: int,
)
    requires
        0 <= n <= children.len(),
        children.len() <= usize::MAX,
    ensures
        others_at(placements, workspace, column, children, n).len() <= n,
        spans_of(placements, workspace, column, children, n).len() <= n,
        forall|k: int|
            0 <= k < spans_of(placements, workspace, column, children, n).len() ==> {
                let span = #[trigger] spans_of(placements, workspace, column, children, n)[k];
                span.first <= span.last < others_at(placements, workspace, column, children, n).len()
            },
    decreases n,
{
    if n > 0 {
        lemma_spans(placements, workspace, column, children, n - 1);
    }
}

/// Whether one window's place in Niri's own order is before another's, or level with it. Buttons
/// that aren't for a window come last.
pub open spec fn order_of(placements: Map<u64, Placement>, child: Child) -> usize {
    match child.window {
        Some(window) => if placements.contains_key(window) {
            placements[window].order
        } else {
            usize::MAX
        },
        None => usize::MAX,
    }
}

/// Niri's own order of the buttons at two places.
pub open spec fn niri_order(placements: Map<u64, Placement>, children: Seq<Child>) -> spec_fn(
    usize,
    usize,
) -> bool {
    |a: usize, b: usize|
        order_of(placements, children[a as int]) <= order_of(placements, children[b as int])
}

/// The buttons in Niri's own order.
pub open spec fn restored(placements: Map<u64, Placement>, children: Seq<Child>) -> Seq<usize> {
    sorted(in_place(children.len()), niri_order(placements, children))
}

/// The drag that pressing a window's button may be the start of: none where the window isn't in a
/// column.
pub open spec fn pressed(
    placements: Map<u64, Placement>,
    window: u64,
    focused: bool,
    start: (i32, i32),
) -> Option<Drag> {
    if placements.contains_key(window) && placements[window].column is Some {
        Some(
            Drag {
                window,
                workspace: placements[window].workspace,
                start,
                active: false,
                requested: placements[window].column->0,
                failed: !focused,
            },
        )
    } else {
        None
    }
}

/// The drag once Niri has taken a request to move its column, or turned it down.
pub open spec fn answered(drag: Option<Drag>, target: usize, taken: bool) -> Option<Drag> {
    match drag {
        Some(drag) => if taken {
            Some(Drag { requested: target, ..drag })
        } else {
            Some(Drag { failed: true, ..drag })
        },
        None => None,
    }
}

/// Whether a drag is under way, given whether the pointer has gone far enough for one to begin.
pub open spec fn is_under_way(drag: Option<Drag>, past_threshold: bool) -> bool {
    match drag {
        Some(drag) => drag.active || past_threshold,
        None => false,
    }
}

/// Whether a drag begins with the pointer moving.
pub open spec fn begins(drag: Option<Drag>, past_threshold: bool) -> bool {
    match drag {
        Some(drag) => !drag.active && past_threshold,
        None => false,
    }
}

/// The drag once the pointer has moved.
pub open spec fn dragged_on(drag: Option<Drag>, past_threshold: bool) -> Option<Drag> {
    match drag {
        Some(drag) if past_threshold => Some(Drag { active: true, ..drag }),
        _ => drag,
    }
}

/// The window whose button is being dragged once the pointer has moved.
pub open spec fn held_on(drag: Option<Drag>, held: Option<u64>, past_threshold: bool) -> Option<u64> {
    match drag {
        Some(drag) if begins(Some(drag), past_threshold) => Some(drag.window),
        _ => held,
    }
}

/// The window whose button is being dragged once the button has been let go of.
pub open spec fn let_go(drag: Option<Drag>, held: Option<u64>) -> Option<u64> {
    match drag {
        Some(drag) if drag.active => None,
        _ => held,
    }
}

/// An order that may not be there.
pub open spec fn maybe_order(order: Option<Vec<usize>>) -> Option<Seq<usize>> {
    match order {
        Some(order) => Some(order@),
        None => None,
    }
}

/// An index that may not be there.
pub open spec fn maybe_index(index: Option<usize>) -> Option<int> {
    match index {
        Some(index) => Some(index as int),
        None => None,
    }
}

/// The buttons in a row that may not be there.
pub open spec fn maybe_children(children: Option<&Vec<Child>>) -> Option<Seq<Child>> {
    match children {
        Some(children) => Some(children@),
        None => None,
    }
}

/// Where the column being dragged goes, if it's known where it is.
pub open spec fn arranged_for(
    placements: Map<u64, Placement>,
    drag: Option<Drag>,
    past_threshold: bool,
    children: Option<Seq<Child>>,
    pointer: int,
) -> Option<(Seq<usize>, int)> {
    match (drag, children) {
        (Some(drag), Some(children)) if is_under_way(Some(drag), past_threshold)
            && placements.contains_key(drag.window) && placements[drag.window].column is Some => Some(
            arranged(
                placements,
                drag.workspace,
                placements[drag.window].column->0,
                children,
                pointer,
            ),
        ),
        _ => None,
    }
}

/// The order to put the buttons in while a column is being dragged, if it's not the one they're in.
pub open spec fn row_while_dragging(
    placements: Map<u64, Placement>,
    drag: Option<Drag>,
    past_threshold: bool,
    children: Option<Seq<Child>>,
    pointer: int,
) -> Option<Seq<usize>> {
    match arranged_for(placements, drag, past_threshold, children, pointer) {
        Some((order, _)) if order != in_place(children->0.len()) => Some(order),
        _ => None,
    }
}

/// The index to ask Niri to move the column being dragged to, if it's not the one that was asked for
/// last and nothing has gone wrong.
pub open spec fn index_while_dragging(
    placements: Map<u64, Placement>,
    drag: Option<Drag>,
    past_threshold: bool,
    children: Option<Seq<Child>>,
    pointer: int,
) -> Option<int> {
    match arranged_for(placements, drag, past_threshold, children, pointer) {
        Some((_, index)) if index != drag->0.requested && !drag->0.failed => Some(index),
        _ => None,
    }
}

/// The order to put the buttons in on a drag being broken off.
pub open spec fn row_on_cancel(
    placements: Map<u64, Placement>,
    drag: Option<Drag>,
    children: Option<Seq<Child>>,
) -> Option<Seq<usize>> {
    match children {
        Some(children) if is_under_way(drag, false) => Some(restored(placements, children)),
        _ => None,
    }
}

/// The order to put the buttons in on a button being let go of: Niri's own, once Niri has told of
/// the last move, or where it won't.
pub open spec fn row_on_release(
    placements: Map<u64, Placement>,
    drag: Option<Drag>,
    children: Option<Seq<Child>>,
) -> Option<Seq<usize>> {
    match drag {
        Some(d) if d.failed || (placements.contains_key(d.window) && placements[d.window].column
            == Some(d.requested)) => row_on_cancel(placements, drag, children),
        _ => None,
    }
}

/// What to do about the pointer moving.
#[derive(Debug)]
pub struct Motion {
    /// Whether the event goes no further.
    pub stop: bool,
    /// Whether this is where the drag begins.
    pub begun: bool,
    /// The order to put the buttons in, by where they are now, if it's not the order they're in.
    pub order: Option<Vec<usize>>,
    /// The index to ask Niri to move the column to.
    pub request: Option<usize>,
}

/// What to do about a drag ending.
#[derive(Debug)]
pub struct Ended {
    /// Whether a drag was under way at all.
    pub dragged: bool,
    /// The order to put the buttons in, by where they are now.
    pub order: Option<Vec<usize>>,
}

/// Lets buttons be dragged left and right along the row to move their window's column in Niri.
///
/// The row is rearranged live while dragging, and Niri is asked to move the column every time it
/// passes another one, so the windows follow along in real time.
pub struct Reorder {
    placements: HashMap<u64, Placement>,
    drag: Option<Drag>,
    /// The window whose button is being dragged.
    dragging: Option<u64>,
}

impl Reorder {
    /// Where each window's button sits.
    pub closed spec fn placed(self) -> Map<u64, Placement> {
        self.placements@
    }

    /// The button being dragged, or one that might be.
    pub closed spec fn current(self) -> Option<Drag> {
        self.drag
    }

    /// The window whose button is being dragged.
    pub closed spec fn held(self) -> Option<u64> {
        self.dragging
    }

    /// Whether a drag that's under way is of the window whose button is being dragged.
    pub open spec fn in_step(self) -> bool {
        match self.current() {
            Some(drag) => drag.active ==> self.held() == Some(drag.window),
            None => true,
        }
    }

    pub fn new() -> (r: Self)
        ensures
            r.in_step(),
            r.placed() == Map::<u64, Placement>::empty(),
            r.current() is None,
            r.held() is None,
    {
        Reorder { placements: HashMap::new(), drag: None, dragging: None }
    }

    /// Replaces the placements with those from the latest snapshot.
    pub fn set_placements(&mut self, placements: HashMap<u64, Placement>)
        ensures
            old(self).in_step() ==> final(self).in_step(),
            final(self).placed() == placements@,
            final(self).current() == old(self).current(),
            final(self).held() == old(self).held(),
    {
        self.placements = placements;
    }

    /// Returns true while a button is being dragged, during which the row order is ours.
    pub fn is_dragging(&self) -> (r: bool)
        ensures
            r == (self.held() is Some),
    {
        self.dragging.is_some()
    }

    /// Looks up where a window's button sits.
    fn placement(&self, window: Option<u64>) -> (r: Option<Placement>)
        ensures
            r == match window {
                Some(window) => if self.placed().contains_key(window) {
                    Some(self.placed()[window])
                } else {
                    None
                },
                None => None,
            },
    {
        broadcast use vstd::std_specs::hash::group_hash_axioms;

        match window {
            Some(window) => match self.placements.get(&window) {
                Some(placement) => Some(*placement),
                None => None,
            },
            None => None,
        }
    }

    /// Gets ready for a possible drag, once Niri has been asked to focus the window, returning true
    /// if it was. A window that's not in a column can't be dragged.
    pub fn press(&mut self, window: u64, focused: bool, start: (i32, i32)) -> (r: bool)
        ensures
            old(self).in_step() ==> final(self).in_step(),
            r == focused,
            final(self).placed() == old(self).placed(),
            final(self).held() == old(self).held(),
            final(self).current() == if old(self).placed().contains_key(window) && old(
                self,
            ).placed()[window].column is Some {
                Some(
                    Drag {
                        window,
                        workspace: old(self).placed()[window].workspace,
                        start,
                        active: false,
                        requested: old(self).placed()[window].column->0,
                        failed: !focused,
                    },
                )
            } else {
                None
            },
            final(self).current() == pressed(old(self).placed(), window, focused, start),
    {
        self.drag = match self.placement(Some(window)) {
            Some(placement) => match placement.column {
                Some(column) => Some(
                    Drag {
                        window,
                        workspace: placement.workspace,
                        start,
                        active: false,
                        requested: column,
                        failed: !focused,
                    },
                ),
                None => None,
            },
            None => None,
        };
        focused
    }

    /// Where the press happened that might be the start of a drag, if there's one that hasn't
    /// started yet.
    pub fn waiting_from(&self) -> (r: Option<(i32, i32)>)
        ensures
            r == match self.current() {
                Some(drag) if !drag.active => Some(drag.start),
                _ => None,
            },
    {
        match self.drag {
            Some(drag) => if drag.active {
                None
            } else {
                Some(drag.start)
            },
            None => None,
        }
    }

    /// Finds the column on a workspace that a button is for.
    fn column_for(&self, workspace: u64, child: &Child) -> (r: Option<usize>)
        ensures
            r == column_of(self.placed(), workspace, *child),
    {
        match self.placement(child.window) {
            Some(placement) => if placement.workspace == workspace {
                placement.column
            } else {
                None
            },
            None => None,
        }
    }

    /// Moves the dragged column's buttons to wherever the pointer is among the other columns on the
    /// same workspace, returning the order that puts the buttons in and the column index that
    /// corresponds to. The pointer is given as twice its position, rounded up.
    pub fn arrange(&self, workspace: u64, column: usize, children: &Vec<Child>, pointer: i64) -> (r: (
        Vec<usize>,
        usize,
    ))
        ensures
            r.0@ == arranged(self.placed(), workspace, column, children@, pointer as int).0,
            r.1 == arranged(self.placed(), workspace, column, children@, pointer as int).1,
    {
        let ghost p = self.placed();
        let mut dragged: Vec<usize> = Vec::new();
        let mut others: Vec<usize> = Vec::new();
        let mut spans: Vec<Span> = Vec::new();
        let mut i: usize = 0;
        while i < children.len()
            invariant
                i <= children.len(),
                p == self.placed(),
                dragged@ == dragged_at(p, workspace, column, children@, i as int),
                others@ == others_at(p, workspace, column, children@, i as int),
                spans@ == spans_of(p, workspace, column, children@, i as int),
                others@.len() <= i,
                spans@.len() + dragged@.len() <= i,
            decreases children@.len() - i,
        {
            let child = &children[i];
            let found = self.column_for(workspace, child);
            if let Some(other) = found {
                if other == column {
                    dragged.push(i);
                } else {
                    let left: i64 = child.x as i64;
                    let right: i64 = child.x as i64 + child.width as i64;
                    let at: usize = others.len();
                    let count: usize = spans.len();
                    let ghost before = spans@;
                    if count > 0 && spans[count - 1].column == other {
                        let last: Span = spans[count - 1];
                        spans.set(
                            count - 1,
                            Span { column: other, first: last.first, last: at, left: last.left, right },
                        );
                        proof {
                            assert(spans@ =~= with_button(before, other, at, *child));
                        }
                    } else {
                        spans.push(Span { column: other, first: at, last: at, left, right });
                    }
                    others.push(i);
                }
            } else {
                others.push(i);
            }
            i += 1;
        }
        proof {
            lemma_spans(p, workspace, column, children@, i as int);
        }
        if dragged.len() == 0 || spans.len() == 0 {
            return (places(children.len()), column);
        }
        let mut before: usize = 0;
        let mut k: usize = 0;
        while k < spans.len()
            invariant
                k <= spans.len(),
                before <= k,
                before == passed_of(spans@, pointer as int, k as int),
            decreases spans@.len() - k,
        {
            if (spans[k].left as i128) + (spans[k].right as i128) < (pointer as i128) {
                before += 1;
            }
            k += 1;
        }
        let at: usize = if before < spans.len() {
            spans[before].first
        } else {
            spans[before - 1].last + 1
        };
        let order = splice(&others, &dragged, at);
        assert(before < usize::MAX) by {
            assert(before <= spans.len());
        }
        (order, before + 1)
    }

    /// Takes in the pointer moving, given whether it's gone far enough for a drag, the buttons in
    /// the row, if the button is in one, and twice the position of the pointer, rounded up.
    pub fn motion(&mut self, past_threshold: bool, children: Option<&Vec<Child>>, pointer: i64) -> (r:
        Motion)
        ensures
            old(self).in_step() ==> final(self).in_step(),
            final(self).placed() == old(self).placed(),
            match old(self).current() {
                Some(drag) if drag.active || past_threshold => {
                    let p = old(self).placed();
                    let window = drag.window;
                    &&& r.stop
                    &&& r.begun == !drag.active
                    &&& final(self).current() == Some(Drag { active: true, ..drag })
                    &&& final(self).held() == if drag.active {
                        old(self).held()
                    } else {
                        Some(window)
                    }
                    &&& if children is Some && p.contains_key(window) && p[window].column is Some {
                        let (order, target) = arranged(
                            p,
                            drag.workspace,
                            p[window].column->0,
                            children->0@,
                            pointer as int,
                        );
                        &&& if order == in_place(children->0@.len()) {
                            r.order is None
                        } else {
                            r.order is Some && r.order->0@ == order
                        }
                        &&& if target != drag.requested && !drag.failed {
                            r.request is Some && r.request->0 == target
                        } else {
                            r.request is None
                        }
                    } else {
                        r.order is None && r.request is None
                    }
                },
                _ => {
                    &&& !r.stop
                    &&& !r.begun
                    &&& r.order is None
                    &&& r.request is None
                    &&& final(self).current() == old(self).current()
                    &&& final(self).held() == old(self).held()
                },
            },
            r.stop == is_under_way(old(self).current(), past_threshold),
            r.begun == begins(old(self).current(), past_threshold),
            final(self).current() == dragged_on(old(self).current(), past_threshold),
            final(self).held() == held_on(old(self).current(), old(self).held(), past_threshold),
            maybe_order(r.order) == row_while_dragging(
                old(self).placed(),
                old(self).current(),
                past_threshold,
                maybe_children(children),
                pointer as int,
            ),
            maybe_index(r.request) == index_while_dragging(
                old(self).placed(),
                old(self).current(),
                past_threshold,
                maybe_children(children),
                pointer as int,
            ),
    {
        let nothing = Motion { stop: false, begun: false, order: None, request: None };
        let drag: Drag = match self.drag {
            Some(drag) => drag,
            None => {
                return nothing;
            },
        };
        if !drag.active && !past_threshold {
            return nothing;
        }
        let begun: bool = !drag.active;
        if begun {
            self.drag = Some(
                Drag {
                    window: drag.window,
                    workspace: drag.workspace,
                    start: drag.start,
                    active: true,
                    requested: drag.requested,
                    failed: drag.failed,
                },
            );
            self.dragging = Some(drag.window);
        }
        let mut r = Motion { stop: true, begun, order: None, request: None };
        let children: &Vec<Child> = match children {
            Some(children) => children,
            None => {
                return r;
            },
        };
        let column: usize = match self.placement(Some(drag.window)) {
            Some(placement) => match placement.column {
                Some(column) => column,
                None => {
                    return r;
                },
            },
            None => {
                return r;
            },
        };
        let (order, target) = self.arrange(drag.workspace, column, children, pointer);
        if !is_in_place(&order, children.len()) {
            r.order = Some(order);
        }
        if target != drag.requested && !drag.failed {
            r.request = Some(target);
        }
        r
    }

    /// Takes in whether Niri took the request to move the column being dragged.
    pub fn moved(&mut self, target: usize, taken: bool)
        ensures
            old(self).in_step() ==> final(self).in_step(),
            final(self).placed() == old(self).placed(),
            final(self).held() == old(self).held(),
            final(self).current() == match old(self).current() {
                Some(drag) => if taken {
                    Some(Drag { requested: target, ..drag })
                } else {
                    Some(Drag { failed: true, ..drag })
                },
                None => None,
            },
            final(self).current() == answered(old(self).current(), target, taken),
    {
        if let Some(drag) = self.drag {
            self.drag = Some(
                Drag {
                    window: drag.window,
                    workspace: drag.workspace,
                    start: drag.start,
                    active: drag.active,
                    requested: if taken {
                        target
                    } else {
                        drag.requested
                    },
                    failed: drag.failed || !taken,
                },
            );
        }
    }

    /// Takes in the button being let go of. If Niri has already told us about the last move, the row
    /// is lined up with it now. Otherwise the snapshot that's on its way will do that once it
    /// arrives.
    pub fn release(&mut self, children: Option<&Vec<Child>>) -> (r: Ended)
        ensures
            old(self).in_step() ==> final(self).in_step(),
            final(self).placed() == old(self).placed(),
            final(self).current() is None,
            match old(self).current() {
                Some(drag) if drag.active => {
                    let p = old(self).placed();
                    let settled = p.contains_key(drag.window) && p[drag.window].column == Some(
                        drag.requested,
                    );
                    &&& r.dragged
                    &&& final(self).held() is None
                    &&& if (drag.failed || settled) && children is Some {
                        r.order is Some && r.order->0@ == restored(p, children->0@)
                    } else {
                        r.order is None
                    }
                },
                _ => !r.dragged && r.order is None && final(self).held() == old(self).held(),
            },
            r.dragged == is_under_way(old(self).current(), false),
            final(self).held() == let_go(old(self).current(), old(self).held()),
            maybe_order(r.order) == row_on_release(
                old(self).placed(),
                old(self).current(),
                maybe_children(children),
            ),
    {
        let drag: Option<Drag> = self.drag;
        self.drag = None;
        match drag {
            Some(drag) => {
                if !drag.active {
                    return Ended { dragged: false, order: None };
                }
                self.dragging = None;
                let settled: bool = match self.placement(Some(drag.window)) {
                    Some(placement) => match placement.column {
                        Some(column) => column == drag.requested,
                        None => false,
                    },
                    None => false,
                };
                let order: Option<Vec<usize>> = match children {
                    Some(children) => if drag.failed || settled {
                        Some(self.restore(children))
                    } else {
                        None
                    },
                    None => None,
                };
                Ended { dragged: true, order }
            },
            None => Ended { dragged: false, order: None },
        }
    }

    /// Takes in the drag being broken off, putting the row back.
    pub fn cancel(&mut self, children: Option<&Vec<Child>>) -> (r: Ended)
        ensures
            old(self).in_step() ==> final(self).in_step(),
            final(self).placed() == old(self).placed(),
            final(self).current() is None,
            match old(self).current() {
                Some(drag) if drag.active => {
                    &&& r.dragged
                    &&& final(self).held() is None
                    &&& match children {
                        Some(children) => r.order is Some && r.order->0@ == restored(
                            old(self).placed(),
                            children@,
                        ),
                        None => r.order is None,
                    }
                },
                _ => !r.dragged && r.order is None && final(self).held() == old(self).held(),
            },
            r.dragged == is_under_way(old(self).current(), false),
            final(self).held() == let_go(old(self).current(), old(self).held()),
            maybe_order(r.order) == row_on_cancel(
                old(self).placed(),
                old(self).current(),
                maybe_children(children),
            ),
    {
        let drag: Option<Drag> = self.drag;
        self.drag = None;
        match drag {
            Some(drag) => {
                if !drag.active {
                    return Ended { dragged: false, order: None };
                }
                self.dragging = None;
                let order: Option<Vec<usize>> = match children {
                    Some(children) => Some(self.restore(children)),
                    None => None,
                };
                Ended { dragged: true, order }
            },
            None => Ended { dragged: false, order: None },
        }
    }

    /// Finds a button's place in Niri's own order.
    fn order_for(&self, child: &Child) -> (r: usize)
        ensures
            r == order_of(self.placed(), *child),
    {
        match self.placement(child.window) {
            Some(placement) => placement.order,
            None => usize::MAX,
        }
    }

    /// Works out how to put the row back into Niri's order.
    pub fn restore(&self, children: &Vec<Child>) -> (r: Vec<usize>)
        ensures
            r@ == restored(self.placed(), children@),
    {
        let ghost rel = niri_order(self.placed(), children@);
        let all = places(children.len());
        let before = |a: usize, b: usize| -> (c: bool)
            requires
                within(children@.len(), a, b),
            ensures
                c == rel(a, b),
            { self.order_for(&children[a]) <= self.order_for(&children[b]) };
        stable_sort(&all, before, Ghost(rel))
    }
}

/// Returns true if buttons are left where they are.
fn is_in_place(order: &Vec<usize>, len: usize) -> (r: bool)
    ensures
        r == (order@ == in_place(len as nat)),
{
    if order.len() != len {
        return false;
    }
    let mut i: usize = 0;
    while i < len
        invariant
            i <= len,
            order@.len() == len,
            forall|j: int| 0 <= j < i ==> order@[j] == j,
        decreases len - i,
    {
        if order[i] != i {
            proof {
                assert(in_place(len as nat)[i as int] == i);
            }
            return false;
        }
        i += 1;
    }
    proof {
        assert(order@ =~= in_place(len as nat));
    }
    true
}

/// Puts the dragged buttons among the others.
fn splice(others: &Vec<usize>, dragged: &Vec<usize>, at: usize) -> (r: Vec<usize>)
    requires
        at <= others@.len(),
    ensures
        r@ == landed(others@, dragged@, at as int),
{
    let mut r: Vec<usize> = Vec::new();
    let mut i: usize = 0;
    while i < at
        invariant
            i <= at <= others@.len(),
            r@ == others@.take(i as int),
        decreases at - i,
    {
        proof {
            assert(others@.take(i as int).push(others@[i as int]) =~= others@.take(i + 1));
        }
        r.push(others[i]);
        i += 1;
    }
    let mut k: usize = 0;
    while k < dragged.len()
        invariant
            k <= dragged@.len(),
            at <= others@.len(),
            r@ == others@.take(at as int) + dragged@.take(k as int),
        decreases dragged@.len() - k,
    {
        proof {
            assert(others@.take(at as int) + dragged@.take(k as int).push(dragged@[k as int]) =~= (
            others@.take(at as int) + dragged@.take(k as int)).push(dragged@[k as int]));
            assert(dragged@.take(k as int).push(dragged@[k as int]) =~= dragged@.take(k + 1));
        }
        r.push(dragged[k]);
        k += 1;
    }
    let mut i: usize = at;
    proof {
        assert(dragged@.take(k as int) =~= dragged@);
        assert(others@.subrange(at as int, at as int) =~= Seq::empty());
    }
    while i < others.len()
        invariant
            at <= i <= others@.len(),
            r@ == others@.take(at as int) + dragged@ + others@.subrange(at as int, i as int),
        decreases others@.len() - i,
    {
        proof {
            assert(others@.subrange(at as int, i as int).push(others@[i as int]) =~= others@.subrange(
                at as int,
                i + 1,
            ));
        }
        r.push(others[i]);
        i += 1;
        proof {
            assert(r@ =~= others@.take(at as int) + dragged@ + others@.subrange(at as int, i as int));
        }
    }
    proof {
        assert(others@.subrange(at as int, i as int) =~= others@.skip(at as int));
    }
    r
}


/// The dragged buttons and the others make up all of them.
proof fn lemma_dragged_and_others(
    placements: Map<u64, Placement>,
    workspace: u64,
    column: usize,
    children: Seq<Child>,
    n: int,
)
    requires
        0 <= n <= children.len(),
    ensures
        dragged_at(placements, workspace, column, children, n).to_multiset().add(
            others_at(placements, workspace, column, children, n).to_multiset(),
        ) =~= in_place(n as nat).to_multiset(),
    decreases n,
{
    broadcast use vstd::seq_lib::group_to_multiset_ensures;

    if n > 0 {
        lemma_dragged_and_others(placements, workspace, column, children, n - 1);
        let dragged = dragged_at(placements, workspace, column, children, n - 1);
        let others = others_at(placements, workspace, column, children, n - 1);
        let x = (n - 1) as usize;
        assert(in_place(n as nat) =~= in_place((n - 1) as nat).push(x));
        assert(in_place(n as nat).to_multiset() =~= in_place((n - 1) as nat).to_multiset().insert(x));
        assert(dragged.push(x).to_multiset() =~= dragged.to_multiset().insert(x));
        assert(others.push(x).to_multiset() =~= others.to_multiset().insert(x));
    }
}

/// Wherever a column is dragged to, the row has the same buttons as before.
pub proof fn law_dragging_only_rearranges(
    placements: Map<u64, Placement>,
    workspace: u64,
    column: usize,
    children: Seq<Child>,
    pointer: int,
)
    requires
        children.len() <= usize::MAX,
    ensures
        arranged(placements, workspace, column, children, pointer).0.to_multiset() == in_place(
            children.len(),
        ).to_multiset(),
{
    broadcast use vstd::seq_lib::group_to_multiset_ensures;

    let n = children.len() as int;
    let dragged = dragged_at(placements, workspace, column, children, n);
    let others = others_at(placements, workspace, column, children, n);
    let spans = spans_of(placements, workspace, column, children, n);
    if dragged.len() > 0 && spans.len() > 0 {
        lemma_dragged_and_others(placements, workspace, column, children, n);
        lemma_spans(placements, workspace, column, children, n);
        let before = passed_of(spans, pointer, spans.len() as int);
        lemma_passed_of(spans, pointer, spans.len() as int);
        let at = landing(spans, before);
        assert(0 <= at <= others.len());
        let (a, b) = (others.take(at), others.skip(at));
        vstd::seq_lib::lemma_multiset_commutative(a + dragged, b);
        vstd::seq_lib::lemma_multiset_commutative(a, dragged);
        vstd::seq_lib::lemma_multiset_commutative(a, b);
        assert(a + b =~= others);
        assert(landed(others, dragged, at).to_multiset() =~= dragged.to_multiset().add(
            others.to_multiset(),
        ));
    }
}

/// The index that a dragged column lands at is somewhere among the other columns' runs, or just
/// after them.
pub proof fn law_index_is_within_reach(
    placements: Map<u64, Placement>,
    workspace: u64,
    column: usize,
    children: Seq<Child>,
    pointer: int,
)
    ensures
        ({
            let n = children.len() as int;
            let spans = spans_of(placements, workspace, column, children, n);
            let target = arranged(placements, workspace, column, children, pointer).1;
            target == column || 1 <= target <= spans.len() + 1
        }),
{
    let n = children.len() as int;
    let spans = spans_of(placements, workspace, column, children, n);
    lemma_passed_of(spans, pointer, spans.len() as int);
}

/// The further right the pointer is, the further right the dragged column lands.
pub proof fn law_column_follows_the_pointer(spans: Seq<Span>, pointer: int, further: int, n: int)
    requires
        pointer <= further,
        0 <= n <= spans.len(),
    ensures
        passed_of(spans, pointer, n) <= passed_of(spans, further, n),
    decreases n,
{
    if n > 0 {
        law_column_follows_the_pointer(spans, pointer, further, n - 1);
    }
}

/// Putting the row back only rearranges the buttons, and leaves them in Niri's own order.
pub proof fn law_restoring_gives_the_order_back(
    placements: Map<u64, Placement>,
    children: Seq<Child>,
)
    ensures
        restored(placements, children).to_multiset() == in_place(children.len()).to_multiset(),
        in_order(restored(placements, children), niri_order(placements, children)),
{
    law_sorted_rearranges(in_place(children.len()), niri_order(placements, children));
    law_sorted_in_order(in_place(children.len()), niri_order(placements, children));
}

/// In the row that's put back, a button is never further right than one whose window comes later in
/// Niri's own order, whether its window is floating or in a column. Buttons without a window that
/// Niri has placed come after the others.
pub proof fn law_restored_row_follows_the_order(
    placements: Map<u64, Placement>,
    children: Seq<Child>,
    i: int,
    j: int,
)
    requires
        0 <= i < j < restored(placements, children).len(),
        children.len() <= usize::MAX,
    ensures
        ({
            let a = children[restored(placements, children)[i] as int].window;
            let b = children[restored(placements, children)[j] as int].window;
            let a_placed = a is Some && placements.contains_key(a->0);
            let b_placed = b is Some && placements.contains_key(b->0);
            &&& a_placed && b_placed ==> placements[a->0].order <= placements[b->0].order
            &&& !a_placed && b_placed ==> placements[b->0].order == usize::MAX
        }),
{
    law_restoring_gives_the_order_back(placements, children);
    let row = restored(placements, children);
    assert(niri_order(placements, children)(row[i], row[j]));
}

/// Whether a button is for a window in a column on a workspace.
pub open spec fn is_in_column(
    placements: Map<u64, Placement>,
    workspace: u64,
    column: usize,
    child: Child,
) -> bool {
    match child.window {
        Some(window) => {
            &&& placements.contains_key(window)
            &&& placements[window].workspace == workspace
            &&& placements[window].column == Some(column)
        },
        None => false,
    }
}

proof fn lemma_parts(
    placements: Map<u64, Placement>,
    workspace: u64,
    column: usize,
    children: Seq<Child>,
    n: int,
)
    requires
        0 <= n <= children.len() <= usize::MAX,
    ensures
        ({
            let dragged = dragged_at(placements, workspace, column, children, n);
            let others = others_at(placements, workspace, column, children, n);
            &&& forall|k: int|
                0 <= k < dragged.len() ==> #[trigger] dragged[k] < n && is_in_column(
                    placements,
                    workspace,
                    column,
                    children[dragged[k] as int],
                )
            &&& forall|k: int|
                0 <= k < others.len() ==> #[trigger] others[k] < n && !is_in_column(
                    placements,
                    workspace,
                    column,
                    children[others[k] as int],
                )
            &&& forall|j: int, k: int|
                0 <= j < k < dragged.len() ==> #[trigger] dragged[j] < #[trigger] dragged[k]
            &&& forall|j: int, k: int|
                0 <= j < k < others.len() ==> #[trigger] others[j] < #[trigger] others[k]
        }),
    decreases n,
{
    if n > 0 {
        lemma_parts(placements, workspace, column, children, n - 1);
        let few_dragged = dragged_at(placements, workspace, column, children, n - 1);
        let few_others = others_at(placements, workspace, column, children, n - 1);
        let dragged = dragged_at(placements, workspace, column, children, n);
        let others = others_at(placements, workspace, column, children, n);
        let child = children[n - 1];
        assert(is_in_column(placements, workspace, column, child) == (column_of(
            placements,
            workspace,
            child,
        ) == Some(column)));
        assert forall|k: int| 0 <= k < few_dragged.len() implies #[trigger] dragged[k]
            == few_dragged[k] by {}
        assert forall|k: int| 0 <= k < few_others.len() implies #[trigger] others[k]
            == few_others[k] by {}
    }
}

/// Dragging a column takes its buttons along, and nobody else's: they end up next to each other, in
/// the order they were in, and so do the others around them.
pub proof fn law_only_the_column_moves(
    placements: Map<u64, Placement>,
    workspace: u64,
    column: usize,
    children: Seq<Child>,
    pointer: int,
    i: int,
    j: int,
)
    requires
        children.len() <= usize::MAX,
        0 <= i < j < arranged(placements, workspace, column, children, pointer).0.len(),
    ensures
        ({
            let order = arranged(placements, workspace, column, children, pointer).0;
            let a = is_in_column(placements, workspace, column, children[order[i] as int]);
            let b = is_in_column(placements, workspace, column, children[order[j] as int]);
            &&& a == b ==> order[i] < order[j]
            &&& a && b && (exists|other: usize, k: int|
                0 <= k < children.len() && other != column && #[trigger] is_in_column(
                    placements,
                    workspace,
                    other,
                    children[k],
                )) ==> forall|m: int|
                i < m < j ==> is_in_column(
                    placements,
                    workspace,
                    column,
                    children[#[trigger] order[m] as int],
                )
        }),
{
    let n = children.len() as int;
    let dragged = dragged_at(placements, workspace, column, children, n);
    let others = others_at(placements, workspace, column, children, n);
    let spans = spans_of(placements, workspace, column, children, n);
    let order = arranged(placements, workspace, column, children, pointer).0;
    lemma_parts(placements, workspace, column, children, n);
    lemma_spans(placements, workspace, column, children, n);
    if dragged.len() > 0 && spans.len() > 0 {
        let before = passed_of(spans, pointer, spans.len() as int);
        lemma_passed_of(spans, pointer, spans.len() as int);
        let at = landing(spans, before);
        assert(order == landed(others, dragged, at));
        assert forall|m: int| 0 <= m < order.len() implies #[trigger] order[m] == if m < at {
            others[m]
        } else if m < at + dragged.len() {
            dragged[m - at]
        } else {
            others[m - dragged.len()]
        } by {}
        assert(order[i] == order[i] && order[j] == order[j]);
    } else {
        assert forall|m: int| 0 <= m < order.len() implies order[m] == m by {}
        if exists|other: usize, k: int|
            0 <= k < children.len() && other != column && #[trigger] is_in_column(
                placements,
                workspace,
                other,
                children[k],
            ) {
            let (other, k) = choose|other: usize, k: int|
                0 <= k < children.len() && other != column && #[trigger] is_in_column(
                    placements,
                    workspace,
                    other,
                    children[k],
                );
            lemma_some_span(placements, workspace, column, children, n, k, other);
            assert(dragged.len() == 0);
            if is_in_column(placements, workspace, column, children[order[i] as int]) {
                lemma_some_dragged(placements, workspace, column, children, n, i);
            }
        }
    }
}

proof fn lemma_some_span(
    placements: Map<u64, Placement>,
    workspace: u64,
    column: usize,
    children: Seq<Child>,
    n: int,
    k: int,
    other: usize,
)
    requires
        0 <= k < n <= children.len(),
        other != column,
        is_in_column(placements, workspace, other, children[k]),
    ensures
        spans_of(placements, workspace, column, children, n).len() > 0,
    decreases n,
{
    if k < n - 1 {
        lemma_some_span(placements, workspace, column, children, n - 1, k, other);
    }
}

proof fn lemma_some_dragged(
    placements: Map<u64, Placement>,
    workspace: u64,
    column: usize,
    children: Seq<Child>,
    n: int,
    k: int,
)
    requires
        0 <= k < n <= children.len(),
        is_in_column(placements, workspace, column, children[k]),
    ensures
        dragged_at(placements, workspace, column, children, n).len() > 0,
    decreases n,
{
    if k < n - 1 {
        lemma_some_dragged(placements, workspace, column, children, n - 1, k);
    }
}

/// The runs of buttons that a dragged column can pass go from the left edge of their first button to
/// the right edge of their last one. They're for other columns on the same workspace, each for
/// another one than the run before it, and every button of such a column is in a run for it.
pub proof fn law_runs_are_for_columns(
    placements: Map<u64, Placement>,
    workspace: u64,
    column: usize,
    children: Seq<Child>,
    n: int,
)
    requires
        0 <= n <= children.len() <= usize::MAX,
    ensures
        ({
            let others = others_at(placements, workspace, column, children, n);
            let spans = spans_of(placements, workspace, column, children, n);
            &&& forall|k: int|
                #![trigger spans[k]]
                0 <= k < spans.len() ==> {
                    let a = children[others[spans[k].first as int] as int];
                    let b = children[others[spans[k].last as int] as int];
                    &&& spans[k].column != column
                    &&& spans[k].first <= spans[k].last < others.len()
                    &&& spans[k].left == a.x
                    &&& spans[k].right == b.x + b.width
                    &&& is_in_column(placements, workspace, spans[k].column, a)
                    &&& is_in_column(placements, workspace, spans[k].column, b)
                }
            &&& forall|k: int|
                #![trigger spans[k]]
                0 < k < spans.len() ==> spans[k - 1].column != spans[k].column && spans[k - 1].last
                    < spans[k].first
            &&& forall|q: int, other: usize|
                0 <= q < others.len() && #[trigger] is_in_column(
                    placements,
                    workspace,
                    other,
                    children[others[q] as int],
                ) ==> exists|k: int|
                    0 <= k < spans.len() && #[trigger] spans[k].column == other && spans[k].first <= q
                        <= spans[k].last
        }),
    decreases n,
{
    if n > 0 {
        law_runs_are_for_columns(placements, workspace, column, children, n - 1);
        lemma_spans(placements, workspace, column, children, n - 1);
        let fewer = others_at(placements, workspace, column, children, n - 1);
        let before = spans_of(placements, workspace, column, children, n - 1);
        let others = others_at(placements, workspace, column, children, n);
        let spans = spans_of(placements, workspace, column, children, n);
        let child = children[n - 1];
        let found = column_of(placements, workspace, child);
        assert forall|q: int| 0 <= q < fewer.len() implies #[trigger] others[q] == fewer[q] by {}
        if found is Some && found->0 != column {
            assert(others == fewer.push((n - 1) as usize));
            assert(spans == with_button(before, found->0, fewer.len() as usize, child));
            let last = spans.len() - 1;
            assert(spans[last].last == fewer.len());
            assert forall|k: int| 0 <= k < last implies #[trigger] spans[k] == before[k] by {}
            assert(last < before.len() ==> spans[last].first == before[last].first);
        }
        assert forall|q: int, other: usize|
            0 <= q < others.len() && #[trigger] is_in_column(
                placements,
                workspace,
                other,
                children[others[q] as int],
            ) implies exists|k: int|
            0 <= k < spans.len() && #[trigger] spans[k].column == other && spans[k].first <= q
                <= spans[k].last by {
            if q < fewer.len() {
                assert(is_in_column(placements, workspace, other, children[fewer[q] as int]));
                let k = choose|k: int|
                    0 <= k < before.len() && #[trigger] before[k].column == other && before[k].first
                        <= q <= before[k].last;
                assert(spans[k].column == other && spans[k].first <= q <= spans[k].last);
            } else {
                let last = spans.len() - 1;
                assert(spans[last].column == other);
            }
        }
    }
}

proof fn lemma_all_passed(spans: Seq<Span>, pointer: int, k: int, n: int)
    requires
        0 <= k <= spans.len(),
        0 <= n <= spans.len(),
        forall|j: int| 0 <= j < k ==> (#[trigger] spans[j]).left + spans[j].right < pointer,
        forall|j: int|
            k <= j < spans.len() ==> (#[trigger] spans[j]).left + spans[j].right >= pointer,
    ensures
        passed_of(spans, pointer, n) == if n <= k {
            n
        } else {
            k
        },
    decreases n,
{
    if n > 0 {
        lemma_all_passed(spans, pointer, k, n - 1);
    }
}

/// A dragged column lands between the runs whose middles are to the left of the pointer, all of
/// which stay to its left, and the others, all of which stay to its right. Its index is one more
/// than the number of those that it's passed.
pub proof fn law_column_lands_at_the_pointer(
    placements: Map<u64, Placement>,
    workspace: u64,
    column: usize,
    children: Seq<Child>,
    pointer: int,
    passed: int,
)
    requires
        children.len() <= usize::MAX,
        dragged_at(placements, workspace, column, children, children.len() as int).len() > 0,
        spans_of(placements, workspace, column, children, children.len() as int).len() > 0,
        ({
            let spans = spans_of(placements, workspace, column, children, children.len() as int);
            &&& 0 <= passed <= spans.len()
            &&& forall|j: int|
                0 <= j < passed ==> (#[trigger] spans[j]).left + spans[j].right < pointer
            &&& forall|j: int|
                passed <= j < spans.len() ==> (#[trigger] spans[j]).left + spans[j].right >= pointer
        }),
    ensures
        ({
            let n = children.len() as int;
            let dragged = dragged_at(placements, workspace, column, children, n);
            let others = others_at(placements, workspace, column, children, n);
            let spans = spans_of(placements, workspace, column, children, n);
            let (order, index) = arranged(placements, workspace, column, children, pointer);
            &&& index == passed + 1
            &&& exists|at: int|
                {
                    &&& 0 <= at <= others.len()
                    &&& #[trigger] (others.take(at) + dragged + others.skip(at)) == order
                    &&& forall|j: int| 0 <= j < passed ==> (#[trigger] spans[j]).last < at
                    &&& forall|j: int|
                        passed <= j < spans.len() ==> at <= (#[trigger] spans[j]).first
                    &&& (passed < spans.len() && at == spans[passed].first) || (passed == spans.len()
                        && at == spans[passed - 1].last + 1)
                }
        }),
{
    let n = children.len() as int;
    let dragged = dragged_at(placements, workspace, column, children, n);
    let others = others_at(placements, workspace, column, children, n);
    let spans = spans_of(placements, workspace, column, children, n);
    lemma_spans(placements, workspace, column, children, n);
    lemma_runs_in_turn(placements, workspace, column, children, n);
    lemma_all_passed(spans, pointer, passed, spans.len() as int);
    let at = landing(spans, passed);
    assert(others.take(at) + dragged + others.skip(at) == arranged(
        placements,
        workspace,
        column,
        children,
        pointer,
    ).0);
}

proof fn lemma_runs_in_turn(
    placements: Map<u64, Placement>,
    workspace: u64,
    column: usize,
    children: Seq<Child>,
    n: int,
)
    requires
        0 <= n <= children.len() <= usize::MAX,
    ensures
        ({
            let spans = spans_of(placements, workspace, column, children, n);
            forall|j: int, k: int|
                0 <= j < k < spans.len() ==> (#[trigger] spans[j]).last < (#[trigger] spans[k]).first
        }),
{
    law_runs_are_for_columns(placements, workspace, column, children, n);
    let spans = spans_of(placements, workspace, column, children, n);
    assert forall|j: int, k: int| 0 <= j < k < spans.len() implies (#[trigger] spans[j]).last
        < (#[trigger] spans[k]).first by {
        lemma_runs_apart(spans, j, k);
    }
}

proof fn lemma_runs_apart(spans: Seq<Span>, j: int, k: int)
    requires
        0 <= j < k < spans.len(),
        forall|m: int|
            #![trigger spans[m]]
            0 <= m < spans.len() ==> spans[m].first <= spans[m].last,
        forall|m: int|
            #![trigger spans[m]]
            0 < m < spans.len() ==> spans[m - 1].last < spans[m].first,
    ensures
        spans[j].last < spans[k].first,
    decreases k - j,
{
    assert(spans[k - 1].last < spans[k].first);
    if j < k - 1 {
        lemma_runs_apart(spans, j, k - 1);
        assert(spans[k - 1].first <= spans[k - 1].last);
    }
}

/// Only a window that's in a column can be dragged. A drag of it starts out on the window's own
/// workspace and column, waiting for the pointer to go far enough, and gives up from the start where
/// Niri wouldn't focus the window.
pub proof fn law_only_columns_are_dragged(
    placements: Map<u64, Placement>,
    window: u64,
    focused: bool,
    start: (i32, i32),
)
    ensures
        !placements.contains_key(window) || placements[window].column is None ==> pressed(
            placements,
            window,
            focused,
            start,
        ) is None,
        placements.contains_key(window) && placements[window].column is Some ==> {
            let drag = pressed(placements, window, focused, start);
            &&& drag is Some
            &&& drag->0.window == window
            &&& drag->0.workspace == placements[window].workspace
            &&& drag->0.requested == placements[window].column->0
            &&& drag->0.start == start
            &&& !drag->0.active
            &&& drag->0.failed != focused
        },
{
}

/// A drag begins once the pointer has gone far enough and goes on from there, whatever the pointer
/// does then, until the button is let go of. It takes hold of the button it began with.
pub proof fn law_drags_begin_past_the_threshold(drag: Drag, held: Option<u64>, past_threshold: bool)
    ensures
        is_under_way(Some(drag), past_threshold) == (drag.active || past_threshold),
        begins(Some(drag), past_threshold) == (!drag.active && past_threshold),
        dragged_on(Some(drag), past_threshold) is Some,
        dragged_on(Some(drag), past_threshold)->0.active == (drag.active || past_threshold),
        dragged_on(Some(drag), past_threshold)->0 == (Drag {
            active: dragged_on(Some(drag), past_threshold)->0.active,
            ..drag
        }),
        !drag.active && past_threshold ==> held_on(Some(drag), held, past_threshold) == Some(
            drag.window,
        ),
        drag.active || !past_threshold ==> held_on(Some(drag), held, past_threshold) == held,
        drag.active ==> let_go(Some(drag), held) is None,
        !drag.active ==> let_go(Some(drag), held) == held,
        !is_under_way(None, past_threshold) && !begins(None, past_threshold),
        dragged_on(None, past_threshold) is None,
        held_on(None, held, past_threshold) == held && let_go(None, held) == held,
{
}

/// Niri is asked for an index just where that's not the one it was asked for last. Once it's taken the
/// request, it's not asked again with the pointer still there, and once it's turned one down, it's not
/// asked for anything.
pub proof fn law_requests_are_made_once(
    placements: Map<u64, Placement>,
    drag: Drag,
    children: Option<Seq<Child>>,
    pointer: int,
    target: usize,
)
    requires
        drag.active,
    ensures
        index_while_dragging(placements, Some(drag), false, children, pointer) == Some(target as int)
            ==> {
            &&& target != drag.requested
            &&& index_while_dragging(
                placements,
                answered(Some(drag), target, true),
                false,
                children,
                pointer,
            ) is None
        },
        index_while_dragging(
            placements,
            answered(Some(drag), target, false),
            false,
            children,
            pointer,
        ) is None,
        answered(Some(drag), target, true) == Some(Drag { requested: target, ..drag }),
        answered(Some(drag), target, false) == Some(Drag { failed: true, ..drag }),
{
}

/// While a column is being dragged, the buttons go where the pointer has it among the columns of its
/// own workspace, and nowhere where they're there already. Niri is asked for the index that goes with
/// that.
pub proof fn law_row_follows_the_drag(
    placements: Map<u64, Placement>,
    drag: Drag,
    past_threshold: bool,
    children: Seq<Child>,
    pointer: int,
    column: usize,
)
    requires
        drag.active || past_threshold,
        placements.contains_key(drag.window),
        placements[drag.window].column == Some(column),
    ensures
        ({
            let (order, index) = arranged(placements, drag.workspace, column, children, pointer);
            let row = row_while_dragging(
                placements,
                Some(drag),
                past_threshold,
                Some(children),
                pointer,
            );
            let request = index_while_dragging(
                placements,
                Some(drag),
                past_threshold,
                Some(children),
                pointer,
            );
            &&& row is Some ==> row->0 == order
            &&& row is None <==> order == in_place(children.len())
            &&& request is Some ==> request->0 == index
            &&& request is Some <==> index != drag.requested && !drag.failed
        }),
{
}

/// Nothing moves and nothing is asked of Niri outside of a drag, without the buttons, or once the
/// window has left its column.
pub proof fn law_nothing_moves_without_a_drag(
    placements: Map<u64, Placement>,
    drag: Option<Drag>,
    past_threshold: bool,
    children: Option<Seq<Child>>,
    pointer: int,
)
    requires
        drag is None || (!drag->0.active && !past_threshold) || children is None
            || !placements.contains_key(drag->0.window) || placements[drag->0.window].column is None,
    ensures
        row_while_dragging(placements, drag, past_threshold, children, pointer) is None,
        index_while_dragging(placements, drag, past_threshold, children, pointer) is None,
{
}

/// A drag that's broken off puts the row back into Niri's own order. One that ends with the button let
/// go of does so just where Niri has the column at the index it was asked for last, or won't have it
/// anywhere else. Where there was no drag, the row stays.
pub proof fn law_rows_are_put_back(
    placements: Map<u64, Placement>,
    drag: Drag,
    children: Seq<Child>,
)
    ensures
        drag.active ==> row_on_cancel(placements, Some(drag), Some(children)) == Some(
            restored(placements, children),
        ),
        drag.active && drag.failed ==> row_on_release(placements, Some(drag), Some(children)) == Some(
            restored(placements, children),
        ),
        drag.active && placements.contains_key(drag.window) && placements[drag.window].column == Some(
            drag.requested,
        ) ==> row_on_release(placements, Some(drag), Some(children)) == Some(
            restored(placements, children),
        ),
        !drag.failed && !(placements.contains_key(drag.window) && placements[drag.window].column
            == Some(drag.requested)) ==> row_on_release(placements, Some(drag), Some(children)) is None,
        !drag.active ==> row_on_release(placements, Some(drag), Some(children)) is None
            && row_on_cancel(placements, Some(drag), Some(children)) is None,
        row_on_cancel(placements, Some(drag), None) is None && row_on_release(
            placements,
            Some(drag),
            None,
        ) is None,
{
}

/// Where there's no button of the column to move, or no other column to move it past, the row stays
/// as it is, and so does the column's index.
pub proof fn law_lone_columns_stay(
    placements: Map<u64, Placement>,
    workspace: u64,
    column: usize,
    children: Seq<Child>,
    pointer: int,
)
    requires
        (forall|k: int|
            0 <= k < children.len() ==> !is_in_column(
                placements,
                workspace,
                column,
                #[trigger] children[k],
            )) || (forall|k: int, other: usize|
            0 <= k < children.len() && other != column ==> !#[trigger] is_in_column(
                placements,
                workspace,
                other,
                children[k],
            )),
        children.len() <= usize::MAX,
    ensures
        arranged(placements, workspace, column, children, pointer) == (
            in_place(children.len()),
            column as int,
        ),
{
    let n = children.len() as int;
    let dragged = dragged_at(placements, workspace, column, children, n);
    let others = others_at(placements, workspace, column, children, n);
    let spans = spans_of(placements, workspace, column, children, n);
    if dragged.len() > 0 && spans.len() > 0 {
        lemma_parts(placements, workspace, column, children, n);
        assert(is_in_column(placements, workspace, column, children[dragged[0] as int]));
        law_runs_are_for_columns(placements, workspace, column, children, n);
        assert(spans[0].column != column);
        assert(others[spans[0].first as int] < n);
        assert(is_in_column(
            placements,
            workspace,
            spans[0].column,
            children[others[spans[0].first as int] as int],
        ));
    }
}

} // verus!
