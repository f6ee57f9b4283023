//! The menu that pops up when a taskbar button is right-clicked, with the things you'd otherwise
//! reach for a keybinding to do to that window.

use vstd::prelude::*;
use vstd::string::StringExecFns;

use crate::binds::{keys_for, BindView, Binds};
use crate::ids::lemma_push_contains;
use crate::niri::{Action, Listed, Output, Workspace};
use crate::order::{
    in_order, law_sorted_in_order, law_sorted_rearranges, lemma_sorted_from, lemma_sorted_len,
    lemma_sorted_map, ordered_by, sorted, stable_sort, within,
};
use crate::text::{
    decimal, decimal_of, first_from, lemma_first_from, lemma_text_le_total, lemma_text_le_transitive,
    lower_ascii_of, lower_ascii_text, pieces, same_text, slice_texts, split_at_char, text_before, text_le,
    text_of, texts,
};
use crate::workspaces::label;

verus! {

/// Something to choose from a menu.
#[derive(Debug)]
pub struct Choice {
    pub label: String,
    /// The shortcut to show for it, as Niri writes it.
    pub keys: Option<String>,
    /// The actions to run, in order, when it's chosen.
    pub actions: Vec<Action<String>>,
}

/// What a [`Choice`] says.
#[verifier::ext_equal]
pub struct ChoiceView {
    pub label: Seq<char>,
    pub keys: Option<Seq<char>>,
    pub actions: Seq<Action<Seq<char>>>,
}

/// What each action in a sequence says.
pub open spec fn actions_say(actions: Seq<Action<String>>) -> Seq<Action<Seq<char>>> {
    actions.map_values(|a: Action<String>| a.says())
}

impl Choice {
    /// What this choice says.
    pub open spec fn says(self) -> ChoiceView {
        ChoiceView {
            label: self.label@,
            keys: text_of(self.keys),
            actions: actions_say(self.actions@),
        }
    }
}

/// What each choice in a sequence says.
pub open spec fn choices_say(choices: Seq<Choice>) -> Seq<ChoiceView> {
    choices.map_values(|c: Choice| c.says())
}

/// An item in a menu.
#[derive(Debug)]
pub enum Item {
    Choice(Choice),
    Submenu { label: String, choices: Vec<Choice> },
    Separator,
}

/// What an [`Item`] says.
#[verifier::ext_equal]
pub enum ItemView {
    Choice(ChoiceView),
    Submenu { label: Seq<char>, choices: Seq<ChoiceView> },
    Separator,
}

impl Item {
    /// What this item says.
    pub open spec fn says(self) -> ItemView {
        match self {
            Item::Choice(choice) => ItemView::Choice(choice.says()),
            Item::Submenu { label, choices } => ItemView::Submenu {
                label: label@,
                choices: choices_say(choices@),
            },
            Item::Separator => ItemView::Separator,
        }
    }
}

/// What each item in a sequence says.
pub open spec fn items_say(items: Seq<Item>) -> Seq<ItemView> {
    items.map_values(|i: Item| i.says())
}

/// A choice that runs a single action, with the shortcut for the bind of the given name.
pub open spec fn plain_choice(
    binds: Seq<BindView>,
    label: Seq<char>,
    action: Action<Seq<char>>,
    bind: Seq<char>,
    args: Seq<Seq<char>>,
) -> ChoiceView {
    ChoiceView { label, keys: keys_for(binds, bind, args), actions: seq![action] }
}

/// The tiles on a workspace, each as its column, its place in the column, and its window.
pub open spec fn tiles(windows: Seq<Listed>, workspace: Option<u64>) -> Seq<(usize, usize, u64)>
    decreases windows.len(),
{
    if windows.len() == 0 {
        Seq::empty()
    } else {
        let rest = tiles(windows.drop_last(), workspace);
        let window = windows.last();
        match window.position {
            Some((column, tile)) if window.workspace_id == workspace => rest.push(
                (column, tile, window.id),
            ),
            _ => rest,
        }
    }
}

/// The tiles in a column, each as its place in the column and its window.
pub open spec fn stack_in(tiles: Seq<(usize, usize, u64)>, column: usize) -> Seq<(usize, u64)>
    decreases tiles.len(),
{
    if tiles.len() == 0 {
        Seq::empty()
    } else {
        let rest = stack_in(tiles.drop_last(), column);
        if tiles.last().0 == column {
            rest.push((tiles.last().1, tiles.last().2))
        } else {
            rest
        }
    }
}

/// Whether one tile is above another, or level with it and its window numbered no higher.
pub open spec fn above(a: (usize, u64), b: (usize, u64)) -> bool {
    a.0 < b.0 || (a.0 == b.0 && a.1 <= b.1)
}

/// The tile at the bottom of a stack.
pub open spec fn bottom(stack: Seq<(usize, u64)>) -> (usize, u64)
    recommends
        stack.len() > 0,
    decreases stack.len(),
{
    if stack.len() <= 1 {
        stack[0]
    } else {
        let rest = bottom(stack.drop_last());
        if above(rest, stack.last()) {
            stack.last()
        } else {
            rest
        }
    }
}

/// The bottom of a stack is one of its tiles, and has every one of them above it.
pub proof fn law_bottom_is_lowest(stack: Seq<(usize, u64)>)
    requires
        stack.len() > 0,
    ensures
        stack.contains(bottom(stack)),
        forall|i: int| 0 <= i < stack.len() ==> above(#[trigger] stack[i], bottom(stack)),
    decreases stack.len(),
{
    if stack.len() > 1 {
        let rest = stack.drop_last();
        law_bottom_is_lowest(rest);
        let k = choose|k: int| 0 <= k < rest.len() && rest[k] == bottom(rest);
        assert(stack[k] == bottom(rest));
        assert forall|i: int| 0 <= i < stack.len() implies above(
            #[trigger] stack[i],
            bottom(stack),
        ) by {
            if i < rest.len() {
                assert(above(rest[i], bottom(rest)));
            }
        }
    } else {
        assert(stack[0] == bottom(stack));
    }
}

/// Which windows are focused.
pub open spec fn focused(windows: Seq<Listed>) -> spec_fn(int) -> bool {
    |i: int| windows[i].is_focused
}

/// The first focused window.
pub open spec fn focused_window(windows: Seq<Listed>) -> Option<u64> {
    let i = first_from(windows.len() as int, 0, focused(windows));
    if i < windows.len() {
        Some(windows[i].id)
    } else {
        None
    }
}

/// The actions that move everything in a stack down a slot, with the bottom window coming round to
/// the top.
pub open spec fn cycle_actions(stack: Seq<(usize, u64)>, focus: Option<u64>) -> Seq<Action<Seq<char>>> {
    let walk = seq![Action::FocusWindow { id: bottom(stack).1 }] + Seq::new(
        (stack.len() - 1) as nat,
        |i: int| Action::MoveWindowUp,
    );
    match focus {
        Some(id) => walk.push(Action::FocusWindow { id }),
        None => walk,
    }
}

/// A column, from the top down, with the window at `at` moved up the given number of times.
pub open spec fn moved_up(column: Seq<u64>, at: int, times: nat) -> Seq<u64>
    decreases times,
{
    if times == 0 || at <= 0 {
        column
    } else {
        moved_up(column.update(at, column[at - 1]).update(at - 1, column[at]), at - 1, (times - 1) as nat)
    }
}

proof fn lemma_moved_up(column: Seq<u64>, at: int)
    requires
        0 <= at < column.len(),
    ensures
        moved_up(column, at, at as nat) =~= seq![column[at]] + column.remove(at),
    decreases at,
{
    if at > 0 {
        let next = column.update(at, column[at - 1]).update(at - 1, column[at]);
        lemma_moved_up(next, at - 1);
        assert(next.remove(at - 1) =~= column.remove(at));
    }
}

/// Walking the bottom window of a stack up as many times as there are windows above it brings it
/// round to the top, with the others a slot further down in the same order.
pub proof fn law_cycle_turns_the_stack(column: Seq<u64>)
    requires
        column.len() > 0,
    ensures
        moved_up(column, column.len() - 1, (column.len() - 1) as nat) == seq![column.last()]
            + column.drop_last(),
{
    lemma_moved_up(column, column.len() - 1);
    assert(column.remove(column.len() - 1) =~= column.drop_last());
}

/// The items for taking a window into or out of a stack.
pub open spec fn stack_items(
    binds: Seq<BindView>,
    windows: Seq<Listed>,
    window: Listed,
) -> Seq<ItemView> {
    match window.position {
        Some((column, _)) => {
            let tiles = tiles(windows, window.workspace_id);
            let stack = stack_in(tiles, column);
            let id = window.id;
            let right = "consume-or-expel-window-right"@;
            if stack.len() > 1 {
                seq![
                    ItemView::Choice(
                        plain_choice(
                            binds,
                            "Unstack window"@,
                            Action::ConsumeOrExpelWindowRight { id },
                            right,
                            seq![],
                        ),
                    ),
                    ItemView::Choice(
                        ChoiceView {
                            label: "Cycle stack"@,
                            keys: None,
                            actions: cycle_actions(stack, focused_window(windows)),
                        },
                    ),
                ]
            } else {
                let to_left = seq![
                    ItemView::Choice(
                        plain_choice(
                            binds,
                            "Stack into left column"@,
                            Action::ConsumeOrExpelWindowLeft { id },
                            "consume-or-expel-window-left"@,
                            seq![],
                        ),
                    ),
                ];
                let to_right = seq![
                    ItemView::Choice(
                        plain_choice(
                            binds,
                            "Stack into right column"@,
                            Action::ConsumeOrExpelWindowRight { id },
                            right,
                            seq![],
                        ),
                    ),
                ];
                let none = Seq::<ItemView>::empty();
                (if any_left(tiles, column) {
                    to_left
                } else {
                    none
                }) + (if any_right(tiles, column) {
                    to_right
                } else {
                    none
                })
            }
        },
        None => Seq::empty(),
    }
}

/// Whether there's a column to the left.
pub open spec fn any_left(tiles: Seq<(usize, usize, u64)>, column: usize) -> bool {
    exists|i: int| 0 <= i < tiles.len() && (#[trigger] tiles[i]).0 < column
}

/// Whether there's a column to the right.
pub open spec fn any_right(tiles: Seq<(usize, usize, u64)>, column: usize) -> bool {
    exists|i: int| 0 <= i < tiles.len() && (#[trigger] tiles[i]).0 > column
}

/// Whether a window has a column to itself.
pub open spec fn alone(windows: Seq<Listed>, window: Listed) -> bool {
    match window.position {
        Some((column, _)) => stack_in(tiles(windows, window.workspace_id), column).len() == 1,
        None => false,
    }
}

/// The shortcut for moving a window to a workspace. Moving a window that has a column to itself
/// does the same as moving its column, so a binding for either will do.
pub open spec fn workspace_keys(
    binds: Seq<BindView>,
    alone: bool,
    reference: Option<Seq<char>>,
) -> Option<Seq<char>> {
    match reference {
        Some(name) => match keys_for(binds, "move-window-to-workspace"@, seq![name]) {
            Some(keys) => Some(keys),
            None => if alone {
                keys_for(binds, "move-column-to-workspace"@, seq![name])
            } else {
                None
            },
        },
        None => None,
    }
}

/// Every workspace but the one with the given ID.
pub open spec fn other_workspaces(workspaces: Seq<Workspace>, current: Option<u64>) -> Seq<Workspace>
    decreases workspaces.len(),
{
    if workspaces.len() == 0 {
        Seq::empty()
    } else {
        let rest = other_workspaces(workspaces.drop_last(), current);
        if Some(workspaces.last().id) != current {
            rest.push(workspaces.last())
        } else {
            rest
        }
    }
}

/// The order of text that may not be there: nothing comes before anything else.
pub open spec fn maybe_text_le(a: Option<Seq<char>>, b: Option<Seq<char>>) -> bool {
    match (a, b) {
        (None, _) => true,
        (Some(_), None) => false,
        (Some(a), Some(b)) => text_le(a, b),
    }
}

/// Whether a workspace comes before another, or level with it: by output, then by index.
pub open spec fn workspace_le(a: Workspace, b: Workspace) -> bool {
    if text_of(a.output) == text_of(b.output) {
        a.idx <= b.idx
    } else {
        maybe_text_le(text_of(a.output), text_of(b.output))
    }
}

/// The order of workspaces in the menu.
pub open spec fn workspace_order() -> spec_fn(Workspace, Workspace) -> bool {
    |a: Workspace, b: Workspace| workspace_le(a, b)
}

/// Which workspaces are focused.
pub open spec fn focused_at(workspaces: Seq<Workspace>) -> spec_fn(int) -> bool {
    |i: int| workspaces[i].is_focused
}

/// The output of the first focused workspace.
pub open spec fn focused_output(workspaces: Seq<Workspace>) -> Option<Seq<char>> {
    let i = first_from(workspaces.len() as int, 0, focused_at(workspaces));
    if i < workspaces.len() {
        text_of(workspaces[i].output)
    } else {
        None
    }
}

/// A workspace's name, or its index where it doesn't have one.
pub open spec fn workspace_name(workspace: Workspace) -> Seq<char> {
    match workspace.name {
        Some(name) => name@,
        None => decimal(workspace.idx as nat),
    }
}

/// What a binding calls a workspace. A binding that names a workspace by index means that index on
/// the focused output, so those only line up with workspaces there. Named workspaces are the same
/// everywhere.
pub open spec fn workspace_reference(
    workspace: Workspace,
    focused_output: Option<Seq<char>>,
) -> Option<Seq<char>> {
    match workspace.name {
        Some(name) => Some(name@),
        None => if text_of(workspace.output) == focused_output {
            Some(decimal(workspace.idx as nat))
        } else {
            None
        },
    }
}

/// The choice that moves a window to a workspace.
pub open spec fn workspace_choice(
    binds: Seq<BindView>,
    id: u64,
    alone: bool,
    several_outputs: bool,
    focused_output: Option<Seq<char>>,
    workspace: Workspace,
) -> ChoiceView {
    let name = workspace_name(workspace);
    ChoiceView {
        label: match workspace.output {
            Some(output) if several_outputs => name + " ("@ + output@ + ")"@,
            _ => name,
        },
        keys: workspace_keys(binds, alone, workspace_reference(workspace, focused_output)),
        actions: seq![Action::MoveWindowToWorkspace { id, workspace: workspace.id }],
    }
}

/// The workspaces to move a window to, in order.
pub open spec fn workspace_targets(workspaces: Seq<Workspace>, current: Option<u64>) -> Seq<Workspace> {
    sorted(other_workspaces(workspaces, current), workspace_order())
}

/// The submenu for moving a window to another workspace, if there are any.
pub open spec fn workspace_items(
    binds: Seq<BindView>,
    windows: Seq<Listed>,
    window: Listed,
    workspaces: Seq<Workspace>,
    several_outputs: bool,
) -> Seq<ItemView> {
    let targets = workspace_targets(workspaces, window.workspace_id);
    if targets.len() == 0 {
        Seq::empty()
    } else {
        seq![
            ItemView::Submenu {
                label: "Move to workspace"@,
                choices: targets.map_values(
                    |workspace: Workspace|
                        workspace_choice(
                            binds,
                            window.id,
                            alone(windows, window),
                            several_outputs,
                            focused_output(workspaces),
                            workspace,
                        ),
                ),
            },
        ]
    }
}

/// Which workspaces have the given ID.
pub open spec fn numbered(workspaces: Seq<Workspace>, id: u64) -> spec_fn(int) -> bool {
    |i: int| workspaces[i].id == id
}

/// The output that a workspace is on.
pub open spec fn output_of(workspaces: Seq<Workspace>, workspace: Option<u64>) -> Option<Seq<char>> {
    match workspace {
        Some(id) => {
            let i = first_from(workspaces.len() as int, 0, numbered(workspaces, id));
            if i < workspaces.len() {
                text_of(workspaces[i].output)
            } else {
                None
            }
        },
        None => None,
    }
}

/// The names of the outputs but for the given one.
pub open spec fn other_outputs(outputs: Seq<Output>, current: Option<Seq<char>>) -> Seq<Seq<char>>
    decreases outputs.len(),
{
    if outputs.len() == 0 {
        Seq::empty()
    } else {
        let rest = other_outputs(outputs.drop_last(), current);
        if Some(outputs.last().name@) != current {
            rest.push(outputs.last().name@)
        } else {
            rest
        }
    }
}

/// The order of text.
pub open spec fn text_order() -> spec_fn(Seq<char>, Seq<char>) -> bool {
    |a: Seq<char>, b: Seq<char>| text_le(a, b)
}

/// The names of the outputs to move a window to, in order.
pub open spec fn output_targets(outputs: Seq<Output>, current: Option<Seq<char>>) -> Seq<Seq<char>> {
    sorted(other_outputs(outputs, current), text_order())
}

/// Which outputs have the given name.
pub open spec fn named(outputs: Seq<Output>, name: Seq<char>) -> spec_fn(int) -> bool {
    |i: int| outputs[i].name@ == name
}

/// An output by its make and model where Niri knows them, with the connector alongside.
pub open spec fn output_label(outputs: Seq<Output>, name: Seq<char>) -> Seq<char> {
    let i = first_from(outputs.len() as int, 0, named(outputs, name));
    if i < outputs.len() {
        outputs[i].make@ + " "@ + outputs[i].model@ + " ("@ + name + ")"@
    } else {
        name
    }
}

/// The choice that moves a window to an output.
pub open spec fn output_choice(
    binds: Seq<BindView>,
    id: u64,
    outputs: Seq<Output>,
    name: Seq<char>,
) -> ChoiceView {
    plain_choice(
        binds,
        output_label(outputs, name),
        Action::MoveWindowToMonitor { id, output: name },
        "move-window-to-monitor"@,
        seq![name],
    )
}

/// The submenu for moving a window to another output, if there are any.
pub open spec fn output_items(
    binds: Seq<BindView>,
    id: u64,
    current: Option<Seq<char>>,
    outputs: Seq<Output>,
) -> Seq<ItemView> {
    let targets = output_targets(outputs, current);
    if targets.len() == 0 {
        Seq::empty()
    } else {
        seq![
            ItemView::Submenu {
                label: "Move to monitor"@,
                choices: targets.map_values(|name: Seq<char>| output_choice(binds, id, outputs, name)),
            },
        ]
    }
}

/// Which windows have the given ID.
pub open spec fn listed(windows: Seq<Listed>, id: u64) -> spec_fn(int) -> bool {
    |i: int| windows[i].id == id
}

/// The items for what can be done to a window where it is.
pub open spec fn window_items(binds: Seq<BindView>, window: Listed) -> Seq<ItemView> {
    let id = window.id;
    let items = seq![
        ItemView::Choice(
            plain_choice(
                binds,
                if window.is_floating {
                    "Tile window"@
                } else {
                    "Float window"@
                },
                Action::ToggleWindowFloating { id },
                "toggle-window-floating"@,
                seq![],
            ),
        ),
        ItemView::Choice(
            plain_choice(
                binds,
                "Fullscreen"@,
                Action::FullscreenWindow { id },
                "fullscreen-window"@,
                seq![],
            ),
        ),
    ];
    if window.is_floating {
        items
    } else {
        // Niri can only maximize the focused column, so this focuses the window on the way.
        items.push(
            ItemView::Choice(
                ChoiceView {
                    label: "Maximize column"@,
                    keys: keys_for(binds, "maximize-column"@, seq![]),
                    actions: seq![Action::FocusWindow { id }, Action::MaximizeColumn],
                },
            ),
        )
    }
}

/// The items that every menu ends in.
pub open spec fn last_items(binds: Seq<BindView>, id: u64) -> Seq<ItemView> {
    seq![
        ItemView::Separator,
        ItemView::Choice(
            plain_choice(
                binds,
                "Close window"@,
                Action::CloseWindow { id },
                "close-window"@,
                seq![],
            ),
        ),
    ]
}

/// The whole menu for a window.
pub open spec fn menu_for(
    binds: Seq<BindView>,
    windows: Seq<Listed>,
    window: Listed,
    workspaces: Seq<Workspace>,
    outputs: Seq<Output>,
) -> Seq<ItemView> {
    window_items(binds, window) + stack_items(binds, windows, window) + workspace_items(
        binds,
        windows,
        window,
        workspaces,
        outputs.len() > 1,
    ) + output_items(binds, window.id, output_of(workspaces, window.workspace_id), outputs)
        + last_items(binds, window.id)
}

/// Copies the keys for the first bind that runs the given action, with the given argument if any.
fn keys_of(binds: &Binds, action: &str, arg: Option<&str>) -> (r: Option<String>)
    ensures
        text_of(r) == keys_for(
            binds.says(),
            action@,
            match arg {
                Some(arg) => seq![arg@],
                None => seq![],
            },
        ),
{
    let mut args: Vec<&str> = Vec::new();
    if let Some(arg) = arg {
        args.push(arg);
    }
    proof {
        assert(slice_texts(args@) =~= match arg {
            Some(arg) => seq![arg@],
            None => seq![],
        });
    }
    match binds.find(action, args.as_slice()) {
        Some(keys) => Some(keys.to_owned()),
        None => None,
    }
}

/// Makes a choice that runs a single action, with the shortcut for the bind of the given name.
fn plain(
    binds: &Binds,
    label: &str,
    action: Action<String>,
    bind: &str,
    arg: Option<&str>,
) -> (r: Choice)
    ensures
        r.says() == plain_choice(
            binds.says(),
            label@,
            action.says(),
            bind@,
            match arg {
                Some(arg) => seq![arg@],
                None => seq![],
            },
        ),
{
    let mut actions: Vec<Action<String>> = Vec::new();
    actions.push(action);
    proof {
        assert(actions_say(actions@) =~= seq![action.says()]);
    }
    Choice { label: label.to_owned(), keys: keys_of(binds, bind, arg), actions }
}

/// Finds the tiles on a workspace.
fn tiles_on(windows: &Vec<Listed>, workspace: Option<u64>) -> (r: Vec<(usize, usize, u64)>)
    ensures
        r@ == tiles(windows@, workspace),
{
    let mut r: Vec<(usize, usize, u64)> = Vec::new();
    let mut i: usize = 0;
    while i < windows.len()
        invariant
            i <= windows@.len(),
            r@ == tiles(windows@.take(i as int), workspace),
        decreases windows@.len() - i,
    {
        proof {
            assert(windows@.take(i + 1).drop_last() =~= windows@.take(i as int));
        }
        let window = &windows[i];
        let same: bool = match (window.workspace_id, workspace) {
            (Some(a), Some(b)) => a == b,
            (None, None) => true,
            _ => false,
        };
        if let Some((column, tile)) = window.position {
            if same {
                r.push((column, tile, window.id));
            }
        }
        i += 1;
    }
    proof {
        assert(windows@.take(i as int) =~= windows@);
    }
    r
}

/// Picks out the tiles in a column.
fn column_of(tiles: &Vec<(usize, usize, u64)>, column: usize) -> (r: Vec<(usize, u64)>)
    ensures
        r@ == stack_in(tiles@, column),
{
    let mut r: Vec<(usize, u64)> = Vec::new();
    let mut i: usize = 0;
    while i < tiles.len()
        invariant
            i <= tiles@.len(),
            r@ == stack_in(tiles@.take(i as int), column),
        decreases tiles@.len() - i,
    {
        proof {
            assert(tiles@.take(i + 1).drop_last() =~= tiles@.take(i as int));
        }
        let tile = tiles[i];
        if tile.0 == column {
            r.push((tile.1, tile.2));
        }
        i += 1;
    }
    proof {
        assert(tiles@.take(i as int) =~= tiles@);
    }
    r
}

/// Finds the window at the bottom of a stack.
fn bottom_of(stack: &Vec<(usize, u64)>) -> (r: u64)
    requires
        stack@.len() > 0,
    ensures
        r == bottom(stack@).1,
{
    let mut best: (usize, u64) = stack[0];
    let mut i: usize = 1;
    while i < stack.len()
        invariant
            1 <= i <= stack@.len(),
            best == bottom(stack@.take(i as int)),
        decreases stack@.len() - i,
    {
        proof {
            assert(stack@.take(i + 1).drop_last() =~= stack@.take(i as int));
        }
        let next = stack[i];
        if best.0 < next.0 || (best.0 == next.0 && best.1 <= next.1) {
            best = next;
        }
        i += 1;
    }
    proof {
        assert(stack@.take(i as int) =~= stack@);
    }
    best.1
}

/// Finds the first focused window.
fn focused_of(windows: &Vec<Listed>) -> (r: Option<u64>)
    ensures
        r == focused_window(windows@),
{
    let ghost stop = focused(windows@);
    let mut i: usize = 0;
    while i < windows.len()
        invariant
            i <= windows@.len(),
            stop == focused(windows@),
            first_from(windows@.len() as int, 0, stop) == first_from(
                windows@.len() as int,
                i as int,
                stop,
            ),
        decreases windows@.len() - i,
    {
        if windows[i].is_focused {
            return Some(windows[i].id);
        }
        i += 1;
    }
    None
}

/// Works out the actions that turn a stack.
fn cycle(stack: &Vec<(usize, u64)>, focus: Option<u64>) -> (r: Vec<Action<String>>)
    requires
        stack@.len() > 0,
    ensures
        actions_say(r@) == cycle_actions(stack@, focus),
{
    let mut r: Vec<Action<String>> = Vec::new();
    r.push(Action::FocusWindow { id: bottom_of(stack) });
    let steps: usize = stack.len() - 1;
    let ghost walk = seq![Action::<Seq<char>>::FocusWindow { id: bottom(stack@).1 }] + Seq::new(
        steps as nat,
        |i: int| Action::<Seq<char>>::MoveWindowUp,
    );
    let mut i: usize = 0;
    while i < steps
        invariant
            i <= steps,
            r@.len() == i + 1,
            r@[0].says() == (Action::<Seq<char>>::FocusWindow { id: bottom(stack@).1 }),
            forall|j: int| 1 <= j <= i ==> #[trigger] r@[j] == Action::<String>::MoveWindowUp,
        decreases steps - i,
    {
        r.push(Action::MoveWindowUp);
        i += 1;
    }
    proof {
        assert(actions_say(r@) =~= walk);
    }
    if let Some(id) = focus {
        let ghost before = r@;
        r.push(Action::FocusWindow { id });
        proof {
            assert(actions_say(r@) =~= walk.push(Action::FocusWindow { id }));
        }
    }
    r
}

/// Makes the items for what can be done to a window where it is.
fn make_window_items(binds: &Binds, window: &Listed) -> (r: Vec<Item>)
    ensures
        items_say(r@) == window_items(binds.says(), *window),
{
    let id: u64 = window.id;
    let mut r: Vec<Item> = Vec::new();
    let label: &str = if window.is_floating {
        "Tile window"
    } else {
        "Float window"
    };
    r.push(
        Item::Choice(
            plain(binds, label, Action::ToggleWindowFloating { id }, "toggle-window-floating", None),
        ),
    );
    r.push(
        Item::Choice(
            plain(binds, "Fullscreen", Action::FullscreenWindow { id }, "fullscreen-window", None),
        ),
    );
    if !window.is_floating {
        let mut actions: Vec<Action<String>> = Vec::new();
        actions.push(Action::FocusWindow { id });
        actions.push(Action::MaximizeColumn);
        proof {
            assert(actions_say(actions@) =~= seq![
                Action::FocusWindow { id },
                Action::MaximizeColumn,
            ]);
        }
        r.push(
            Item::Choice(
                Choice {
                    label: "Maximize column".to_owned(),
                    keys: keys_of(binds, "maximize-column", None),
                    actions,
                },
            ),
        );
    }
    proof {
        assert(items_say(r@) =~= window_items(binds.says(), *window));
    }
    r
}

/// Makes the items for taking a window into or out of a stack.
fn make_stack_items(binds: &Binds, windows: &Vec<Listed>, window: &Listed) -> (r: Vec<Item>)
    ensures
        items_say(r@) == stack_items(binds.says(), windows@, *window),
{
    let mut r: Vec<Item> = Vec::new();
    if let Some((column, _)) = window.position {
        let id: u64 = window.id;
        let tiles = tiles_on(windows, window.workspace_id);
        let stack = column_of(&tiles, column);
        if stack.len() > 1 {
            r.push(
                Item::Choice(
                    plain(
                        binds,
                        "Unstack window",
                        Action::ConsumeOrExpelWindowRight { id },
                        "consume-or-expel-window-right",
                        None,
                    ),
                ),
            );
            r.push(
                Item::Choice(
                    Choice {
                        label: "Cycle stack".to_owned(),
                        keys: None,
                        actions: cycle(&stack, focused_of(windows)),
                    },
                ),
            );
        } else {
            let mut left: bool = false;
            let mut right: bool = false;
            let mut i: usize = 0;
            while i < tiles.len()
                invariant
                    i <= tiles@.len(),
                    left == any_left(tiles@.take(i as int), column),
                    right == any_right(tiles@.take(i as int), column),
                decreases tiles@.len() - i,
            {
                proof {
                    assert(forall|j: int|
                        0 <= j < i ==> tiles@.take(i + 1)[j] == #[trigger] tiles@.take(i as int)[j]);
                    assert(tiles@.take(i + 1)[i as int] == tiles@[i as int]);
                    assert(forall|j: int|
                        0 <= j < i ==> #[trigger] tiles@.take(i + 1)[j] == tiles@.take(i as int)[j]);
                }
                if tiles[i].0 < column {
                    left = true;
                }
                if tiles[i].0 > column {
                    right = true;
                }
                i += 1;
            }
            proof {
                assert(tiles@.take(i as int) =~= tiles@);
            }
            if left {
                r.push(
                    Item::Choice(
                        plain(
                            binds,
                            "Stack into left column",
                            Action::ConsumeOrExpelWindowLeft { id },
                            "consume-or-expel-window-left",
                            None,
                        ),
                    ),
                );
            }
            if right {
                r.push(
                    Item::Choice(
                        plain(
                            binds,
                            "Stack into right column",
                            Action::ConsumeOrExpelWindowRight { id },
                            "consume-or-expel-window-right",
                            None,
                        ),
                    ),
                );
            }
        }
    }
    proof {
        assert(items_say(r@) =~= stack_items(binds.says(), windows@, *window));
    }
    r
}

/// Returns true if a window has a column to itself.
fn is_alone(windows: &Vec<Listed>, window: &Listed) -> (r: bool)
    ensures
        r == alone(windows@, *window),
{
    match window.position {
        Some((column, _)) => {
            let tiles = tiles_on(windows, window.workspace_id);
            column_of(&tiles, column).len() == 1
        },
        None => false,
    }
}

/// Returns true if two strings that may not be there are the same.
fn same_maybe(a: &Option<String>, b: &Option<String>) -> (r: bool)
    ensures
        r == (text_of(*a) == text_of(*b)),
{
    match (a, b) {
        (Some(a), Some(b)) => same_text(a.as_str(), b.as_str()),
        (None, None) => true,
        _ => false,
    }
}

/// Copies a string that may not be there.
fn copy_maybe(a: &Option<String>) -> (r: Option<String>)
    ensures
        text_of(r) == text_of(*a),
{
    match a {
        Some(a) => Some(a.clone()),
        None => None,
    }
}

/// Returns true if a workspace comes before another, or level with it.
fn workspace_before(a: &Workspace, b: &Workspace) -> (r: bool)
    ensures
        r == workspace_le(*a, *b),
{
    if same_maybe(&a.output, &b.output) {
        return a.idx <= b.idx;
    }
    match (&a.output, &b.output) {
        (None, _) => true,
        (Some(_), None) => false,
        (Some(x), Some(y)) => text_before(x.as_str(), y.as_str()),
    }
}

/// What the positions stand for.
spec fn at_workspace(workspaces: Seq<Workspace>) -> spec_fn(usize) -> Workspace {
    |i: usize| workspaces[i as int]
}

/// Finds where the workspaces to move a window to are, in order.
fn find_workspace_targets(workspaces: &Vec<Workspace>, current: Option<u64>) -> (r: Vec<usize>)
    ensures
        r@.map_values(at_workspace(workspaces@)) == workspace_targets(workspaces@, current),
        forall|i: int| 0 <= i < r@.len() ==> #[trigger] r@[i] < workspaces@.len(),
{
    let ghost f = at_workspace(workspaces@);
    let mut found: Vec<usize> = Vec::new();
    let mut i: usize = 0;
    proof {
        assert(found@.map_values(f) =~= other_workspaces(workspaces@.take(0), current));
    }
    while i < workspaces.len()
        invariant
            i <= workspaces@.len(),
            f == at_workspace(workspaces@),
            found@.map_values(f) == other_workspaces(workspaces@.take(i as int), current),
            forall|j: int| 0 <= j < found@.len() ==> #[trigger] found@[j] < workspaces@.len(),
        decreases workspaces@.len() - i,
    {
        proof {
            assert(workspaces@.take(i + 1).drop_last() =~= workspaces@.take(i as int));
            assert(found@.push(i).map_values(f) =~= found@.map_values(f).push(
                workspaces@[i as int],
            ));
        }
        let is_current: bool = match current {
            Some(id) => id == workspaces[i].id,
            None => false,
        };
        if !is_current {
            found.push(i);
        }
        i += 1;
    }
    proof {
        assert(workspaces@.take(i as int) =~= workspaces@);
    }
    let ghost rel = ordered_by(f, workspace_order());
    let before = |a: usize, b: usize| -> (c: bool)
        requires
            within(workspaces@.len(), a, b),
        ensures
            c == rel(a, b),
        { workspace_before(&workspaces[a], &workspaces[b]) };
    let r = stable_sort(&found, before, Ghost(rel));
    proof {
        lemma_sorted_map(found@, f, workspace_order());
        lemma_sorted_len(found@, rel);
        assert forall|k: int| 0 <= k < r@.len() implies #[trigger] r@[k] < workspaces@.len() by {
            lemma_sorted_from(found@, rel, k);
        }
    }
    r
}

/// Finds the output of the first focused workspace.
fn find_focused_output(workspaces: &Vec<Workspace>) -> (r: Option<String>)
    ensures
        text_of(r) == focused_output(workspaces@),
{
    let ghost stop = focused_at(workspaces@);
    let mut i: usize = 0;
    while i < workspaces.len()
        invariant
            i <= workspaces@.len(),
            stop == focused_at(workspaces@),
            first_from(workspaces@.len() as int, 0, stop) == first_from(
                workspaces@.len() as int,
                i as int,
                stop,
            ),
        decreases workspaces@.len() - i,
    {
        if workspaces[i].is_focused {
            return copy_maybe(&workspaces[i].output);
        }
        i += 1;
    }
    None
}

/// Copies the shortcut for moving a window to a workspace.
fn find_workspace_keys(binds: &Binds, alone: bool, reference: Option<&str>) -> (r: Option<String>)
    ensures
        text_of(r) == workspace_keys(
            binds.says(),
            alone,
            match reference {
                Some(name) => Some(name@),
                None => None,
            },
        ),
{
    if reference.is_none() {
        return None;
    }
    let keys = keys_of(binds, "move-window-to-workspace", reference);
    if keys.is_some() || !alone {
        return keys;
    }
    keys_of(binds, "move-column-to-workspace", reference)
}

/// Makes the choice that moves a window to a workspace.
fn make_workspace_choice(
    binds: &Binds,
    id: u64,
    alone: bool,
    several_outputs: bool,
    focused_output: &Option<String>,
    workspace: &Workspace,
) -> (r: Choice)
    ensures
        r.says() == workspace_choice(
            binds.says(),
            id,
            alone,
            several_outputs,
            text_of(*focused_output),
            *workspace,
        ),
{
    let idx: String = decimal_of(workspace.idx as u64);
    let mut label: String = label(workspace);
    if let Some(output) = &workspace.output {
        if several_outputs {
            label.append(" (");
            label.append(output.as_str());
            label.append(")");
        }
    }
    let reference: Option<&str> = match &workspace.name {
        Some(name) => Some(name.as_str()),
        None => if same_maybe(&workspace.output, focused_output) {
            Some(idx.as_str())
        } else {
            None
        },
    };
    let keys = find_workspace_keys(binds, alone, reference);
    let mut actions: Vec<Action<String>> = Vec::new();
    actions.push(Action::MoveWindowToWorkspace { id, workspace: workspace.id });
    proof {
        assert(actions_say(actions@) =~= seq![
            Action::MoveWindowToWorkspace { id, workspace: workspace.id },
        ]);
    }
    Choice { label, keys, actions }
}

/// Makes the submenu for moving a window to another workspace, if there are any.
fn make_workspace_items(
    binds: &Binds,
    windows: &Vec<Listed>,
    window: &Listed,
    workspaces: &Vec<Workspace>,
    several_outputs: bool,
) -> (r: Vec<Item>)
    ensures
        items_say(r@) == workspace_items(
            binds.says(),
            windows@,
            *window,
            workspaces@,
            several_outputs,
        ),
{
    let targets = find_workspace_targets(workspaces, window.workspace_id);
    let ghost expected = workspace_targets(workspaces@, window.workspace_id);
    let mut r: Vec<Item> = Vec::new();
    proof {
        assert(expected.len() == targets@.len());
    }
    if targets.len() > 0 {
        let by_itself: bool = is_alone(windows, window);
        let focused_output: Option<String> = find_focused_output(workspaces);
        let mut choices: Vec<Choice> = Vec::new();
        let mut i: usize = 0;
        while i < targets.len()
            invariant
                i <= targets@.len(),
                choices@.len() == i,
                expected.len() == targets@.len(),
                expected == targets@.map_values(at_workspace(workspaces@)),
                forall|j: int| 0 <= j < targets@.len() ==> #[trigger] targets@[j] < workspaces@.len(),
                forall|j: int|
                    0 <= j < i ==> (#[trigger] choices@[j]).says() == workspace_choice(
                        binds.says(),
                        window.id,
                        by_itself,
                        several_outputs,
                        text_of(focused_output),
                        expected[j],
                    ),
            decreases targets@.len() - i,
        {
            let at: usize = targets[i];
            choices.push(
                make_workspace_choice(
                    binds,
                    window.id,
                    by_itself,
                    several_outputs,
                    &focused_output,
                    &workspaces[at],
                ),
            );
            i += 1;
        }
        proof {
            assert(choices_say(choices@) =~= expected.map_values(
                |workspace: Workspace|
                    workspace_choice(
                        binds.says(),
                        window.id,
                        alone(windows@, *window),
                        several_outputs,
                        crate::menu::focused_output(workspaces@),
                        workspace,
                    ),
            ));
        }
        r.push(Item::Submenu { label: "Move to workspace".to_owned(), choices });
    }
    proof {
        assert(items_say(r@) =~= workspace_items(
            binds.says(),
            windows@,
            *window,
            workspaces@,
            several_outputs,
        ));
    }
    r
}

/// Finds the output that a workspace is on.
fn find_output_of(workspaces: &Vec<Workspace>, workspace: Option<u64>) -> (r: Option<String>)
    ensures
        text_of(r) == output_of(workspaces@, workspace),
{
    if let Some(id) = workspace {
        let ghost stop = numbered(workspaces@, id);
        let mut i: usize = 0;
        while i < workspaces.len()
            invariant
                i <= workspaces@.len(),
                stop == numbered(workspaces@, id),
                workspace == Some(id),
                first_from(workspaces@.len() as int, 0, stop) == first_from(
                    workspaces@.len() as int,
                    i as int,
                    stop,
                ),
            decreases workspaces@.len() - i,
        {
            if workspaces[i].id == id {
                return copy_maybe(&workspaces[i].output);
            }
            i += 1;
        }
    }
    None
}

/// What the positions stand for.
spec fn at_name(outputs: Seq<Output>) -> spec_fn(usize) -> Seq<char> {
    |i: usize| outputs[i as int].name@
}

/// Finds where the outputs to move a window to are, in order.
fn find_output_targets(outputs: &Vec<Output>, current: &Option<String>) -> (r: Vec<usize>)
    ensures
        r@.map_values(at_name(outputs@)) == output_targets(outputs@, text_of(*current)),
        forall|i: int| 0 <= i < r@.len() ==> #[trigger] r@[i] < outputs@.len(),
{
    let ghost f = at_name(outputs@);
    let mut found: Vec<usize> = Vec::new();
    let mut i: usize = 0;
    proof {
        assert(found@.map_values(f) =~= other_outputs(outputs@.take(0), text_of(*current)));
    }
    while i < outputs.len()
        invariant
            i <= outputs@.len(),
            f == at_name(outputs@),
            found@.map_values(f) == other_outputs(outputs@.take(i as int), text_of(*current)),
            forall|j: int| 0 <= j < found@.len() ==> #[trigger] found@[j] < outputs@.len(),
        decreases outputs@.len() - i,
    {
        proof {
            assert(outputs@.take(i + 1).drop_last() =~= outputs@.take(i as int));
            assert(found@.push(i).map_values(f) =~= found@.map_values(f).push(
                outputs@[i as int].name@,
            ));
        }
        let is_current: bool = match current {
            Some(name) => same_text(name.as_str(), outputs[i].name.as_str()),
            None => false,
        };
        if !is_current {
            found.push(i);
        }
        i += 1;
    }
    proof {
        assert(outputs@.take(i as int) =~= outputs@);
    }
    let ghost rel = ordered_by(f, text_order());
    let before = |a: usize, b: usize| -> (c: bool)
        requires
            within(outputs@.len(), a, b),
        ensures
            c == rel(a, b),
        { text_before(outputs[a].name.as_str(), outputs[b].name.as_str()) };
    let r = stable_sort(&found, before, Ghost(rel));
    proof {
        lemma_sorted_map(found@, f, text_order());
        lemma_sorted_len(found@, rel);
        assert forall|k: int| 0 <= k < r@.len() implies #[trigger] r@[k] < outputs@.len() by {
            lemma_sorted_from(found@, rel, k);
        }
    }
    r
}

/// Names an output by its make and model where Niri knows them, with the connector alongside,
/// since the connector alone doesn't say much about which screen is which.
pub fn describe_output(outputs: &Vec<Output>, name: &str) -> (r: String)
    ensures
        r@ == output_label(outputs@, name@),
{
    let ghost stop = named(outputs@, name@);
    let mut i: usize = 0;
    while i < outputs.len()
        invariant
            i <= outputs@.len(),
            stop == named(outputs@, name@),
            first_from(outputs@.len() as int, 0, stop) == first_from(
                outputs@.len() as int,
                i as int,
                stop,
            ),
        decreases outputs@.len() - i,
    {
        if same_text(outputs[i].name.as_str(), name) {
            let mut label: String = outputs[i].make.clone();
            label.append(" ");
            label.append(outputs[i].model.as_str());
            label.append(" (");
            label.append(name);
            label.append(")");
            return label;
        }
        i += 1;
    }
    name.to_owned()
}

/// Makes the submenu for moving a window to another output, if there are any.
fn make_output_items(
    binds: &Binds,
    id: u64,
    current: &Option<String>,
    outputs: &Vec<Output>,
) -> (r: Vec<Item>)
    ensures
        items_say(r@) == output_items(binds.says(), id, text_of(*current), outputs@),
{
    let targets = find_output_targets(outputs, current);
    let ghost expected = output_targets(outputs@, text_of(*current));
    let mut r: Vec<Item> = Vec::new();
    proof {
        assert(expected.len() == targets@.len());
    }
    if targets.len() > 0 {
        let mut choices: Vec<Choice> = Vec::new();
        let mut i: usize = 0;
        while i < targets.len()
            invariant
                i <= targets@.len(),
                choices@.len() == i,
                expected.len() == targets@.len(),
                expected == targets@.map_values(at_name(outputs@)),
                forall|j: int| 0 <= j < targets@.len() ==> #[trigger] targets@[j] < outputs@.len(),
                forall|j: int|
                    0 <= j < i ==> (#[trigger] choices@[j]).says() == output_choice(
                        binds.says(),
                        id,
                        outputs@,
                        expected[j],
                    ),
            decreases targets@.len() - i,
        {
            let output = &outputs[targets[i]];
            let label: String = describe_output(outputs, output.name.as_str());
            choices.push(
                plain(
                    binds,
                    label.as_str(),
                    Action::MoveWindowToMonitor { id, output: output.name.clone() },
                    "move-window-to-monitor",
                    Some(output.name.as_str()),
                ),
            );
            i += 1;
        }
        proof {
            assert(choices_say(choices@) =~= expected.map_values(
                |name: Seq<char>| output_choice(binds.says(), id, outputs@, name),
            ));
        }
        r.push(Item::Submenu { label: "Move to monitor".to_owned(), choices });
    }
    proof {
        assert(items_say(r@) =~= output_items(binds.says(), id, text_of(*current), outputs@));
    }
    r
}

/// Makes the items that every menu ends in.
fn make_last_items(binds: &Binds, id: u64) -> (r: Vec<Item>)
    ensures
        items_say(r@) == last_items(binds.says(), id),
{
    let mut r: Vec<Item> = Vec::new();
    r.push(Item::Separator);
    r.push(
        Item::Choice(
            plain(binds, "Close window", Action::CloseWindow { id }, "close-window", None),
        ),
    );
    proof {
        assert(items_say(r@) =~= last_items(binds.says(), id));
    }
    r
}

/// Adds items to the end of a menu.
fn add_items(menu: &mut Vec<Item>, items: Vec<Item>)
    ensures
        items_say(final(menu)@) == items_say(old(menu)@) + items_say(items@),
{
    let mut items = items;
    let ghost before = menu@;
    let ghost added = items@;
    menu.append(&mut items);
    proof {
        assert(items_say(menu@) =~= items_say(before) + items_say(added));
    }
}

/// Builds the menu for the given window, or nothing if it's not there any more.
pub fn popup(
    window_id: u64,
    windows: &Vec<Listed>,
    workspaces: &Vec<Workspace>,
    outputs: &Vec<Output>,
    binds: &Binds,
) -> (r: Option<Vec<Item>>)
    ensures
        ({
            let i = first_from(windows@.len() as int, 0, listed(windows@, window_id));
            if i < windows@.len() {
                r is Some && items_say(r->0@) == menu_for(
                    binds.says(),
                    windows@,
                    windows@[i],
                    workspaces@,
                    outputs@,
                )
            } else {
                r is None
            }
        }),
{
    let ghost stop = listed(windows@, window_id);
    let mut i: usize = 0;
    while i < windows.len()
        invariant
            i <= windows@.len(),
            stop == listed(windows@, window_id),
            first_from(windows@.len() as int, 0, stop) == first_from(
                windows@.len() as int,
                i as int,
                stop,
            ),
        decreases windows@.len() - i,
    {
        if windows[i].id == window_id {
            let window = &windows[i];
            let mut menu = make_window_items(binds, window);
            add_items(&mut menu, make_stack_items(binds, windows, window));
            add_items(
                &mut menu,
                make_workspace_items(binds, windows, window, workspaces, outputs.len() > 1),
            );
            let current = find_output_of(workspaces, window.workspace_id);
            add_items(&mut menu, make_output_items(binds, window_id, &current, outputs));
            add_items(&mut menu, make_last_items(binds, window_id));
            return Some(menu);
        }
        i += 1;
    }
    None
}

/// The modifiers of a shortcut.
#[derive(Debug, Clone, Copy, PartialEq, Eq, Structural)]
pub struct Modifiers {
    pub logo: bool,
    pub control: bool,
    pub shift: bool,
    pub alt: bool,
    pub level3: bool,
}

/// A shortcut, by the names its key may be known by.
#[derive(Debug)]
pub struct Accelerator {
    /// The key as the binding has it.
    pub key: String,
    /// The same in lower case. Niri matches key names without caring about case, but xkb's names
    /// mostly don't: it's "bracketleft", not "BracketLeft".
    pub lower: String,
    pub mods: Modifiers,
}

/// Modifiers with another one added, unless it's not one that's known.
pub open spec fn with_modifier(mods: Modifiers, part: Seq<char>) -> Option<Modifiers> {
    let name = lower_ascii_text(part);
    // Mod is Super, except when Niri is running nested in another session, which a bar isn't
    // going to be.
    if name == "mod"@ || name == "super"@ || name == "win"@ {
        Some(Modifiers { logo: true, ..mods })
    } else if name == "ctrl"@ || name == "control"@ {
        Some(Modifiers { control: true, ..mods })
    } else if name == "shift"@ {
        Some(Modifiers { shift: true, ..mods })
    } else if name == "alt"@ {
        Some(Modifiers { alt: true, ..mods })
    } else if name == "iso_level3_shift"@ || name == "mod5"@ {
        Some(Modifiers { level3: true, ..mods })
    } else {
        None
    }
}

/// No modifiers at all.
pub open spec fn no_modifiers() -> Modifiers {
    Modifiers { logo: false, control: false, shift: false, alt: false, level3: false }
}

/// All of the named modifiers, unless one of them isn't known.
pub open spec fn modifiers(parts: Seq<Seq<char>>) -> Option<Modifiers>
    decreases parts.len(),
{
    if parts.len() == 0 {
        Some(no_modifiers())
    } else {
        match modifiers(parts.drop_last()) {
            Some(mods) => with_modifier(mods, parts.last()),
            None => None,
        }
    }
}

/// Adds a modifier, unless it's not one that's known.
fn add_modifier(mods: Modifiers, part: &str) -> (r: Option<Modifiers>)
    ensures
        r == with_modifier(mods, part@),
{
    let name = lower_ascii_of(part);
    let name: &str = name.as_str();
    let mut mods: Modifiers = mods;
    if same_text(name, "mod") || same_text(name, "super") || same_text(name, "win") {
        mods.logo = true;
    } else if same_text(name, "ctrl") || same_text(name, "control") {
        mods.control = true;
    } else if same_text(name, "shift") {
        mods.shift = true;
    } else if same_text(name, "alt") {
        mods.alt = true;
    } else if same_text(name, "iso_level3_shift") || same_text(name, "mod5") {
        mods.level3 = true;
    } else {
        return None;
    }
    Some(mods)
}

/// Takes a Niri key combination, like `Mod+Shift+F`, apart. Combinations with anything but
/// modifiers ahead of the key are left alone.
pub fn accelerator(keys: &str) -> (r: Option<Accelerator>)
    ensures
        ({
            let parts = pieces(keys@, '+');
            match modifiers(parts.drop_last()) {
                Some(mods) => r is Some && r->0.mods == mods && r->0.key@ == parts.last()
                    && r->0.lower@ == lower_ascii_text(parts.last()),
                None => r is None,
            }
        }),
{
    let parts = split_at_char(keys, '+');
    let ghost all = pieces(keys@, '+');
    let last: usize = parts.len() - 1;
    let mut mods: Modifiers = Modifiers {
        logo: false,
        control: false,
        shift: false,
        alt: false,
        level3: false,
    };
    let mut i: usize = 0;
    proof {
        assert(all.len() == parts@.len());
    }
    while i < last
        invariant
            i <= last,
            last == parts@.len() - 1,
            all == texts(parts@),
            all.len() == parts@.len(),
            modifiers(all.take(i as int)) == Some(mods),
            all == pieces(keys@, '+'),
        decreases last - i,
    {
        proof {
            assert(all.take(i + 1).drop_last() =~= all.take(i as int));
            assert(all.take(i + 1).last() == parts@[i as int]@);
        }
        match add_modifier(mods, parts[i].as_str()) {
            Some(more) => {
                mods = more;
            },
            None => {
                proof {
                    lemma_unknown_modifier(all.drop_last(), i + 1);
                    assert(all.drop_last().take(i + 1) =~= all.take(i + 1));
                }
                return None;
            },
        }
        i += 1;
    }
    proof {
        assert(all.take(last as int) =~= all.drop_last());
        assert(all.last() == parts@[last as int]@);
    }
    let key: String = parts[last].clone();
    let lower: String = lower_ascii_of(key.as_str());
    Some(Accelerator { key, lower, mods })
}

/// One modifier that isn't known spoils the rest.
proof fn lemma_unknown_modifier(parts: Seq<Seq<char>>, n: int)
    requires
        0 <= n <= parts.len(),
        modifiers(parts.take(n)) is None,
    ensures
        modifiers(parts) is None,
    decreases parts.len() - n,
{
    if n == parts.len() {
        assert(parts.take(n) =~= parts);
    } else {
        assert(parts.take(n + 1).drop_last() =~= parts.take(n));
        lemma_unknown_modifier(parts, n + 1);
    }
}

/// Whether a name stood for a key at all, rather than the void symbol or nothing.
pub open spec fn is_key(keyval: u32) -> bool {
    keyval != 0xff_ffff && keyval != 0
}

/// The first of the values that a key's names stand for that is a key.
pub open spec fn picked(key: u32, lower: u32) -> Option<u32> {
    if is_key(key) {
        Some(key)
    } else if is_key(lower) {
        Some(lower)
    } else {
        None
    }
}

/// Picks the first of the values that a key's names stand for that is a key.
pub fn pick_keyval(key: u32, lower: u32) -> (r: Option<u32>)
    ensures
        r == if is_key(key) {
            Some(key)
        } else if is_key(lower) {
            Some(lower)
        } else {
            None
        },
        r == picked(key, lower),
{
    if key != 0xff_ffff && key != 0 {
        Some(key)
    } else if lower != 0xff_ffff && lower != 0 {
        Some(lower)
    } else {
        None
    }
}

/// Every workspace but the current one is offered, as often as Niri lists it.
pub proof fn law_every_other_workspace_is_offered(workspaces: Seq<Workspace>, current: Option<u64>)
    ensures
        workspace_targets(workspaces, current).to_multiset() == workspaces.filter(
            |w: Workspace| Some(w.id) != current,
        ).to_multiset(),
{
    law_sorted_rearranges(other_workspaces(workspaces, current), workspace_order());
    lemma_other_workspaces(workspaces, current);
}

proof fn lemma_other_workspaces(workspaces: Seq<Workspace>, current: Option<u64>)
    ensures
        other_workspaces(workspaces, current) == workspaces.filter(
            |w: Workspace| Some(w.id) != current,
        ),
    decreases workspaces.len(),
{
    reveal(Seq::filter);
    if workspaces.len() > 0 {
        lemma_other_workspaces(workspaces.drop_last(), current);
    }
}

/// Workspaces are offered by output, and in order of index on each.
pub proof fn law_workspaces_are_in_order(workspaces: Seq<Workspace>, current: Option<u64>)
    ensures
        in_order(workspace_targets(workspaces, current), workspace_order()),
{
    let le = workspace_order();
    assert forall|a: Workspace, b: Workspace| #[trigger] le(a, b) || le(b, a) by {
        if let (Some(x), Some(y)) = (text_of(a.output), text_of(b.output)) {
            lemma_text_le_total(x, y);
        }
    }
    assert forall|a: Workspace, b: Workspace, c: Workspace| #[trigger]
        le(a, b) && #[trigger] le(b, c) implies le(a, c) by {
        if let (Some(x), Some(y)) = (text_of(a.output), text_of(b.output)) {
            lemma_text_le_total(x, y);
            if let Some(z) = text_of(c.output) {
                lemma_text_le_total(y, z);
                lemma_text_le_total(x, z);
                if text_le(x, y) && text_le(y, z) {
                    lemma_text_le_transitive(x, y, z);
                }
            }
        }
    }
    law_sorted_in_order(other_workspaces(workspaces, current), le);
}

/// Every output but the current one is offered.
pub proof fn law_every_other_output_is_offered(outputs: Seq<Output>, current: Option<Seq<char>>)
    ensures
        output_targets(outputs, current).to_multiset() == outputs.map_values(
            |o: Output| o.name@,
        ).filter(|name: Seq<char>| Some(name) != current).to_multiset(),
{
    law_sorted_rearranges(other_outputs(outputs, current), text_order());
    lemma_other_outputs(outputs, current);
}

proof fn lemma_other_outputs(outputs: Seq<Output>, current: Option<Seq<char>>)
    ensures
        other_outputs(outputs, current) == outputs.map_values(|o: Output| o.name@).filter(
            |name: Seq<char>| Some(name) != current,
        ),
    decreases outputs.len(),
{
    reveal(Seq::filter);
    if outputs.len() > 0 {
        lemma_other_outputs(outputs.drop_last(), current);
        assert(outputs.map_values(|o: Output| o.name@).drop_last() =~= outputs.drop_last().map_values(
            |o: Output| o.name@,
        ));
    }
}

/// Outputs are offered in the order of their names.
pub proof fn law_outputs_are_in_order(outputs: Seq<Output>, current: Option<Seq<char>>)
    ensures
        in_order(output_targets(outputs, current), text_order()),
{
    let le = text_order();
    assert forall|a: Seq<char>, b: Seq<char>| #[trigger] le(a, b) || le(b, a) by {
        lemma_text_le_total(a, b);
    }
    assert forall|a: Seq<char>, b: Seq<char>, c: Seq<char>| #[trigger]
        le(a, b) && #[trigger] le(b, c) implies le(a, c) by {
        lemma_text_le_transitive(a, b, c);
    }
    law_sorted_in_order(other_outputs(outputs, current), le);
}

/// Every menu starts with floating the window and ends with closing it.
pub proof fn law_menu_ends(
    binds: Seq<BindView>,
    windows: Seq<Listed>,
    window: Listed,
    workspaces: Seq<Workspace>,
    outputs: Seq<Output>,
)
    ensures
        ({
            let menu = menu_for(binds, windows, window, workspaces, outputs);
            &&& menu.len() >= 4
            &&& menu[0] == window_items(binds, window)[0]
            &&& menu[menu.len() - 2] == ItemView::Separator
            &&& menu.last() == last_items(binds, window.id)[1]
        }),
{
}

proof fn lemma_in_own_stack(windows: Seq<Listed>, i: int, column: usize, tile: usize)
    requires
        0 <= i < windows.len(),
        windows[i].position == Some((column, tile)),
    ensures
        stack_in(tiles(windows, windows[i].workspace_id), column).len() >= 1,
    decreases windows.len(),
{
    let all = tiles(windows, windows[i].workspace_id);
    if i == windows.len() - 1 {
        assert(all.last() == (column, tile, windows[i].id));
        assert(stack_in(all, column).len() >= 1);
    } else {
        assert(windows.drop_last()[i] == windows[i]);
        lemma_in_own_stack(windows.drop_last(), i, column, tile);
        let fewer = tiles(windows.drop_last(), windows[i].workspace_id);
        if all != fewer {
            assert(all.drop_last() =~= fewer);
        }
    }
}

/// A tiled window that Niri lists is either alone in its column or stacked, and the menu offers to
/// unstack it only in the latter case.
pub proof fn law_unstack_is_for_stacks(binds: Seq<BindView>, windows: Seq<Listed>, i: int)
    requires
        0 <= i < windows.len(),
        windows[i].position is Some,
    ensures
        ({
            let items = stack_items(binds, windows, windows[i]);
            if alone(windows, windows[i]) {
                forall|k: int|
                    0 <= k < items.len() ==> (#[trigger] items[k])->Choice_0.label != "Unstack window"@
            } else {
                items.len() == 2 && items[0]->Choice_0.label == "Unstack window"@
            }
        }),
{
    let (column, tile) = windows[i].position->0;
    lemma_in_own_stack(windows, i, column, tile);
    reveal_strlit("Unstack window");
    reveal_strlit("Stack into left column");
    reveal_strlit("Stack into right column");
    assert("Unstack window"@.len() == 14);
    assert("Stack into left column"@.len() == 22);
    assert("Stack into right column"@.len() == 23);
}

/// The labels of a menu's choices all differ.
proof fn lemma_labels()
    ensures
        "Tile window"@.len() == 11,
        "Tile window"@[0] == 'T',
        "Float window"@.len() == 12,
        "Float window"@[0] == 'F',
        "Fullscreen"@.len() == 10,
        "Maximize column"@.len() == 15,
        "Unstack window"@.len() == 14,
        "Cycle stack"@.len() == 11,
        "Cycle stack"@[0] == 'C',
        "Stack into left column"@.len() == 22,
        "Stack into right column"@.len() == 23,
        "Close window"@.len() == 12,
        "Close window"@[0] == 'C',
        "Move to workspace"@.len() == 17,
        "Move to monitor"@.len() == 15,
{
    reveal_strlit("Tile window");
    reveal_strlit("Float window");
    reveal_strlit("Fullscreen");
    reveal_strlit("Maximize column");
    reveal_strlit("Unstack window");
    reveal_strlit("Cycle stack");
    reveal_strlit("Stack into left column");
    reveal_strlit("Stack into right column");
    reveal_strlit("Close window");
    reveal_strlit("Move to workspace");
    reveal_strlit("Move to monitor");
}

/// Whether a menu has a choice with the given label.
pub open spec fn offers(menu: Seq<ItemView>, label: Seq<char>) -> bool {
    exists|k: int| 0 <= k < menu.len() && is_choice(#[trigger] menu[k], label)
}

/// Whether two windows are tiled in the same column of the same workspace.
pub open spec fn share_column(a: Listed, b: Listed) -> bool {
    match (a.position, b.position) {
        (Some(p), Some(q)) => a.workspace_id == b.workspace_id && p.0 == q.0,
        _ => false,
    }
}

/// Whether a window shares its column with another.
pub open spec fn has_company(windows: Seq<Listed>, i: int) -> bool {
    exists|j: int|
        0 <= j < windows.len() && j != i && share_column(windows[i], #[trigger] windows[j])
}

/// Whether there's a column to the left of a window's, on its workspace.
pub open spec fn has_left(windows: Seq<Listed>, window: Listed) -> bool {
    exists|j: int|
        0 <= j < windows.len() && (#[trigger] windows[j]).workspace_id == window.workspace_id && (
        windows[j].position matches Some(p) && window.position matches Some(q) && p.0 < q.0)
}

/// Whether there's a column to the right of a window's, on its workspace.
pub open spec fn has_right(windows: Seq<Listed>, window: Listed) -> bool {
    exists|j: int|
        0 <= j < windows.len() && (#[trigger] windows[j]).workspace_id == window.workspace_id && (
        windows[j].position matches Some(p) && window.position matches Some(q) && p.0 > q.0)
}

/// Which windows are tiled in a column of a workspace.
pub open spec fn tiled_in(workspace: Option<u64>, column: usize) -> spec_fn(Listed) -> bool {
    |w: Listed| w.workspace_id == workspace && (w.position matches Some(p) && p.0 == column)
}

proof fn lemma_tiles(windows: Seq<Listed>, workspace: Option<u64>)
    ensures
        forall|t: (usize, usize, u64)| #[trigger]
            tiles(windows, workspace).contains(t) <==> exists|j: int|
                0 <= j < windows.len() && (#[trigger] windows[j]).workspace_id == workspace
                    && windows[j].position == Some((t.0, t.1)) && windows[j].id == t.2,
    decreases windows.len(),
{
    let all = tiles(windows, workspace);
    if windows.len() > 0 {
        let fewer = windows.drop_last();
        let last = windows.last();
        let rest = tiles(fewer, workspace);
        lemma_tiles(fewer, workspace);
        assert forall|t: (usize, usize, u64)| #[trigger] all.contains(t) <==> exists|j: int|
            0 <= j < windows.len() && (#[trigger] windows[j]).workspace_id == workspace
                && windows[j].position == Some((t.0, t.1)) && windows[j].id == t.2 by {
            if let Some(p) = last.position {
                lemma_push_contains(rest, (p.0, p.1, last.id));
            }
            if rest.contains(t) {
                let j = choose|j: int|
                    0 <= j < fewer.len() && (#[trigger] fewer[j]).workspace_id == workspace
                        && fewer[j].position == Some((t.0, t.1)) && fewer[j].id == t.2;
                assert(windows[j] == fewer[j]);
            }
            if all.contains(t) && !rest.contains(t) {
                assert(windows[windows.len() - 1] == last);
            }
            if exists|j: int|
                0 <= j < windows.len() && (#[trigger] windows[j]).workspace_id == workspace
                    && windows[j].position == Some((t.0, t.1)) && windows[j].id == t.2 {
                let j = choose|j: int|
                    0 <= j < windows.len() && (#[trigger] windows[j]).workspace_id == workspace
                        && windows[j].position == Some((t.0, t.1)) && windows[j].id == t.2;
                if j < fewer.len() {
                    assert(fewer[j] == windows[j]);
                }
            }
        }
    }
}

proof fn lemma_stack_is(windows: Seq<Listed>, workspace: Option<u64>, column: usize)
    ensures
        ({
            let stack = stack_in(tiles(windows, workspace), column);
            let there = windows.filter(tiled_in(workspace, column));
            &&& stack.len() == there.len()
            &&& forall|k: int|
                0 <= k < stack.len() ==> (#[trigger] there[k]).position == Some((column, stack[k].0))
                    && there[k].id == stack[k].1
        }),
    decreases windows.len(),
{
    reveal(Seq::filter);
    if windows.len() > 0 {
        lemma_stack_is(windows.drop_last(), workspace, column);
        let fewer = tiles(windows.drop_last(), workspace);
        let all = tiles(windows, workspace);
        if all != fewer {
            assert(all.drop_last() =~= fewer);
        }
    }
}

/// A window that's listed has company just if more than one is tiled in its column.
proof fn lemma_company(windows: Seq<Listed>, i: int)
    requires
        0 <= i < windows.len(),
        windows[i].position is Some,
    ensures
        ({
            let column = match windows[i].position {
                Some(p) => p.0,
                None => 0,
            };
            let there = windows.filter(tiled_in(windows[i].workspace_id, column));
            &&& there.len() >= 1
            &&& has_company(windows, i) <==> there.len() > 1
        }),
    decreases windows.len(),
{
    reveal(Seq::filter);
    let column = match windows[i].position {
        Some(p) => p.0,
        None => 0,
    };
    let test = tiled_in(windows[i].workspace_id, column);
    let there = windows.filter(test);
    let fewer = windows.drop_last();
    let rest = fewer.filter(test);
    if i == windows.len() - 1 {
        lemma_none_there(fewer, test);
        assert(there == rest.push(windows[i]));
        if rest.len() > 0 {
            let j = choose|j: int| 0 <= j < fewer.len() && test(#[trigger] fewer[j]);
            assert(share_column(windows[i], windows[j]));
        }
        if has_company(windows, i) {
            let j = choose|j: int|
                0 <= j < windows.len() && j != i && share_column(windows[i], #[trigger] windows[j]);
            assert(test(fewer[j]));
        }
    } else {
        assert(fewer[i] == windows[i]);
        lemma_company(fewer, i);
        let last = windows.len() - 1;
        if has_company(fewer, i) {
            let j = choose|j: int|
                0 <= j < fewer.len() && j != i && share_column(fewer[i], #[trigger] fewer[j]);
            assert(share_column(windows[i], windows[j]));
        }
        if test(windows[last]) {
            assert(share_column(windows[i], windows[last]));
        }
        if has_company(windows, i) {
            let j = choose|j: int|
                0 <= j < windows.len() && j != i && share_column(windows[i], #[trigger] windows[j]);
            if j < last {
                assert(share_column(fewer[i], fewer[j]));
            }
        }
    }
}

proof fn lemma_none_there(windows: Seq<Listed>, test: spec_fn(Listed) -> bool)
    ensures
        windows.filter(test).len() > 0 <==> exists|j: int|
            0 <= j < windows.len() && test(#[trigger] windows[j]),
    decreases windows.len(),
{
    reveal(Seq::filter);
    if windows.len() > 0 {
        let fewer = windows.drop_last();
        lemma_none_there(fewer, test);
        if fewer.filter(test).len() > 0 {
            let j = choose|j: int| 0 <= j < fewer.len() && test(#[trigger] fewer[j]);
            assert(test(windows[j]));
        }
        if exists|j: int| 0 <= j < windows.len() && test(#[trigger] windows[j]) {
            let j = choose|j: int| 0 <= j < windows.len() && test(#[trigger] windows[j]);
            if j < fewer.len() {
                assert(test(fewer[j]));
            } else {
                assert(test(windows.last()));
            }
        }
        if test(windows.last()) {
            assert(test(windows[windows.len() - 1]));
        }
    }
}

proof fn lemma_sides(windows: Seq<Listed>, window: Listed, column: usize, tile: usize)
    requires
        window.position == Some((column, tile)),
    ensures
        any_left(tiles(windows, window.workspace_id), column) == has_left(windows, window),
        any_right(tiles(windows, window.workspace_id), column) == has_right(windows, window),
{
    let all = tiles(windows, window.workspace_id);
    lemma_tiles(windows, window.workspace_id);
    if any_left(all, column) {
        let i = choose|i: int| 0 <= i < all.len() && (#[trigger] all[i]).0 < column;
        assert(all.contains(all[i]));
    }
    if any_right(all, column) {
        let i = choose|i: int| 0 <= i < all.len() && (#[trigger] all[i]).0 > column;
        assert(all.contains(all[i]));
    }
    if has_left(windows, window) {
        let j = choose|j: int|
            0 <= j < windows.len() && (#[trigger] windows[j]).workspace_id == window.workspace_id && (
            windows[j].position matches Some(p) && window.position matches Some(q) && p.0 < q.0);
        if let Some(p) = windows[j].position {
            let t = (p.0, p.1, windows[j].id);
            assert(all.contains(t));
            let i = choose|i: int| 0 <= i < all.len() && all[i] == t;
            assert(all[i].0 < column);
        }
    }
    if has_right(windows, window) {
        let j = choose|j: int|
            0 <= j < windows.len() && (#[trigger] windows[j]).workspace_id == window.workspace_id && (
            windows[j].position matches Some(p) && window.position matches Some(q) && p.0 > q.0);
        if let Some(p) = windows[j].position {
            let t = (p.0, p.1, windows[j].id);
            assert(all.contains(t));
            let i = choose|i: int| 0 <= i < all.len() && all[i] == t;
            assert(all[i].0 > column);
        }
    }
}

/// Where each item of a menu comes from.
proof fn lemma_menu_at(
    binds: Seq<BindView>,
    windows: Seq<Listed>,
    window: Listed,
    workspaces: Seq<Workspace>,
    outputs: Seq<Output>,
)
    ensures
        ({
            let menu = menu_for(binds, windows, window, workspaces, outputs);
            let a = window_items(binds, window);
            let b = stack_items(binds, windows, window);
            let c = workspace_items(binds, windows, window, workspaces, outputs.len() > 1);
            let d = output_items(
                binds,
                window.id,
                output_of(workspaces, window.workspace_id),
                outputs,
            );
            let e = last_items(binds, window.id);
            &&& menu.len() == a.len() + b.len() + c.len() + d.len() + e.len()
            &&& forall|k: int| 0 <= k < a.len() ==> #[trigger] menu[k] == a[k]
            &&& forall|k: int|
                0 <= k < b.len() ==> menu[a.len() + k] == #[trigger] b[k]
            &&& forall|k: int|
                0 <= k < c.len() ==> menu[a.len() + b.len() + k] == #[trigger] c[k]
            &&& forall|k: int|
                0 <= k < d.len() ==> menu[a.len() + b.len() + c.len() + k] == #[trigger] d[k]
            &&& forall|k: int|
                0 <= k < e.len() ==> menu[a.len() + b.len() + c.len() + d.len() + k]
                    == #[trigger] e[k]
            &&& forall|k: int|
                0 <= k < menu.len() ==> #[trigger] menu[k] == if k < a.len() {
                    a[k]
                } else if k < a.len() + b.len() {
                    b[k - a.len()]
                } else if k < a.len() + b.len() + c.len() {
                    c[k - a.len() - b.len()]
                } else if k < a.len() + b.len() + c.len() + d.len() {
                    d[k - a.len() - b.len() - c.len()]
                } else {
                    e[k - a.len() - b.len() - c.len() - d.len()]
                }
        }),
{
}

/// Whether a choice runs the given actions and shows the shortcut for the bind of the given name.
pub open spec fn does(
    choice: ChoiceView,
    actions: Seq<Action<Seq<char>>>,
    binds: Seq<BindView>,
    bind: Seq<char>,
) -> bool {
    choice.actions == actions && choice.keys == keys_for(binds, bind, Seq::empty())
}

/// Whether a choice in a window's menu does to the window what its label says, and shows the shortcut
/// for that.
pub open spec fn does_as_labelled(binds: Seq<BindView>, id: u64, choice: ChoiceView) -> bool {
    &&& choice.label == "Tile window"@ || choice.label == "Float window"@ ==> does(
        choice,
        seq![Action::ToggleWindowFloating { id }],
        binds,
        "toggle-window-floating"@,
    )
    &&& choice.label == "Fullscreen"@ ==> does(
        choice,
        seq![Action::FullscreenWindow { id }],
        binds,
        "fullscreen-window"@,
    )
    &&& choice.label == "Maximize column"@ ==> does(
        choice,
        seq![Action::FocusWindow { id }, Action::MaximizeColumn],
        binds,
        "maximize-column"@,
    )
    &&& choice.label == "Unstack window"@ ==> does(
        choice,
        seq![Action::ConsumeOrExpelWindowRight { id }],
        binds,
        "consume-or-expel-window-right"@,
    )
    &&& choice.label == "Stack into left column"@ ==> does(
        choice,
        seq![Action::ConsumeOrExpelWindowLeft { id }],
        binds,
        "consume-or-expel-window-left"@,
    )
    &&& choice.label == "Stack into right column"@ ==> does(
        choice,
        seq![Action::ConsumeOrExpelWindowRight { id }],
        binds,
        "consume-or-expel-window-right"@,
    )
    &&& choice.label == "Close window"@ ==> does(
        choice,
        seq![Action::CloseWindow { id }],
        binds,
        "close-window"@,
    )
}

/// Whether every choice among some items does what its label says.
spec fn all_as_labelled(binds: Seq<BindView>, id: u64, items: Seq<ItemView>) -> bool {
    forall|k: int|
        0 <= k < items.len() ==> (#[trigger] items[k] matches ItemView::Choice(c) ==> does_as_labelled(
            binds,
            id,
            c,
        ))
}

proof fn lemma_labelled_add(binds: Seq<BindView>, id: u64, a: Seq<ItemView>, b: Seq<ItemView>)
    requires
        all_as_labelled(binds, id, a),
        all_as_labelled(binds, id, b),
    ensures
        all_as_labelled(binds, id, a + b),
{
    let all = a + b;
    assert forall|k: int| 0 <= k < all.len() implies (#[trigger] all[k] matches ItemView::Choice(c)
        ==> does_as_labelled(binds, id, c)) by {
        if k < a.len() {
            assert(all[k] == a[k]);
        } else {
            assert(all[k] == b[k - a.len()]);
        }
    }
}

proof fn lemma_window_labelled(binds: Seq<BindView>, window: Listed)
    ensures
        all_as_labelled(binds, window.id, window_items(binds, window)),
        all_as_labelled(binds, window.id, last_items(binds, window.id)),
{
    lemma_labels();
}

proof fn lemma_stack_labelled(binds: Seq<BindView>, windows: Seq<Listed>, window: Listed)
    ensures
        all_as_labelled(binds, window.id, stack_items(binds, windows, window)),
{
    lemma_labels();
}

/// Every choice in a menu does to the menu's window what its label says, and shows the shortcut for
/// that.
pub proof fn law_choices_do_what_they_say(
    binds: Seq<BindView>,
    windows: Seq<Listed>,
    window: Listed,
    workspaces: Seq<Workspace>,
    outputs: Seq<Output>,
    k: int,
    choice: ChoiceView,
)
    requires
        0 <= k < menu_for(binds, windows, window, workspaces, outputs).len(),
        menu_for(binds, windows, window, workspaces, outputs)[k] == ItemView::Choice(choice),
    ensures
        does_as_labelled(binds, window.id, choice),
{
    let id = window.id;
    let a = window_items(binds, window);
    let b = stack_items(binds, windows, window);
    let c = workspace_items(binds, windows, window, workspaces, outputs.len() > 1);
    let d = output_items(binds, id, output_of(workspaces, window.workspace_id), outputs);
    let e = last_items(binds, id);
    lemma_window_labelled(binds, window);
    lemma_stack_labelled(binds, windows, window);
    assert(all_as_labelled(binds, id, c));
    assert(all_as_labelled(binds, id, d));
    lemma_labelled_add(binds, id, a, b);
    lemma_labelled_add(binds, id, a + b, c);
    lemma_labelled_add(binds, id, a + b + c, d);
    lemma_labelled_add(binds, id, a + b + c + d, e);
}

/// What a menu offers follows from how its window is: floating or not, alone in its column or not,
/// and with or without columns on either side.
pub proof fn law_choices_fit_the_window(
    binds: Seq<BindView>,
    windows: Seq<Listed>,
    i: int,
    workspaces: Seq<Workspace>,
    outputs: Seq<Output>,
)
    requires
        0 <= i < windows.len(),
    ensures
        ({
            let window = windows[i];
            let menu = menu_for(binds, windows, window, workspaces, outputs);
            let tiled = window.position is Some;
            &&& offers(menu, "Tile window"@) == window.is_floating
            &&& offers(menu, "Float window"@) == !window.is_floating
            &&& offers(menu, "Fullscreen"@)
            &&& offers(menu, "Maximize column"@) == !window.is_floating
            &&& offers(menu, "Unstack window"@) == has_company(windows, i)
            &&& offers(menu, "Cycle stack"@) == has_company(windows, i)
            &&& offers(menu, "Stack into left column"@) == (tiled && !has_company(windows, i)
                && has_left(windows, window))
            &&& offers(menu, "Stack into right column"@) == (tiled && !has_company(windows, i)
                && has_right(windows, window))
            &&& offers(menu, "Close window"@)
        }),
{
    let window = windows[i];
    let menu = menu_for(binds, windows, window, workspaces, outputs);
    let a = window_items(binds, window);
    let b = stack_items(binds, windows, window);
    let c = workspace_items(binds, windows, window, workspaces, outputs.len() > 1);
    let d = output_items(binds, window.id, output_of(workspaces, window.workspace_id), outputs);
    let e = last_items(binds, window.id);
    lemma_labels();
    if let Some((column, tile)) = window.position {
        lemma_stack_is(windows, window.workspace_id, column);
        lemma_company(windows, i);
        lemma_sides(windows, window, column, tile);
    }
    lemma_offers_add(a + b + c + d, e);
    lemma_offers_add(a + b + c, d);
    lemma_offers_add(a + b, c);
    lemma_offers_add(a, b);
    lemma_offers_few(a);
    lemma_offers_few(b);
    lemma_offers_few(c);
    lemma_offers_few(d);
    lemma_offers_few(e);
}

/// Whether an item is a choice with the given label.
pub open spec fn is_choice(item: ItemView, label: Seq<char>) -> bool {
    item matches ItemView::Choice(c) && c.label == label
}

proof fn lemma_offers_add(a: Seq<ItemView>, b: Seq<ItemView>)
    ensures
        forall|label: Seq<char>| #[trigger]
            offers(a + b, label) == (offers(a, label) || offers(b, label)),
{
    assert forall|label: Seq<char>| #[trigger] offers(a + b, label) == (offers(a, label) || offers(
        b,
        label,
    )) by {
        if offers(a, label) {
            let k = choose|k: int| 0 <= k < a.len() && is_choice(#[trigger] a[k], label);
            assert((a + b)[k] == a[k]);
        }
        if offers(b, label) {
            let k = choose|k: int| 0 <= k < b.len() && is_choice(#[trigger] b[k], label);
            assert((a + b)[a.len() + k] == b[k]);
        }
        if offers(a + b, label) {
            let k = choose|k: int| 0 <= k < (a + b).len() && is_choice(#[trigger] (a + b)[k], label);
            if k < a.len() {
                assert(is_choice(a[k], label));
            } else {
                assert(is_choice(b[k - a.len()], label));
            }
        }
    }
}

proof fn lemma_offers_few(items: Seq<ItemView>)
    requires
        items.len() <= 3,
    ensures
        forall|label: Seq<char>| #[trigger]
            offers(items, label) == ((items.len() > 0 && is_choice(items[0], label)) || (items.len() > 1
                && is_choice(items[1], label)) || (items.len() > 2 && is_choice(items[2], label))),
{
}

/// Whether a tile is no lower in its column than another, going by where they are and then by their
/// windows.
pub open spec fn is_no_lower(a: Listed, b: Listed) -> bool {
    match (a.position, b.position) {
        (Some(p), Some(q)) => p.1 < q.1 || (p.1 == q.1 && a.id <= b.id),
        _ => false,
    }
}

/// Whether actions focus the window at the bottom of a column, move it up once for each of the
/// others, and then focus the first window that was focused before, if there is one.
pub open spec fn turns(
    actions: Seq<Action<Seq<char>>>,
    windows: Seq<Listed>,
    workspace: Option<u64>,
    column: usize,
) -> bool {
    let there = windows.filter(tiled_in(workspace, column));
    let n = there.len() as int;
    &&& actions.len() >= n
    &&& exists|b: int|
        0 <= b < n && actions[0] == (Action::<Seq<char>>::FocusWindow { id: (#[trigger] there[b]).id })
            && forall|j: int| 0 <= j < n ==> is_no_lower(#[trigger] there[j], there[b])
    &&& forall|j: int| 1 <= j < n ==> #[trigger] actions[j] == Action::<Seq<char>>::MoveWindowUp
    &&& forall|f: int|
        0 <= f < windows.len() && (#[trigger] windows[f]).is_focused && (forall|j: int|
            0 <= j < f ==> !(#[trigger] windows[j]).is_focused) ==> actions.len() == n + 1 && actions[n]
            == (Action::<Seq<char>>::FocusWindow { id: windows[f].id })
    &&& (forall|j: int| 0 <= j < windows.len() ==> !(#[trigger] windows[j]).is_focused)
        ==> actions.len() == n
}

proof fn lemma_cycle_turns(windows: Seq<Listed>, workspace: Option<u64>, column: usize)
    requires
        stack_in(tiles(windows, workspace), column).len() > 1,
    ensures
        turns(
            cycle_actions(stack_in(tiles(windows, workspace), column), focused_window(windows)),
            windows,
            workspace,
            column,
        ),
        windows.filter(tiled_in(workspace, column)).len() > 1,
{
    let stack = stack_in(tiles(windows, workspace), column);
    let there = windows.filter(tiled_in(workspace, column));
    let n = there.len() as int;
    lemma_stack_is(windows, workspace, column);
    let actions = cycle_actions(stack, focused_window(windows));
    law_bottom_is_lowest(stack);
    let b = choose|b: int| 0 <= b < stack.len() && stack[b] == bottom(stack);
    assert(there[b].id == bottom(stack).1);
    assert forall|j: int| 0 <= j < n implies is_no_lower(#[trigger] there[j], there[b]) by {
        assert(above(stack[j], bottom(stack)));
        assert(there[j].position == Some((column, stack[j].0)));
        assert(there[b].position == Some((column, stack[b].0)));
    }
    assert(actions[0] == Action::<Seq<char>>::FocusWindow { id: there[b].id });
    assert forall|j: int| 1 <= j < n implies #[trigger] actions[j] == Action::<
        Seq<char>,
    >::MoveWindowUp by {}
    lemma_first_from(windows.len() as int, 0, focused(windows));
    let x = first_from(windows.len() as int, 0, focused(windows));
    assert(x < windows.len() ==> focused(windows)(x));
    assert forall|f: int|
        0 <= f < windows.len() && (#[trigger] windows[f]).is_focused && (forall|j: int|
            0 <= j < f ==> !(#[trigger] windows[j]).is_focused) implies actions.len() == n + 1
        && actions[n] == (Action::<Seq<char>>::FocusWindow { id: windows[f].id }) by {
        assert(focused(windows)(f));
        if x < f {
            assert(!windows[x].is_focused);
        }
        assert(x == f);
    }
}

/// Cycling a stack turns the column of the menu's window, which shares it with another.
pub proof fn law_cycling_starts_at_the_bottom(
    binds: Seq<BindView>,
    windows: Seq<Listed>,
    window: Listed,
    workspaces: Seq<Workspace>,
    outputs: Seq<Output>,
    k: int,
    choice: ChoiceView,
)
    requires
        0 <= k < menu_for(binds, windows, window, workspaces, outputs).len(),
        menu_for(binds, windows, window, workspaces, outputs)[k] == ItemView::Choice(choice),
        choice.label == "Cycle stack"@,
    ensures
        choice.keys is None,
        match window.position {
            Some((column, _)) => {
                &&& windows.filter(tiled_in(window.workspace_id, column)).len() > 1
                &&& turns(choice.actions, windows, window.workspace_id, column)
            },
            None => false,
        },
{
    lemma_labels();
    lemma_menu_at(binds, windows, window, workspaces, outputs);
    if let Some((column, tile)) = window.position {
        let stack = stack_in(tiles(windows, window.workspace_id), column);
        assert(stack.len() > 1);
        assert(choice.actions == cycle_actions(stack, focused_window(windows)));
        lemma_cycle_turns(windows, window.workspace_id, column);
    }
}

/// What the output of a window's workspace is: that of the first workspace with its ID.
pub proof fn law_window_is_on_its_workspaces_output(workspaces: Seq<Workspace>, id: u64, i: int)
    ensures
        0 <= i < workspaces.len() && workspaces[i].id == id && (forall|j: int|
            0 <= j < i ==> (#[trigger] workspaces[j]).id != id) ==> output_of(workspaces, Some(id))
            == text_of(workspaces[i].output),
        (forall|j: int| 0 <= j < workspaces.len() ==> (#[trigger] workspaces[j]).id != id)
            ==> output_of(workspaces, Some(id)) is None,
        output_of(workspaces, None) is None,
{
    let stop = numbered(workspaces, id);
    lemma_first_from(workspaces.len() as int, 0, stop);
    let x = first_from(workspaces.len() as int, 0, stop);
    assert(x < workspaces.len() ==> stop(x));
    if 0 <= i < workspaces.len() && workspaces[i].id == id && (forall|j: int|
        0 <= j < i ==> (#[trigger] workspaces[j]).id != id) {
        assert(stop(i));
        if x < i {
            assert(workspaces[x].id != id);
        }
    }
}

/// The choices for moving a window to another workspace are one for each, in the order they're in.
/// Each is called by the workspace's name or index, along with its output where there are several,
/// and moves the window there.
pub proof fn law_every_workspace_can_be_moved_to(
    binds: Seq<BindView>,
    windows: Seq<Listed>,
    window: Listed,
    workspaces: Seq<Workspace>,
    outputs: Seq<Output>,
    k: int,
    choices: Seq<ChoiceView>,
)
    requires
        0 <= k < menu_for(binds, windows, window, workspaces, outputs).len(),
        menu_for(binds, windows, window, workspaces, outputs)[k] == (ItemView::Submenu {
            label: "Move to workspace"@,
            choices,
        }),
    ensures
        ({
            let targets = workspace_targets(workspaces, window.workspace_id);
            &&& choices.len() == targets.len()
            &&& choices.len() > 0
            &&& forall|j: int|
                #![trigger choices[j]]
                0 <= j < choices.len() ==> {
                    let w = targets[j];
                    let name = match w.name {
                        Some(name) => name@,
                        None => decimal(w.idx as nat),
                    };
                    &&& choices[j].actions == seq![
                        Action::<Seq<char>>::MoveWindowToWorkspace { id: window.id, workspace: w.id },
                    ]
                    &&& choices[j].label == if outputs.len() > 1 && w.output is Some {
                        name + " ("@ + w.output->0@ + ")"@
                    } else {
                        name
                    }
                    &&& choices[j].keys == workspace_choice(
                        binds,
                        window.id,
                        alone(windows, window),
                        outputs.len() > 1,
                        focused_output(workspaces),
                        w,
                    ).keys
                }
        }),
{
    lemma_labels();
    lemma_menu_at(binds, windows, window, workspaces, outputs);
}

/// A menu offers to move its window elsewhere just where there's another workspace to move it to, or
/// another output than the window's own.
pub proof fn law_moving_is_offered(
    binds: Seq<BindView>,
    windows: Seq<Listed>,
    window: Listed,
    workspaces: Seq<Workspace>,
    outputs: Seq<Output>,
)
    ensures
        ({
            let menu = menu_for(binds, windows, window, workspaces, outputs);
            let current = output_of(workspaces, window.workspace_id);
            &&& has_submenu(menu, "Move to workspace"@) <==> exists|i: int|
                0 <= i < workspaces.len() && Some((#[trigger] workspaces[i]).id)
                    != window.workspace_id
            &&& has_submenu(menu, "Move to monitor"@) <==> exists|i: int|
                0 <= i < outputs.len() && Some((#[trigger] outputs[i]).name@) != current
        }),
{
    let current = output_of(workspaces, window.workspace_id);
    let a = window_items(binds, window);
    let b = stack_items(binds, windows, window);
    let c = workspace_items(binds, windows, window, workspaces, outputs.len() > 1);
    let d = output_items(binds, window.id, current, outputs);
    let e = last_items(binds, window.id);
    lemma_submenus_add(a + b + c + d, e);
    lemma_submenus_add(a + b + c, d);
    lemma_submenus_add(a + b, c);
    lemma_submenus_add(a, b);
    lemma_no_submenus(binds, windows, window);
    lemma_sorted_len(other_workspaces(workspaces, window.workspace_id), workspace_order());
    lemma_sorted_len(other_outputs(outputs, current), text_order());
    lemma_other_workspaces_there(workspaces, window.workspace_id);
    lemma_other_outputs_there(outputs, current);
    lemma_submenus(binds, windows, window, workspaces, outputs);
}

proof fn lemma_submenus_add(a: Seq<ItemView>, b: Seq<ItemView>)
    ensures
        forall|label: Seq<char>| #[trigger]
            has_submenu(a + b, label) == (has_submenu(a, label) || has_submenu(b, label)),
{
    assert forall|label: Seq<char>| #[trigger]
        has_submenu(a + b, label) == (has_submenu(a, label) || has_submenu(b, label)) by {
        if has_submenu(a, label) {
            let k = choose|k: int| 0 <= k < a.len() && is_submenu(#[trigger] a[k], label);
            assert((a + b)[k] == a[k]);
        }
        if has_submenu(b, label) {
            let k = choose|k: int| 0 <= k < b.len() && is_submenu(#[trigger] b[k], label);
            assert((a + b)[a.len() + k] == b[k]);
        }
        if has_submenu(a + b, label) {
            let k = choose|k: int| 0 <= k < (a + b).len() && is_submenu(#[trigger] (a + b)[k], label);
            if k < a.len() {
                assert(is_submenu(a[k], label));
            } else {
                assert(is_submenu(b[k - a.len()], label));
            }
        }
    }
}

proof fn lemma_no_submenus(binds: Seq<BindView>, windows: Seq<Listed>, window: Listed)
    ensures
        forall|label: Seq<char>| !#[trigger] has_submenu(window_items(binds, window), label),
        forall|label: Seq<char>| !#[trigger] has_submenu(stack_items(binds, windows, window), label),
        forall|label: Seq<char>| !#[trigger] has_submenu(last_items(binds, window.id), label),
{
}

proof fn lemma_submenus(
    binds: Seq<BindView>,
    windows: Seq<Listed>,
    window: Listed,
    workspaces: Seq<Workspace>,
    outputs: Seq<Output>,
)
    ensures
        ({
            let current = output_of(workspaces, window.workspace_id);
            let c = workspace_items(binds, windows, window, workspaces, outputs.len() > 1);
            let d = output_items(binds, window.id, current, outputs);
            &&& has_submenu(c, "Move to workspace"@) == (workspace_targets(
                workspaces,
                window.workspace_id,
            ).len() > 0)
            &&& !has_submenu(c, "Move to monitor"@)
            &&& has_submenu(d, "Move to monitor"@) == (output_targets(outputs, current).len() > 0)
            &&& !has_submenu(d, "Move to workspace"@)
        }),
{
    lemma_labels();
    let current = output_of(workspaces, window.workspace_id);
    let c = workspace_items(binds, windows, window, workspaces, outputs.len() > 1);
    let d = output_items(binds, window.id, current, outputs);
    if c.len() > 0 {
        assert(is_submenu(c[0], "Move to workspace"@));
    }
    if d.len() > 0 {
        assert(is_submenu(d[0], "Move to monitor"@));
    }
}

/// Whether a menu has a submenu with the given label.
pub open spec fn has_submenu(menu: Seq<ItemView>, label: Seq<char>) -> bool {
    exists|k: int| 0 <= k < menu.len() && is_submenu(#[trigger] menu[k], label)
}

proof fn lemma_other_workspaces_there(workspaces: Seq<Workspace>, current: Option<u64>)
    ensures
        other_workspaces(workspaces, current).len() > 0 <==> exists|i: int|
            0 <= i < workspaces.len() && Some((#[trigger] workspaces[i]).id) != current,
    decreases workspaces.len(),
{
    if workspaces.len() > 0 {
        let fewer = workspaces.drop_last();
        lemma_other_workspaces_there(fewer, current);
        assert(forall|i: int| 0 <= i < fewer.len() ==> #[trigger] fewer[i] == workspaces[i]);
        if other_workspaces(fewer, current).len() > 0 {
            let i = choose|i: int| 0 <= i < fewer.len() && Some((#[trigger] fewer[i]).id) != current;
            assert(Some(workspaces[i].id) != current);
        } else if exists|i: int|
            0 <= i < workspaces.len() && Some((#[trigger] workspaces[i]).id) != current {
            let i = choose|i: int|
                0 <= i < workspaces.len() && Some((#[trigger] workspaces[i]).id) != current;
            if i < fewer.len() {
                assert(Some(fewer[i].id) != current);
            }
        }
        assert(workspaces[workspaces.len() - 1] == workspaces.last());
    }
}

proof fn lemma_other_outputs_there(outputs: Seq<Output>, current: Option<Seq<char>>)
    ensures
        other_outputs(outputs, current).len() > 0 <==> exists|i: int|
            0 <= i < outputs.len() && Some((#[trigger] outputs[i]).name@) != current,
    decreases outputs.len(),
{
    if outputs.len() > 0 {
        let fewer = outputs.drop_last();
        lemma_other_outputs_there(fewer, current);
        assert(forall|i: int| 0 <= i < fewer.len() ==> #[trigger] fewer[i] == outputs[i]);
        if other_outputs(fewer, current).len() > 0 {
            let i = choose|i: int| 0 <= i < fewer.len() && Some((#[trigger] fewer[i]).name@) != current;
            assert(Some(outputs[i].name@) != current);
        } else if exists|i: int| 0 <= i < outputs.len() && Some((#[trigger] outputs[i]).name@) != current {
            let i = choose|i: int|
                0 <= i < outputs.len() && Some((#[trigger] outputs[i]).name@) != current;
            if i < fewer.len() {
                assert(Some(fewer[i].name@) != current);
            }
        }
        assert(outputs[outputs.len() - 1] == outputs.last());
    }
}

/// The shortcut for moving a window to a workspace is one that names the workspace, or gives its
/// index where it's on the output that's focused. A shortcut for moving the whole column will do
/// where the window is alone in it.
pub proof fn law_workspace_shortcuts_name_it(
    binds: Seq<BindView>,
    id: u64,
    alone: bool,
    several_outputs: bool,
    focused_output: Option<Seq<char>>,
    workspace: Workspace,
)
    ensures
        ({
            let keys = workspace_choice(
                binds,
                id,
                alone,
                several_outputs,
                focused_output,
                workspace,
            ).keys;
            let name = match workspace.name {
                Some(name) => name@,
                None => decimal(workspace.idx as nat),
            };
            let of_window = keys_for(binds, "move-window-to-workspace"@, seq![name]);
            let of_column = keys_for(binds, "move-column-to-workspace"@, seq![name]);
            let told_apart = workspace.name is Some || text_of(workspace.output) == focused_output;
            &&& !told_apart ==> keys is None
            &&& told_apart && of_window is Some ==> keys == of_window
            &&& told_apart && of_window is None && alone ==> keys == of_column
            &&& told_apart && of_window is None && !alone ==> keys is None
        }),
{
}

/// The output that's focused is that of the first workspace that is.
pub proof fn law_focused_output_has_the_focus(workspaces: Seq<Workspace>, i: int)
    ensures
        0 <= i < workspaces.len() && workspaces[i].is_focused && (forall|j: int|
            0 <= j < i ==> !(#[trigger] workspaces[j]).is_focused) ==> focused_output(workspaces)
            == text_of(workspaces[i].output),
        (forall|j: int| 0 <= j < workspaces.len() ==> !(#[trigger] workspaces[j]).is_focused)
            ==> focused_output(workspaces) is None,
{
    let stop = focused_at(workspaces);
    lemma_first_from(workspaces.len() as int, 0, stop);
    let x = first_from(workspaces.len() as int, 0, stop);
    assert(x < workspaces.len() ==> stop(x));
    if 0 <= i < workspaces.len() && workspaces[i].is_focused && (forall|j: int|
        0 <= j < i ==> !(#[trigger] workspaces[j]).is_focused) {
        assert(stop(i));
        if x < i {
            assert(!workspaces[x].is_focused);
        }
    }
}

/// Whether a window that's listed is alone in its column is whether it has no company there.
pub proof fn law_alone_is_without_company(windows: Seq<Listed>, i: int)
    requires
        0 <= i < windows.len(),
    ensures
        alone(windows, windows[i]) == (windows[i].position is Some && !has_company(windows, i)),
{
    if let Some((column, tile)) = windows[i].position {
        lemma_stack_is(windows, windows[i].workspace_id, column);
        lemma_company(windows, i);
    }
}

/// Of two workspaces to move a window to, the earlier is on an output that comes first, with none
/// before any, or has the lower index on the same one.
pub proof fn law_workspaces_go_by_output(workspaces: Seq<Workspace>, current: Option<u64>, j: int, k: int)
    requires
        0 <= j < k < workspace_targets(workspaces, current).len(),
    ensures
        ({
            let a = workspace_targets(workspaces, current)[j];
            let b = workspace_targets(workspaces, current)[k];
            match (a.output, b.output) {
                (Some(x), Some(y)) => (x@ == y@ && a.idx <= b.idx) || (x@ != y@ && text_le(x@, y@)),
                (Some(_), None) => false,
                (None, Some(_)) => true,
                (None, None) => a.idx <= b.idx,
            }
        }),
{
    law_workspaces_are_in_order(workspaces, current);
    let targets = workspace_targets(workspaces, current);
    assert(workspace_order()(targets[j], targets[k]));
}

/// The choices for moving a window to another output are one for each, in the order they're in. Each
/// is called by the output's make and model, with its name alongside, and moves the window there.
pub proof fn law_every_output_can_be_moved_to(
    binds: Seq<BindView>,
    windows: Seq<Listed>,
    window: Listed,
    workspaces: Seq<Workspace>,
    outputs: Seq<Output>,
    k: int,
    choices: Seq<ChoiceView>,
)
    requires
        0 <= k < menu_for(binds, windows, window, workspaces, outputs).len(),
        menu_for(binds, windows, window, workspaces, outputs)[k] == (ItemView::Submenu {
            label: "Move to monitor"@,
            choices,
        }),
    ensures
        ({
            let targets = output_targets(outputs, output_of(workspaces, window.workspace_id));
            &&& choices.len() == targets.len()
            &&& choices.len() > 0
            &&& forall|j: int|
                #![trigger choices[j]]
                0 <= j < choices.len() ==> {
                    &&& choices[j].actions == seq![
                        Action::MoveWindowToMonitor { id: window.id, output: targets[j] },
                    ]
                    &&& choices[j].keys == keys_for(
                        binds,
                        "move-window-to-monitor"@,
                        seq![targets[j]],
                    )
                    &&& forall|i: int|
                        0 <= i < outputs.len() && (#[trigger] outputs[i]).name@ == targets[j] && (
                        forall|m: int| 0 <= m < i ==> (#[trigger] outputs[m]).name@ != targets[j])
                            ==> choices[j].label == outputs[i].make@ + " "@ + outputs[i].model@ + " ("@
                            + targets[j] + ")"@
                }
        }),
{
    lemma_labels();
    lemma_menu_at(binds, windows, window, workspaces, outputs);
    let targets = output_targets(outputs, output_of(workspaces, window.workspace_id));
    assert forall|j: int| #![trigger choices[j]] 0 <= j < choices.len() implies choices[j]
        == output_choice(binds, window.id, outputs, targets[j]) by {}
    assert forall|j: int, i: int|
        0 <= j < targets.len() && 0 <= i < outputs.len() && (#[trigger] outputs[i]).name@
            == #[trigger] targets[j] && (forall|m: int|
            0 <= m < i ==> (#[trigger] outputs[m]).name@ != targets[j]) implies output_label(
        outputs,
        targets[j],
    ) == outputs[i].make@ + " "@ + outputs[i].model@ + " ("@ + targets[j] + ")"@ by {
        let stop = named(outputs, targets[j]);
        lemma_first_from(outputs.len() as int, 0, stop);
        let x = first_from(outputs.len() as int, 0, stop);
        assert(stop(i));
        if x < i {
            assert(stop(x));
        }
        assert(x == i);
    }
}

proof fn lemma_modifier_names()
    ensures
        "mod"@.len() == 3,
        "mod"@[0] == 'm',
        "super"@.len() == 5,
        "super"@[1] == 'u',
        "win"@.len() == 3,
        "win"@[0] == 'w',
        "ctrl"@.len() == 4,
        "ctrl"@[0] == 'c',
        "control"@.len() == 7,
        "shift"@.len() == 5,
        "shift"@[1] == 'h',
        "alt"@.len() == 3,
        "alt"@[0] == 'a',
        "iso_level3_shift"@.len() == 16,
        "mod5"@.len() == 4,
        "mod5"@[0] == 'm',
{
    reveal_strlit("mod");
    reveal_strlit("super");
    reveal_strlit("win");
    reveal_strlit("ctrl");
    reveal_strlit("control");
    reveal_strlit("shift");
    reveal_strlit("alt");
    reveal_strlit("iso_level3_shift");
    reveal_strlit("mod5");
}

/// Whether one of the parts of a key combination is a name, whatever its case.
pub open spec fn names(parts: Seq<Seq<char>>, name: Seq<char>) -> bool {
    exists|i: int| 0 <= i < parts.len() && lower_ascii_text(#[trigger] parts[i]) == name
}

proof fn lemma_names(parts: Seq<Seq<char>>, name: Seq<char>)
    requires
        parts.len() > 0,
    ensures
        names(parts, name) == (names(parts.drop_last(), name) || lower_ascii_text(parts.last()) == name),
{
    let fewer = parts.drop_last();
    if names(fewer, name) {
        let i = choose|i: int| 0 <= i < fewer.len() && lower_ascii_text(#[trigger] fewer[i]) == name;
        assert(parts[i] == fewer[i]);
    }
    if names(parts, name) {
        let i = choose|i: int| 0 <= i < parts.len() && lower_ascii_text(#[trigger] parts[i]) == name;
        if i < fewer.len() {
            assert(fewer[i] == parts[i]);
        }
    }
    if lower_ascii_text(parts.last()) == name {
        assert(lower_ascii_text(parts[parts.len() - 1]) == name);
    }
}

/// A key combination has a modifier just if one of its parts names it, in any case and any order,
/// and one with a part that names none isn't known at all.
pub proof fn law_modifiers_are_named(parts: Seq<Seq<char>>)
    ensures
        match modifiers(parts) {
            Some(mods) => {
                &&& mods.logo == (names(parts, "mod"@) || names(parts, "super"@) || names(parts, "win"@))
                &&& mods.control == (names(parts, "ctrl"@) || names(parts, "control"@))
                &&& mods.shift == names(parts, "shift"@)
                &&& mods.alt == names(parts, "alt"@)
                &&& mods.level3 == (names(parts, "iso_level3_shift"@) || names(parts, "mod5"@))
            },
            None => true,
        },
        modifiers(parts) is Some <==> forall|i: int|
            0 <= i < parts.len() ==> {
                let name = lower_ascii_text(#[trigger] parts[i]);
                ||| name == "mod"@
                ||| name == "super"@
                ||| name == "win"@
                ||| name == "ctrl"@
                ||| name == "control"@
                ||| name == "shift"@
                ||| name == "alt"@
                ||| name == "iso_level3_shift"@
                ||| name == "mod5"@
            },
    decreases parts.len(),
{
    lemma_modifier_names();
    if parts.len() > 0 {
        let fewer = parts.drop_last();
        law_modifiers_are_named(fewer);
        lemma_names(parts, "mod"@);
        lemma_names(parts, "super"@);
        lemma_names(parts, "win"@);
        lemma_names(parts, "ctrl"@);
        lemma_names(parts, "control"@);
        lemma_names(parts, "shift"@);
        lemma_names(parts, "alt"@);
        lemma_names(parts, "iso_level3_shift"@);
        lemma_names(parts, "mod5"@);
        assert(forall|i: int| 0 <= i < fewer.len() ==> #[trigger] fewer[i] == parts[i]);
        assert(parts[parts.len() - 1] == parts.last());
        if modifiers(parts) is Some {
            assert forall|i: int| 0 <= i < parts.len() implies {
                let name = lower_ascii_text(#[trigger] parts[i]);
                ||| name == "mod"@
                ||| name == "super"@
                ||| name == "win"@
                ||| name == "ctrl"@
                ||| name == "control"@
                ||| name == "shift"@
                ||| name == "alt"@
                ||| name == "iso_level3_shift"@
                ||| name == "mod5"@
            } by {
                if i < fewer.len() {
                    assert(fewer[i] == parts[i]);
                }
            }
        }
    }
}

/// A menu is for the first window that Niri lists with the given ID, and there's none where it lists
/// no such window.
pub proof fn law_menu_is_for_its_window(windows: Seq<Listed>, id: u64, i: int)
    ensures
        0 <= i < windows.len() && windows[i].id == id && (forall|j: int|
            0 <= j < i ==> (#[trigger] windows[j]).id != id) ==> first_from(
            windows.len() as int,
            0,
            listed(windows, id),
        ) == i,
        (forall|j: int| 0 <= j < windows.len() ==> (#[trigger] windows[j]).id != id) ==> first_from(
            windows.len() as int,
            0,
            listed(windows, id),
        ) >= windows.len(),
{
    let stop = listed(windows, id);
    lemma_first_from(windows.len() as int, 0, stop);
    let x = first_from(windows.len() as int, 0, stop);
    assert(x < windows.len() ==> stop(x));
    if 0 <= i < windows.len() && windows[i].id == id && (forall|j: int|
        0 <= j < i ==> (#[trigger] windows[j]).id != id) {
        assert(stop(i));
        if x < i {
            assert(windows[x].id != id);
        }
    }
}

/// A key is found by its name as it's written, or failing that in lower case, where a value of nothing
/// or of the void symbol is no key.
pub proof fn law_first_known_key_is_picked(key: u32, lower: u32)
    ensures
        key != 0 && key != 0xff_ffff ==> picked(key, lower) == Some(key),
        (key == 0 || key == 0xff_ffff) && lower != 0 && lower != 0xff_ffff ==> picked(key, lower)
            == Some(lower),
        (key == 0 || key == 0xff_ffff) && (lower == 0 || lower == 0xff_ffff) ==> picked(key, lower)
            is None,
{
}

/// What a choice says is its own label, shortcut and actions, in order.
pub proof fn law_choices_say_what_they_hold(choice: Choice, i: int)
    ensures
        choice.says().label == choice.label@,
        choice.keys is Some ==> choice.says().keys == Some(choice.keys->0@),
        choice.keys is None ==> choice.says().keys is None,
        choice.says().actions.len() == choice.actions@.len(),
        0 <= i < choice.actions@.len() ==> choice.says().actions[i] == choice.actions@[i].says(),
{
}

/// What a menu says is its own items, in order, and what a submenu says is its own label and choices.
pub proof fn law_items_say_what_they_hold(items: Seq<Item>, i: int, k: int)
    requires
        0 <= i < items.len(),
    ensures
        items_say(items).len() == items.len(),
        items[i] matches Item::Choice(choice) ==> items_say(items)[i] == ItemView::Choice(
            choice.says(),
        ),
        items[i] is Separator ==> items_say(items)[i] is Separator,
        items[i] matches Item::Submenu { label, choices } ==> {
            &&& items_say(items)[i] is Submenu
            &&& items_say(items)[i]->Submenu_label == label@
            &&& items_say(items)[i]->choices.len() == choices@.len()
            &&& 0 <= k < choices@.len() ==> items_say(items)[i]->choices[k] == choices@[k].says()
        },
{
}

/// Whether an item is a submenu with the given label.
pub open spec fn is_submenu(item: ItemView, label: Seq<char>) -> bool {
    item matches ItemView::Submenu { label: l, choices: _ } && l == label
}

/// Whether an item is a choice with one of the labels for taking a window into or out of a stack.
pub open spec fn is_about_stacks(item: ItemView) -> bool {
    item matches ItemView::Choice(c) && (c.label == "Unstack window"@ || c.label == "Cycle stack"@
        || c.label == "Stack into left column"@ || c.label == "Stack into right column"@)
}

/// A menu starts with what can be done to the window where it is, goes on with its stack, other
/// workspaces and other outputs, as far as there's anything to do about those, and ends in closing it,
/// set apart from the rest.
pub proof fn law_menu_is_in_order(
    binds: Seq<BindView>,
    windows: Seq<Listed>,
    window: Listed,
    workspaces: Seq<Workspace>,
    outputs: Seq<Output>,
)
    ensures
        ({
            let menu = menu_for(binds, windows, window, workspaces, outputs);
            let n = menu.len() as int;
            let own: int = if window.is_floating {
                2
            } else {
                3
            };
            &&& n >= own + 2
            &&& is_choice(
                menu[0],
                if window.is_floating {
                    "Tile window"@
                } else {
                    "Float window"@
                },
            )
            &&& is_choice(menu[1], "Fullscreen"@)
            &&& !window.is_floating ==> is_choice(menu[2], "Maximize column"@)
            &&& menu[n - 2] is Separator
            &&& is_choice(menu[n - 1], "Close window"@)
            &&& forall|k: int|
                own <= k < n - 2 ==> is_about_stacks(#[trigger] menu[k]) || is_submenu(
                    menu[k],
                    "Move to workspace"@,
                ) || is_submenu(menu[k], "Move to monitor"@)
            &&& forall|j: int, k: int|
                own <= j < n - 2 && own <= k < n - 2 && is_about_stacks(#[trigger] menu[j]) && !is_about_stacks(
                    #[trigger] menu[k],
                ) ==> j < k
            &&& forall|j: int, k: int|
                own <= j < n - 2 && own <= k < n - 2 && is_submenu(
                    #[trigger] menu[j],
                    "Move to workspace"@,
                ) && is_submenu(#[trigger] menu[k], "Move to monitor"@) ==> j < k
            &&& forall|j: int, k: int|
                own <= j < n - 2 && own <= k < n - 2 && (is_choice(#[trigger] menu[j], "Unstack window"@)
                    && is_choice(#[trigger] menu[k], "Cycle stack"@)) ==> j < k
            &&& forall|j: int, k: int|
                own <= j < n - 2 && own <= k < n - 2 && (is_choice(
                    #[trigger] menu[j],
                    "Stack into left column"@,
                ) && is_choice(#[trigger] menu[k], "Stack into right column"@)) ==> j < k
        }),
{
    lemma_labels();
    lemma_menu_at(binds, windows, window, workspaces, outputs);
    let menu = menu_for(binds, windows, window, workspaces, outputs);
    let a = window_items(binds, window);
    let b = stack_items(binds, windows, window);
    let c = workspace_items(binds, windows, window, workspaces, outputs.len() > 1);
    let d = output_items(binds, window.id, output_of(workspaces, window.workspace_id), outputs);
    let e = last_items(binds, window.id);
    let n = menu.len() as int;
    assert(menu[0] == a[0] && menu[1] == a[1]);
    assert(menu[n - 2] == e[0] && menu[n - 1] == e[1]);
    if !window.is_floating {
        assert(menu[2] == a[2]);
    }
    lemma_stack_items_are(binds, windows, window);
    assert forall|k: int| a.len() <= k < n - 2 implies (k < a.len() + b.len()) == is_about_stacks(
        #[trigger] menu[k],
    ) && (a.len() + b.len() <= k < a.len() + b.len() + c.len()) == is_submenu(
        menu[k],
        "Move to workspace"@,
    ) && (a.len() + b.len() + c.len() <= k) == is_submenu(menu[k], "Move to monitor"@) by {
        if k < a.len() + b.len() {
            assert(menu[k] == b[k - a.len()]);
        } else if k < a.len() + b.len() + c.len() {
            assert(menu[k] == c[k - a.len() - b.len()]);
        } else {
            assert(menu[k] == d[k - a.len() - b.len() - c.len()]);
        }
    }
    assert forall|j: int, k: int|
        a.len() <= j < n - 2 && a.len() <= k < n - 2 && ((is_choice(
            #[trigger] menu[j],
            "Unstack window"@,
        ) && is_choice(#[trigger] menu[k], "Cycle stack"@)) || (is_choice(
            menu[j],
            "Stack into left column"@,
        ) && is_choice(menu[k], "Stack into right column"@))) implies j < k by {
        assert(is_about_stacks(menu[j]) && is_about_stacks(menu[k]));
        assert(menu[j] == b[j - a.len()] && menu[k] == b[k - a.len()]);
    }
}

proof fn lemma_stack_items_are(binds: Seq<BindView>, windows: Seq<Listed>, window: Listed)
    ensures
        ({
            let b = stack_items(binds, windows, window);
            &&& b.len() <= 2
            &&& forall|k: int| 0 <= k < b.len() ==> is_about_stacks(#[trigger] b[k])
            &&& b.len() == 2 ==> !is_choice(b[0], "Cycle stack"@) && !is_choice(
                b[0],
                "Stack into right column"@,
            ) && !is_choice(b[1], "Unstack window"@) && !is_choice(b[1], "Stack into left column"@)
        }),
{
    lemma_labels();
}

} // verus!
