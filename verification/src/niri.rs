//! What Niri says of its windows and workspaces, and what can be asked of it.

use vstd::prelude::*;

use crate::text::text_of;

verus! {

/// A window, along with what's needed of the workspace that it's on.
#[derive(Debug)]
pub struct Window {
    pub id: u64,
    pub title: Option<String>,
    pub app_id: Option<String>,
    pub pid: Option<i32>,
    /// The workspace the window is on.
    pub workspace: u64,
    /// The output its workspace is on.
    pub output: Option<String>,
    pub is_focused: bool,
    pub is_floating: bool,
    pub is_urgent: bool,
    /// The column and the tile within it, counted from one, if the window is tiled.
    pub position: Option<(usize, usize)>,
}

/// A workspace.
#[derive(Debug)]
pub struct Workspace {
    pub id: u64,
    /// Where the workspace is on its output, counted from one.
    pub idx: u8,
    pub name: Option<String>,
    pub output: Option<String>,
    pub is_urgent: bool,
    pub is_active: bool,
    pub is_focused: bool,
}

/// The windows, in the order their buttons go in, and the workspaces.
#[derive(Debug)]
pub struct Snapshot {
    pub windows: Vec<Window>,
    pub workspaces: Vec<Workspace>,
}

/// An output's name, or nothing where there isn't one.
pub open spec fn output_name(output: Option<String>) -> Seq<char> {
    match text_of(output) {
        Some(name) => name,
        None => Seq::empty(),
    }
}

/// Returns an output's name, or nothing where there isn't one.
pub fn name_of(output: &Option<String>) -> (r: &str)
    ensures
        r@ == output_name(*output),
{
    match output {
        Some(name) => name.as_str(),
        None => {
            proof {
                reveal_strlit("");
                assert(""@ =~= Seq::<char>::empty());
            }
            ""
        },
    }
}

/// A window as Niri lists it.
#[derive(Debug, Clone, Copy)]
pub struct Listed {
    pub id: u64,
    /// The workspace the window is on, if it's on one.
    pub workspace_id: Option<u64>,
    pub is_focused: bool,
    pub is_floating: bool,
    /// The column and the tile within it, counted from one, if the window is tiled.
    pub position: Option<(usize, usize)>,
}

/// An output.
#[derive(Debug)]
pub struct Output {
    /// The connector.
    pub name: String,
    pub make: String,
    pub model: String,
    /// Where the output is, unless it's disabled.
    pub logical: Option<Logical>,
}

/// Where an output is in the space that Niri lays its outputs out in.
#[derive(Debug, Clone, Copy)]
pub struct Logical {
    pub x: i32,
    pub y: i32,
    pub width: u32,
    pub height: u32,
    /// The scale factor, rounded up to a whole number.
    pub scale: i32,
}

/// An action that Niri can be asked to perform, with outputs named by `T`.
#[derive(Debug, Clone)]
pub enum Action<T> {
    /// Focuses a window.
    FocusWindow { id: u64 },
    /// Makes a tiled window floating, or the other way round.
    ToggleWindowFloating { id: u64 },
    /// Makes a window fill the screen, or stop doing so.
    FullscreenWindow { id: u64 },
    /// Makes the focused column fill the width of the screen, or stop doing so.
    MaximizeColumn,
    /// Moves a window into the column to its left, or out of its own to the left.
    ConsumeOrExpelWindowLeft { id: u64 },
    /// Moves a window into the column to its right, or out of its own to the right.
    ConsumeOrExpelWindowRight { id: u64 },
    /// Moves the focused window up within its column.
    MoveWindowUp,
    /// Moves a window to a workspace, without the focus following it.
    MoveWindowToWorkspace { id: u64, workspace: u64 },
    /// Moves a window to an output.
    MoveWindowToMonitor { id: u64, output: T },
    /// Closes a window.
    CloseWindow { id: u64 },
    /// Moves the focused column to an index on its workspace, counted from one.
    MoveColumnToIndex { index: usize },
    /// Focuses a workspace.
    FocusWorkspace { id: u64 },
}

impl Action<String> {
    /// The same action, with its output as text.
    pub open spec fn says(self) -> Action<Seq<char>> {
        match self {
            Action::FocusWindow { id } => Action::FocusWindow { id },
            Action::ToggleWindowFloating { id } => Action::ToggleWindowFloating { id },
            Action::FullscreenWindow { id } => Action::FullscreenWindow { id },
            Action::MaximizeColumn => Action::MaximizeColumn,
            Action::ConsumeOrExpelWindowLeft { id } => Action::ConsumeOrExpelWindowLeft { id },
            Action::ConsumeOrExpelWindowRight { id } => Action::ConsumeOrExpelWindowRight { id },
            Action::MoveWindowUp => Action::MoveWindowUp,
            Action::MoveWindowToWorkspace { id, workspace } => Action::MoveWindowToWorkspace {
                id,
                workspace,
            },
            Action::MoveWindowToMonitor { id, output } => Action::MoveWindowToMonitor {
                id,
                output: output@,
            },
            Action::CloseWindow { id } => Action::CloseWindow { id },
            Action::MoveColumnToIndex { index } => Action::MoveColumnToIndex { index },
            Action::FocusWorkspace { id } => Action::FocusWorkspace { id },
        }
    }
}

/// A request to Niri.
#[derive(Debug)]
pub enum Request {
    Action(Action<String>),
    Windows,
    Workspaces,
    Outputs,
    EventStream,
}

/// The top level client for Niri. It holds nothing: each request goes over a connection of its own.
#[derive(Debug, Clone, Copy)]
pub struct Niri {}

impl Niri {
    pub fn new() -> (r: Self)
        ensures
            r == (Niri {  }),
    {
        Niri {  }
    }

    /// Requests that the given window ID should be activated.
    pub fn activate_window(&self, id: u64) -> (r: Request)
        ensures
            r == Request::Action(Action::FocusWindow { id }),
    {
        Request::Action(Action::FocusWindow { id })
    }

    /// Requests that the focused column be moved to the given 1-based index on its workspace.
    pub fn move_column_to_index(&self, index: usize) -> (r: Request)
        ensures
            r == Request::Action(Action::MoveColumnToIndex { index }),
    {
        Request::Action(Action::MoveColumnToIndex { index })
    }

    /// Requests that the given workspace ID should be focused.
    pub fn focus_workspace(&self, id: u64) -> (r: Request)
        ensures
            r == Request::Action(Action::FocusWorkspace { id }),
    {
        Request::Action(Action::FocusWorkspace { id })
    }

    /// Requests that an action be performed that doesn't reply with anything but whether it was
    /// handled.
    pub fn action(&self, action: Action<String>) -> (r: Request)
        ensures
            r == Request::Action(action),
    {
        Request::Action(action)
    }

    /// Requests the current windows.
    pub fn windows(&self) -> (r: Request)
        ensures
            r == Request::Windows,
    {
        Request::Windows
    }

    /// Requests the current workspaces.
    pub fn workspaces(&self) -> (r: Request)
        ensures
            r == Request::Workspaces,
    {
        Request::Workspaces
    }

    /// Requests the current outputs.
    pub fn outputs(&self) -> (r: Request)
        ensures
            r == Request::Outputs,
    {
        Request::Outputs
    }
}

/// What an action says is the action itself, on the same window, workspace, output or index.
pub proof fn law_actions_say_what_they_are(action: Action<String>)
    ensures
        match action {
            Action::FocusWindow { id } => action.says() == Action::<Seq<char>>::FocusWindow { id },
            Action::ToggleWindowFloating { id } => action.says() == Action::<
                Seq<char>,
            >::ToggleWindowFloating { id },
            Action::FullscreenWindow { id } => action.says() == Action::<
                Seq<char>,
            >::FullscreenWindow { id },
            Action::MaximizeColumn => action.says() == Action::<Seq<char>>::MaximizeColumn,
            Action::ConsumeOrExpelWindowLeft { id } => action.says() == Action::<
                Seq<char>,
            >::ConsumeOrExpelWindowLeft { id },
            Action::ConsumeOrExpelWindowRight { id } => action.says() == Action::<
                Seq<char>,
            >::ConsumeOrExpelWindowRight { id },
            Action::MoveWindowUp => action.says() == Action::<Seq<char>>::MoveWindowUp,
            Action::MoveWindowToWorkspace { id, workspace } => action.says() == Action::<
                Seq<char>,
            >::MoveWindowToWorkspace { id, workspace },
            Action::MoveWindowToMonitor { id, output } => action.says() == (
            Action::MoveWindowToMonitor { id, output: output@ }),
            Action::CloseWindow { id } => action.says() == Action::<Seq<char>>::CloseWindow { id },
            Action::MoveColumnToIndex { index } => action.says() == Action::<
                Seq<char>,
            >::MoveColumnToIndex { index },
            Action::FocusWorkspace { id } => action.says() == Action::<Seq<char>>::FocusWorkspace { id },
        },
{
}

/// An output that has a name goes by it, and one that hasn't by nothing.
pub proof fn law_outputs_go_by_their_name(output: Option<String>)
    ensures
        output is Some ==> output_name(output) == output->0@,
        output is None ==> output_name(output).len() == 0,
{
}

} // verus!
