//! The values exchanged with the window manager: the commands the library
//! asks the daemon to run, the per-output facts the daemon feeds back in,
//! and the errors an operation can signal.
//!
//! The library never talks to the manager itself. Every operation returns
//! a list of [`WmCommand`] values, and the surrounding daemon renders each
//! one into the manager's command language and runs it.

use vstd::prelude::*;

verus! {

/// One command for the window manager. Workspace names are concrete wire
/// names, already rendered for their output's ordinal.
#[derive(Debug, PartialEq, Eq)]
pub enum WmCommand {
    /// Give input focus to the named output.
    FocusOutput { output: String },
    /// Show the named workspace on the output it belongs to, and focus it.
    SwitchToWorkspace { workspace: String },
    /// Move the currently focused container to the named workspace.
    MoveFocusedToWorkspace { target: String },
    /// Move the container with the given id to the named workspace.
    MoveContainerToWorkspace { container: i64, destination: String },
    /// Move every container sitting on `from_workspace` to `to_workspace`.
    MoveMatchingToWorkspace { from_workspace: String, to_workspace: String },
}

/// One output as the window manager reports it: its name, whether a
/// display is connected, whether it holds input focus, and the name of the
/// workspace currently visible on it, if any.
#[derive(Debug)]
pub struct OutputInfo {
    pub name: String,
    pub active: bool,
    pub focused: bool,
    pub visible_workspace: Option<String>,
}

/// Why an operation could not be carried out.
#[derive(Debug, Clone, Copy, PartialEq, Eq)]
pub enum SwaylessError {
    /// The window manager reported no output holding input focus.
    NoFocusedOutput,
    /// The target output of an adjacent-output move shows no visible
    /// workspace.
    NoVisibleWorkspace,
}

} // verus!
