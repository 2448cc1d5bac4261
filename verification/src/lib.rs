//! Per-output workspace tags for a tiling window manager.
//!
//! The window manager itself has one flat namespace of workspaces. This
//! library layers a per-output notion of a short logical *tag* on top of it:
//! a `(tag, output ordinal)` pair is rendered into a concrete workspace name
//! on the wire, containers can be temporarily *borrowed* from another tag
//! onto the one currently focused, and the bookkeeping needed to return them
//! is tracked per output.
//!
//! The library is pure bookkeeping: every operation returns the list of
//! window-manager commands to issue instead of talking to the manager
//! itself. The surrounding daemon performs the queries and runs the
//! commands.

pub mod names;
pub mod swayless;
pub mod swayless_output;
pub mod wm;
