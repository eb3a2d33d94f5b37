//! Plain data handed between the configuration layer and the launcher.

use vstd::prelude::*;

use crate::action::Command;

verus! {

/// Identifies a source file in diagnostics.
#[derive(Copy, Clone, Debug, PartialEq, Eq, Structural)]
pub struct FileId(pub usize);

/// A project reference whose file is parsed only when the user picks it.
#[derive(Clone, Debug)]
pub enum ProjectDataFuture {
    Project(String),
    Bookmark(String),
}

/// A selectable project entry.
#[derive(Clone, Debug)]
pub struct ProjectButtonData {
    pub name: String,
    pub project_data: ProjectDataFuture,
}

/// A bookmark with its keybinding.
#[derive(Clone, Debug)]
pub struct BookmarkData {
    pub project_data: ProjectDataFuture,
    pub keybind: String,
    pub name: String,
}

/// A user-defined command entry of the start screen.
#[derive(Clone, Debug)]
pub struct CommandData {
    pub name: String,
    pub keybind: String,
    pub command: Command,
}

} // verus!
