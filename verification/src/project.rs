//! Project entries as the launcher stores them.

use vstd::prelude::*;

verus! {

/// The file a project's definition lives in.
#[derive(Clone, Debug)]
pub struct ProjectDataFile(pub String);

/// One project of the start screen.
#[derive(Clone, Debug)]
pub struct ProjectFileData {
    pub name: String,
    /// `None` asks for an automatically determined keybinding.
    pub keybind: Option<String>,
    pub project_data_file: ProjectDataFile,
}

} // verus!
