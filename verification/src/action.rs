//! What a selection in the start screen runs.

use vstd::prelude::*;

verus! {

/// A plain command line to run, optionally detached.
#[derive(Clone, Debug)]
pub struct Command {
    pub command: Vec<String>,
    pub detach: bool,
}

/// What happens when an entry is chosen: run a command, or open a project.
#[derive(Clone, Debug)]
pub enum Action {
    Run(Command),
    OpenProject(crate::parse_data::ProjectDataFuture),
}

} // verus!
