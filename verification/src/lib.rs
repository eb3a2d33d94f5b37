//! The core of a sandboxing project launcher: a normalizing tree of
//! filesystem whitelist entries, the synthesis of the namespace-isolation
//! tool's argument list from it, a seccomp guard against terminal-injection
//! ioctls, and the checked decisions behind process detachment and exit-code
//! forwarding. Plain configuration data and the placeholder substitution of
//! configured paths live beside them.

use vstd::prelude::*;

mod strutil;

pub mod action;
pub mod command;
pub mod environment;
pub mod manpage;
pub mod options;
pub mod parse_data;
pub mod path_util;
pub mod project;
pub mod sandbox;
pub mod seccomp;
pub mod tree;
pub mod tui;
pub mod ui;

verus! {

} // verus!
