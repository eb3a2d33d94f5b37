//! Small helpers of the configuration layer that the parser builds on.

use vstd::prelude::*;

verus! {

/// Identifies a configuration file in diagnostics.
#[derive(Copy, Clone, Debug, PartialEq, Eq, Structural)]
pub struct FileId(pub usize);

/// Precedence of a configuration value; higher wins.
#[derive(Copy, Clone, Debug, Default, PartialEq, Eq, PartialOrd, Ord, Structural)]
pub struct Priority(pub i64);

/// A configuration option that accepts a key without using its value,
/// suppressing unknown-option diagnostics for keys handled elsewhere.
#[derive(Clone, Debug)]
pub struct MockOption {
    name: String,
}

impl MockOption {
    /// The name of the key this option swallows.
    pub closed spec fn spec_name(self) -> Seq<char> {
        self.name@
    }

    pub fn new(name: &str) -> (r: Self)
        ensures
            r.spec_name() == name@,
    {
        MockOption { name: name.to_owned() }
    }

    /// Whether this option would accept the key.
    pub fn would_eat(&self, key_name: &String) -> (r: bool)
        ensures
            r == (self.spec_name() == key_name@),
    {
        self.name == *key_name
    }
}

} // verus!
