//! The data the start screen renders; drawing stays with the caller.

use vstd::prelude::*;

verus! {

/// A labelled button with its keybinding and the value it yields.
#[derive(Clone, Debug)]
pub struct Button<U> {
    pub keybind: String,
    pub text: String,
    pub action: U,
}

/// A heading with its buttons.
#[derive(Clone, Debug)]
pub struct Section<U> {
    pub heading: String,
    pub buttons: Vec<Button<U>>,
}

/// What the user chose.
#[derive(Clone, Debug)]
pub enum UserSelection<U> {
    Button(U),
    ControlC,
}

} // verus!
