//! Input-facing markers and action sets.
use crate::markers::Marker;
use vstd::prelude::*;

verus! {

/// Tags the object that carries the client's input controller.
#[derive(Debug, Clone, Copy)]
pub struct ClientController;

impl Marker for ClientController {
    open spec fn key_spec() -> Seq<char> {
        "ns_core::controls::ClientController"@
    }

    fn type_path() -> (r: String) {
        String::from_str("ns_core::controls::ClientController")
    }
}

/// The actions every client has.
#[derive(PartialEq, Eq, Structural, Debug, Clone, Copy, Hash)]
pub enum CoreActions {
    /// Switches developer mode on or off.
    ToggleDevMode,
}

/// The actions of developer mode.
#[derive(PartialEq, Eq, Structural, Debug, Clone, Copy, Hash)]
pub enum DevActions {
    /// Opens the developer modal.
    OpenDevModal,
}

} // verus!
