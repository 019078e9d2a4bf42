//! Core of a dotfiles manager: links between a project directory and
//! destinations on a machine, addressed per "system" (host/platform identity),
//! plus named goals that bundle links and depend on other goals.
//!
//! The resolution model (which concrete path applies for a given active
//! system), the mutation operations on a link's source-file union, the
//! variable-reference substitution in paths, and the goal dependency closure
//! are all verified here. File I/O, process handling and the command-line
//! surface live outside the library.

pub mod actions;
pub mod config;
pub mod goals;
pub mod link;
pub mod packages;
pub mod strmap;
pub mod util;

use vstd::prelude::*;

verus! {

/// An opaque identifier for a target machine or platform class.
#[derive(Debug, Clone)]
pub struct System(pub String);

impl View for System {
    type V = Seq<char>;

    open spec fn view(&self) -> Seq<char> {
        self.0@
    }
}

impl DeepView for System {
    type V = Seq<char>;

    open spec fn deep_view(&self) -> Seq<char> {
        self.0@
    }
}

impl System {
    /// Every string names a system; no validation is involved.
    pub fn from_str(s: &str) -> (r: System)
        ensures
            r@ == s@,
    {
        System(s.to_owned())
    }
}

impl PartialEq for System {
    fn eq(&self, other: &System) -> (r: bool) {
        self.0 == other.0
    }
}

impl vstd::std_specs::cmp::PartialEqSpecImpl for System {
    open spec fn obeys_eq_spec() -> bool {
        true
    }

    open spec fn eq_spec(&self, other: &System) -> bool {
        self.0@ == other.0@
    }
}

} // verus!
