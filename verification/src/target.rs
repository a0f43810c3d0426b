//! The instruction-set targets the machine-code analysis understands.

use vstd::prelude::*;
use crate::chars::str_eq;

verus! {

/// Instruction-set family of the compilation target.
#[derive(Clone, Copy, Debug, PartialEq, Eq, Structural)]
pub enum Target {
    Other,
    Thumbv6m,
    Thumbv7m,
}

/// The triples that select each Thumb family.
pub open spec fn spec_target_of(triple: Seq<char>) -> Target {
    if triple == "thumbv6m-none-eabi"@ {
        Target::Thumbv6m
    } else if triple == "thumbv7m-none-eabi"@ || triple == "thumbv7em-none-eabi"@ || triple
        == "thumbv7em-none-eabihf"@ {
        Target::Thumbv7m
    } else {
        Target::Other
    }
}

impl Target {
    /// Does the target use the Thumb instruction encoding, so that the
    /// machine code can be analyzed?
    pub fn is_thumb(&self) -> (r: bool)
        ensures
            r == (*self is Thumbv6m || *self is Thumbv7m),
    {
        match *self {
            Target::Thumbv6m | Target::Thumbv7m => true,
            Target::Other => false,
        }
    }

    /// Classifies a target triple.
    pub fn from_triple(triple: &str) -> (r: Target)
        ensures
            r == spec_target_of(triple@),
    {
        proof {
            reveal_strlit("thumbv6m-none-eabi");
            reveal_strlit("thumbv7m-none-eabi");
            reveal_strlit("thumbv7em-none-eabi");
            reveal_strlit("thumbv7em-none-eabihf");
        }
        if str_eq(triple, "thumbv6m-none-eabi") {
            Target::Thumbv6m
        } else if str_eq(triple, "thumbv7m-none-eabi") || str_eq(triple, "thumbv7em-none-eabi")
            || str_eq(triple, "thumbv7em-none-eabihf") {
            Target::Thumbv7m
        } else {
            Target::Other
        }
    }
}

} // verus!
