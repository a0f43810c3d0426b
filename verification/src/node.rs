//! A call-graph node: a display name, the function's own stack usage,
//! the computed chain bound, and a flag marking synthetic dispatch nodes.

use vstd::prelude::*;
use crate::metrics::{Local, Max};

verus! {

/// One vertex of the call graph.
pub struct Node {
    /// Mangled (or synthesized) display name.
    pub name: String,
    /// The function's own stack frame.
    pub local: Local,
    /// The computed bound over all call chains from here, once analysis
    /// has run.
    pub max: Option<Max>,
    /// True for synthetic dispatch nodes, drawn dashed.
    pub dashed: bool,
}

/// Makes a node from a name and an optional exact stack size; the bound
/// starts out uncomputed.
#[allow(non_snake_case)]
pub fn Node(name: String, stack: Option<u64>, dashed: bool) -> (r: Node)
    ensures
        r.name == name,
        r.local == (match stack {
            Some(n) => Local::Exact(n),
            None => Local::Unknown,
        }),
        r.max is None,
        r.dashed == dashed,
{
    Node {
        name,
        local: match stack {
            Some(n) => Local::Exact(n),
            None => Local::Unknown,
        },
        max: None,
        dashed,
    }
}

impl Node {
    /// A copy of this node.
    pub fn duplicate(&self) -> (r: Node)
        ensures
            r.name@ == self.name@,
            r.local == self.local,
            r.max == self.max,
            r.dashed == self.dashed,
    {
        Node {
            name: self.name.clone(),
            local: self.local,
            max: self.max,
            dashed: self.dashed,
        }
    }
}

} // verus!
