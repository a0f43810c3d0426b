//! The data model of the compiler's textual intermediate representation,
//! as the call-graph builder consumes it: function definitions with
//! their statements, declarations, and numbered metadata nodes.

use vstd::prelude::*;
use crate::sig::FnSig;

verus! {

/// A metadata reference attached to a definition or a call site:
/// a kind name and a numeric id.
#[derive(Debug)]
pub struct MetaRef {
    pub kind: String,
    pub id: u64,
}

/// A numbered metadata node's decoded payload.
#[derive(Debug)]
pub enum MetadataKind {
    /// A call-site shape, named by its printable signature.
    Fn { sig_name: String },
    /// A virtual dispatch site: trait and method.
    Dyn { trait_name: String, method: String },
    /// A virtual destructor site.
    Drop { trait_name: String },
    /// A union of other metadata nodes.
    Group { ids: Vec<u64> },
    /// An unrecognized kind, preserved but never consulted.
    Other,
}

/// One statement of a function body, as far as call-graph construction
/// cares.
#[derive(Debug)]
pub enum Stmt {
    /// An inline-assembly blob.
    Asm(String),
    /// A direct call to the named symbol.
    DirectCall(String),
    /// An indirect call with its call-site signature and metadata.
    IndirectCall(FnSig, Vec<MetaRef>),
    /// A bitcast-then-call of the named symbol, if it was named.
    BitcastCall(Option<String>),
    /// Anything else: no call edge.
    Other,
}

/// A function definition.
#[derive(Debug)]
pub struct Define {
    pub name: String,
    pub sig: FnSig,
    pub stmts: Vec<Stmt>,
    pub meta: Vec<MetaRef>,
}

/// A declaration of an external function.
#[derive(Debug)]
pub struct Declare {
    pub name: String,
    pub sig: Option<FnSig>,
}

/// One top-level item.
#[derive(Debug)]
pub enum Item {
    Define(Define),
    Declare(Declare),
    Metadata { id: u64, kind: MetadataKind },
    Other,
}

} // verus!
