//! Demangling of compiler-mangled symbol names, through the demangler
//! the compiler project publishes.

use vstd::prelude::*;

verus! {

/// What demangling yields for a given symbol name; the demangled form
/// depends on the characters of the name alone.
pub uninterp spec fn demangled_of(s: Seq<char>) -> Seq<char>;

/// Relies on `rustc_demangle::demangle`: renders the demangled form of
/// the symbol name, a pure function of the name.
#[verifier::external_body]
pub(crate) fn demangle(name: &str) -> (r: String)
    ensures
        r@ == demangled_of(name@),
{
    rustc_demangle::demangle(name).to_string()
}

/// The demangled form of a whole `String` name.
pub fn demangled(name: &String) -> (r: String)
    ensures
        r@ == demangled_of(name@),
{
    demangle(name.as_str())
}

} // verus!
