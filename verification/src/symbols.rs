//! Symbol and stack-size extraction: the per-function stack-size records
//! of a relocatable object, and the defined and undefined symbols of the
//! linked executable, with the post-processing the analysis needs.

use vstd::prelude::*;
use crate::names::{strip_version, strip_version_spec};

verus! {

/// A defined symbol: its address, every name at that address, its size.
pub struct ExeSymbol {
    pub address: u64,
    pub names: Vec<String>,
    pub size: u64,
}

/// The symbols of the linked executable.
pub struct ExeSymbols {
    pub defined: Vec<ExeSymbol>,
    pub undefined: Vec<String>,
}

/// The views of a list of names.
pub open spec fn strs_view(s: Seq<String>) -> Seq<Seq<char>> {
    s.map_values(|n: String| n@)
}

/// Normalizes freshly decoded symbols for the analysis: on a Thumb
/// target the low bit of every defined address is cleared (it encodes
/// the instruction-set mode, not an address), and versioning suffixes
/// are stripped from every undefined name.  Everything else passes
/// through position by position.
pub fn normalize_symbols(syms: ExeSymbols, thumb: bool) -> (r: ExeSymbols)
    ensures
        r.defined@.len() == syms.defined@.len(),
        forall|i: int|
            0 <= i < syms.defined@.len() ==> {
                let pre = syms.defined@[i];
                let post = (#[trigger] r.defined@[i]);
                &&& post.address == (if thumb {
                    pre.address & !1u64
                } else {
                    pre.address
                })
                &&& post.names == pre.names
                &&& post.size == pre.size
            },
        r.undefined@.len() == syms.undefined@.len(),
        forall|i: int| 0 <= i < syms.undefined@.len() ==> (#[trigger] r.undefined@[i])@
            == strip_version_spec(syms.undefined@[i]@),
{
    let mut syms = syms;
    let ghost def0 = syms.defined@;
    let ghost undef0 = syms.undefined@;
    if thumb {
        let mut newdef: Vec<ExeSymbol> = Vec::new();
        while syms.defined.len() > 0
            invariant
                syms.undefined@ == undef0,
                newdef@.len() + syms.defined@.len() == def0.len(),
                syms.defined@ == def0.skip(newdef@.len() as int),
                forall|j: int|
                    0 <= j < newdef@.len() ==> {
                        let pre = def0[j];
                        let post = (#[trigger] newdef@[j]);
                        &&& post.address == (pre.address & !1u64)
                        &&& post.names == pre.names
                        &&& post.size == pre.size
                    },
            decreases syms.defined@.len(),
        {
            let ghost k = newdef@.len() as int;
            let s = syms.defined.remove(0);
            proof {
                assert(s == def0.skip(k)[0]);
                assert(def0.skip(k)[0] == def0[k]);
                assert(def0.skip(k).remove(0) =~= def0.skip(k + 1));
            }
            newdef.push(ExeSymbol { address: s.address & !1u64, names: s.names, size: s.size });
        }
        syms.defined = newdef;
    }
    let n = syms.undefined.len();
    let mut stripped: Vec<String> = Vec::new();
    let mut i: usize = 0;
    while i < n
        invariant
            i <= n,
            n == syms.undefined@.len(),
            syms.undefined@ == undef0,
            syms.defined@.len() == def0.len(),
            forall|j: int|
                0 <= j < def0.len() ==> {
                    let pre = def0[j];
                    let post = (#[trigger] syms.defined@[j]);
                    &&& post.address == (if thumb {
                        pre.address & !1u64
                    } else {
                        pre.address
                    })
                    &&& post.names == pre.names
                    &&& post.size == pre.size
                },
            stripped@.len() == i,
            forall|j: int| 0 <= j < i ==> (#[trigger] stripped@[j])@ == strip_version_spec(
                undef0[j]@,
            ),
        decreases n - i,
    {
        stripped.push(strip_version(syms.undefined[i].as_str()));
        i = i + 1;
    }
    syms.undefined = stripped;
    syms
}

} // verus!
