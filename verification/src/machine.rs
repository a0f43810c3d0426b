//! Reconciliation of the two stack measurements: what the compiler's
//! stack-size records claim and what the disassembler proved.  The
//! measurements must agree; one known exception (a hand-written
//! assembly body reported as zero) is overridden in the disassembler's
//! favor.

use vstd::prelude::*;
use crate::metrics::Local;

verus! {

/// What a mapping symbol marks inside a function body.
#[derive(Clone, Copy, Debug, PartialEq, Eq, Structural)]
pub enum Tag {
    /// A `$d` symbol: data follows.
    Data,
    /// A `$t` symbol: Thumb code follows.
    Thumb,
}

/// The mode tags among a symbol listing: each `$d`-named entry as a
/// data tag, each `$t`-named entry as a Thumb tag, in listing order.
pub open spec fn spec_mode_tags(syms: Seq<(u64, String)>) -> Seq<(u64, Tag)>
    decreases syms,
{
    if syms.len() == 0 {
        Seq::empty()
    } else {
        let init = spec_mode_tags(syms.drop_last());
        let (addr, name) = syms.last();
        if crate::chars::is_prefix("$d"@, name@) {
            init.push((addr, Tag::Data))
        } else if crate::chars::is_prefix("$t"@, name@) {
            init.push((addr, Tag::Thumb))
        } else {
            init
        }
    }
}

/// Filters the mapping symbols (`$d…`, `$t…`) out of a symbol listing.
pub fn classify_mode_tags(syms: &Vec<(u64, String)>) -> (r: Vec<(u64, Tag)>)
    ensures
        r@ == spec_mode_tags(syms@),
{
    proof {
        reveal_strlit("$d");
        reveal_strlit("$t");
    }
    let mut r: Vec<(u64, Tag)> = Vec::new();
    let n = syms.len();
    let mut i: usize = 0;
    while i < n
        invariant
            i <= n,
            n == syms@.len(),
            r@ == spec_mode_tags(syms@.take(i as int)),
        decreases n - i,
    {
        proof {
            assert(syms@.take(i + 1).drop_last() =~= syms@.take(i as int));
            assert(syms@.take(i + 1).last() == syms@[i as int]);
        }
        let dv = crate::chars::chars_of("$d");
        let tv = crate::chars::chars_of("$t");
        let namev = crate::chars::chars_of(syms[i].1.as_str());
        if crate::chars::starts_with(namev.as_slice(), dv.as_slice()) {
            r.push((syms[i].0, Tag::Data));
        } else if crate::chars::starts_with(namev.as_slice(), tv.as_slice()) {
            r.push((syms[i].0, Tag::Thumb));
        }
        proof {
            assert(r@ =~= spec_mode_tags(syms@.take(i + 1)));
        }
        i = i + 1;
    }
    proof {
        assert(syms@.take(n as int) =~= syms@);
    }
    r
}

/// There is a Thumb tag exactly at this address.
pub open spec fn thumb_tag_at(tags: Seq<(u64, Tag)>, a: u64) -> bool {
    exists|i: int| 0 <= i < tags.len() && #[trigger] tags[i] == (a, Tag::Thumb)
}

/// `m` is the least tag address strictly above `a`.
pub open spec fn is_min_above(tags: Seq<(u64, Tag)>, a: u64, m: u64) -> bool {
    (exists|i: int| 0 <= i < tags.len() && (#[trigger] tags[i]).0 == m) && m > a && forall|
        i: int,
    | 0 <= i < tags.len() && (#[trigger] tags[i]).0 > a ==> tags[i].0 >= m
}

/// The symbol-size fallback of the acquisition pass: a zero-sized
/// symbol whose address carries a Thumb tag, with the next tag above it
/// also Thumb, spans up to that next tag; anything else keeps its size.
pub fn symbol_size_fallback(address: u64, size: u64, tags: &Vec<(u64, Tag)>) -> (r: u64)
    ensures
        size != 0 ==> r == size,
        size == 0 ==> ((exists|m: u64|
            #[trigger] is_min_above(tags@, address, m) && thumb_tag_at(tags@, address)
                && thumb_tag_at(tags@, m) && r == m - address) || (r == 0 && !(exists|m: u64|
            #[trigger] is_min_above(tags@, address, m) && thumb_tag_at(tags@, address)
                && thumb_tag_at(tags@, m)))),
{
    if size != 0 {
        return size;
    }
    let n = tags.len();
    // is there a Thumb tag at the symbol's own address?
    let mut here = false;
    let mut i: usize = 0;
    while i < n
        invariant
            i <= n,
            n == tags@.len(),
            here == exists|j: int| 0 <= j < i && #[trigger] tags@[j] == (address, Tag::Thumb),
        decreases n - i,
    {
        let (a, t) = tags[i];
        if a == address && matches!(t, Tag::Thumb) {
            here = true;
        }
        i = i + 1;
    }
    if !here {
        proof {
            assert(!thumb_tag_at(tags@, address));
        }
        return 0;
    }
    // the least tag address above the symbol's
    let mut best: Option<u64> = None;
    let mut i: usize = 0;
    while i < n
        invariant
            i <= n,
            n == tags@.len(),
            match best {
                None => forall|j: int| 0 <= j < i ==> (#[trigger] tags@[j]).0 <= address,
                Some(b) => b > address && (exists|j: int|
                    0 <= j < tags@.len() && (#[trigger] tags@[j]).0 == b) && forall|j: int|
                    0 <= j < i && (#[trigger] tags@[j]).0 > address ==> tags@[j].0 >= b,
            },
        decreases n - i,
    {
        let (a, _) = tags[i];
        if a > address {
            match best {
                None => {
                    best = Some(a);
                }
                Some(b) => {
                    if a < b {
                        best = Some(a);
                    }
                }
            }
        }
        i = i + 1;
    }
    match best {
        None => {
            proof {
                assert forall|m: u64| !(#[trigger] is_min_above(tags@, address, m)) by {
                    if is_min_above(tags@, address, m) {
                        let j = choose|j: int|
                            0 <= j < tags@.len() && (#[trigger] tags@[j]).0 == m;
                        assert(tags@[j].0 <= address);
                    }
                }
            }
            0
        }
        Some(m) => {
            proof {
                assert(is_min_above(tags@, address, m));
                assert forall|m2: u64|
                    #[trigger] is_min_above(tags@, address, m2) implies m2 == m by {
                    let j = choose|j: int| 0 <= j < tags@.len() && (#[trigger] tags@[j]).0 == m2;
                    assert(tags@[j].0 >= m);
                    let k = choose|k: int| 0 <= k < tags@.len() && (#[trigger] tags@[k]).0 == m;
                    assert(tags@[k].0 >= m2);
                }
            }
            // the next tag must be Thumb too for the span to be code
            let mut next_thumb = false;
            let mut i: usize = 0;
            while i < n
                invariant
                    i <= n,
                    n == tags@.len(),
                    next_thumb == exists|j: int|
                        0 <= j < i && #[trigger] tags@[j] == (m, Tag::Thumb),
                decreases n - i,
            {
                let (a, t) = tags[i];
                if a == m && matches!(t, Tag::Thumb) {
                    next_thumb = true;
                }
                i = i + 1;
            }
            if next_thumb {
                m - address
            } else {
                proof {
                    assert(!thumb_tag_at(tags@, m));
                }
                0
            }
        }
    }
}

/// The byte window of one function inside the text section: its offset
/// and end, when the section really contains it.
pub fn code_range(address: u64, size: u64, stext: u64, text_len: usize) -> (r: Option<
    (usize, usize),
>)
    ensures
        match r {
            Some((start, end)) => address >= stext && (start as int) == address - stext && (
            end as int) == address - stext + size && end <= text_len,
            None => address < stext || address - stext + size > text_len,
        },
{
    if address < stext {
        return None;
    }
    let off = address - stext;
    if off > text_len as u64 {
        return None;
    }
    if size > text_len as u64 - off {
        return None;
    }
    Some((off as usize, (off + size) as usize))
}

/// What the machine-code analysis reported for one function body.
pub struct MachineSummary {
    /// Signed offsets of branch-and-link (call) instructions.
    pub bl_offsets: Vec<i32>,
    /// Signed offsets of plain branch instructions.
    pub b_offsets: Vec<i32>,
    /// The body holds a register-indirect branch whose target is
    /// unknown.
    pub indirect: bool,
    /// Some instruction adjusts the stack pointer.
    pub modifies_sp: bool,
    /// Exact local stack growth, when a single answer could be proven.
    pub local: Option<u64>,
}

/// The two measurements contradict each other.
#[derive(Clone, Copy, Debug, PartialEq, Eq, Structural)]
pub enum ConsistencyViolation {
    /// The disassembler reported both a stack size and an
    /// incompatible stack-pointer flag.
    SelfCheck,
    /// The compiler and the disassembler disagree on the frame size.
    SizeMismatch,
    /// The compiler's frame size contradicts the stack-pointer flag.
    SpMismatch,
}

/// The outcome of reconciling one function.
#[derive(Clone, Copy, Debug, PartialEq, Eq, Structural)]
pub struct Reconciled {
    /// The frame size to trust from here on.
    pub local: Local,
    /// The compiler's zero was overridden by the disassembler.
    pub overrode: bool,
}

/// What reconciling the compiler's frame size with the disassembler's
/// must yield:
/// - a disassembler answer contradicting its own stack-pointer flag is
///   a `SelfCheck` violation;
/// - a compiler zero against a nonzero disassembler answer is
///   overridden (a hand-written assembly body);
/// - any other disagreement of two exact answers is a `SizeMismatch`;
/// - an exact compiler answer must match the stack-pointer flag, else
///   `SpMismatch`;
/// - with no compiler answer, the disassembler's answer is adopted,
///   and a body that provably never moves the stack pointer is exactly
///   zero.
pub open spec fn spec_reconcile(llvm: Local, modifies_sp: bool, our: Option<u64>) -> Result<
    Reconciled,
    ConsistencyViolation,
> {
    if our is Some && ((our->Some_0 != 0) != modifies_sp) {
        Err(ConsistencyViolation::SelfCheck)
    } else {
        match llvm {
            Local::Exact(l) => {
                let after = if our is Some && l == 0 && our->Some_0 != 0 {
                    our->Some_0
                } else {
                    l
                };
                if our is Some && !(l == 0 && our->Some_0 != 0) && l != our->Some_0 {
                    Err(ConsistencyViolation::SizeMismatch)
                } else if (after != 0) != modifies_sp {
                    Err(ConsistencyViolation::SpMismatch)
                } else {
                    Ok(
                        Reconciled {
                            local: Local::Exact(after),
                            overrode: after != l,
                        },
                    )
                }
            }
            Local::Unknown => {
                match our {
                    Some(s) => Ok(Reconciled { local: Local::Exact(s), overrode: false }),
                    None => if !modifies_sp {
                        Ok(Reconciled { local: Local::Exact(0), overrode: false })
                    } else {
                        Ok(Reconciled { local: Local::Unknown, overrode: false })
                    },
                }
            }
        }
    }
}

/// Reconciles the compiler's frame size with the disassembler's
/// measurement for one function.
pub fn reconcile_local(llvm: Local, modifies_sp: bool, our: Option<u64>) -> (r: Result<
    Reconciled,
    ConsistencyViolation,
>)
    ensures
        r == spec_reconcile(llvm, modifies_sp, our),
{
    if let Some(s) = our {
        if (s != 0) != modifies_sp {
            return Err(ConsistencyViolation::SelfCheck);
        }
    }
    match llvm {
        Local::Exact(l) => {
            let mut after = l;
            let mut overrode = false;
            if let Some(s) = our {
                if l == 0 && s != 0 {
                    after = s;
                    overrode = true;
                } else if l != s {
                    return Err(ConsistencyViolation::SizeMismatch);
                }
            }
            if (after != 0) != modifies_sp {
                Err(ConsistencyViolation::SpMismatch)
            } else {
                Ok(Reconciled { local: Local::Exact(after), overrode })
            }
        }
        Local::Unknown => {
            match our {
                Some(s) => Ok(Reconciled { local: Local::Exact(s), overrode: false }),
                None => if !modifies_sp {
                    Ok(Reconciled { local: Local::Exact(0), overrode: false })
                } else {
                    Ok(Reconciled { local: Local::Unknown, overrode: false })
                },
            }
        }
    }
}

/// When both sides report a nonzero frame and reconciliation accepts,
/// the two reports were equal.
pub proof fn lemma_nonzero_agreement(l: u64, modifies_sp: bool, s: u64)
    requires
        l != 0,
        s != 0,
        spec_reconcile(Local::Exact(l), modifies_sp, Some(s)) is Ok,
    ensures
        l == s,
{
}

} // verus!
