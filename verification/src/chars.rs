//! Character-level string utilities.
//!
//! Symbol names are examined character by character: the functions here
//! turn a `&str` into its characters, compare and search character
//! slices, and build a `String` back up from characters.

use vstd::prelude::*;
use vstd::std_specs::iter::IteratorSpec;

verus! {

broadcast use vstd::string::axiom_spec_iter, vstd::string::next_postcondition;

/// Relies on `String::push`: appends exactly one character.
#[verifier::external_body]
pub fn push_char(s: &mut String, c: char)
    ensures
        final(s)@ == old(s)@.push(c),
{
    s.push(c);
}

/// The characters of a string slice, in order.
pub fn chars_of(s: &str) -> (r: Vec<char>)
    ensures
        r@ == s@,
{
    let mut it = s.chars();
    let mut r: Vec<char> = Vec::new();
    loop
        invariant_except_break
            r@ + it.remaining() =~= s@,
            it.decrease() is Some,
        ensures
            r@ == s@,
        decreases it.decrease()->Some_0,
    {
        let ghost prev = it.remaining();
        match it.next() {
            Some(c) => {
                proof {
                    assert(r@.push(c) + prev.drop_first() =~= r@ + prev);
                }
                r.push(c);
            }
            None => {
                proof {
                    assert(r@ =~= s@);
                }
                break;
            }
        }
    }
    r
}

/// Builds a `String` out of a character slice.
pub fn string_from_chars(v: &[char]) -> (r: String)
    ensures
        r@ == v@,
{
    let mut r = String::new();
    let n = v.len();
    let mut i: usize = 0;
    while i < n
        invariant
            i <= n,
            n == v@.len(),
            r@ == v@.take(i as int),
        decreases n - i,
    {
        push_char(&mut r, v[i]);
        proof {
            assert(v@.take(i as int).push(v@[i as int]) =~= v@.take(i + 1));
        }
        i = i + 1;
    }
    proof {
        assert(v@.take(n as int) =~= v@);
    }
    r
}

/// Character-wise equality of two slices.
pub fn slice_eq(a: &[char], b: &[char]) -> (r: bool)
    ensures
        r == (a@ == b@),
{
    let n = a.len();
    if n != b.len() {
        return false;
    }
    let mut i: usize = 0;
    while i < n
        invariant
            i <= n,
            n == a@.len() == b@.len(),
            forall|j: int| 0 <= j < i ==> a@[j] == b@[j],
        decreases n - i,
    {
        if a[i] != b[i] {
            return false;
        }
        i = i + 1;
    }
    proof {
        assert(a@ =~= b@);
    }
    true
}

/// Character-wise equality of two string slices.
pub fn str_eq(a: &str, b: &str) -> (r: bool)
    ensures
        r == (a@ == b@),
{
    let va = chars_of(a);
    let vb = chars_of(b);
    slice_eq(va.as_slice(), vb.as_slice())
}

/// `p` is a prefix of `s`.
pub open spec fn is_prefix(p: Seq<char>, s: Seq<char>) -> bool {
    p.len() <= s.len() && s.take(p.len() as int) == p
}

/// `p` occurs in `s` starting at position `i`.
pub open spec fn matches_at(s: Seq<char>, p: Seq<char>, i: int) -> bool {
    0 <= i && i + p.len() <= s.len() && s.subrange(i, i + p.len()) == p
}

/// `p` occurs somewhere in `s`.
pub open spec fn contains_sub_spec(s: Seq<char>, p: Seq<char>) -> bool {
    exists|i: int| matches_at(s, p, i)
}

/// Does `s` start with `p`?
pub fn starts_with(s: &[char], p: &[char]) -> (r: bool)
    ensures
        r == is_prefix(p@, s@),
{
    let np = p.len();
    if np > s.len() {
        proof {
            assert(!is_prefix(p@, s@));
        }
        return false;
    }
    let mut i: usize = 0;
    while i < np
        invariant
            i <= np,
            np == p@.len() <= s@.len(),
            forall|j: int| 0 <= j < i ==> s@[j] == p@[j],
        decreases np - i,
    {
        if s[i] != p[i] {
            proof {
                assert(s@.take(np as int)[i as int] != p@[i as int]);
            }
            return false;
        }
        i = i + 1;
    }
    proof {
        assert(s@.take(np as int) =~= p@);
    }
    true
}

/// The first position where `p` occurs in `s`, if any.
pub fn find_sub(s: &[char], p: &[char]) -> (r: Option<usize>)
    ensures
        match r {
            Some(i) => matches_at(s@, p@, i as int) && forall|j: int|
                0 <= j < i ==> !matches_at(s@, p@, j),
            None => !contains_sub_spec(s@, p@),
        },
{
    let ns = s.len();
    let np = p.len();
    if np > ns {
        return None;
    }
    if np == 0 {
        proof {
            assert(s@.subrange(0, 0) =~= p@);
        }
        return Some(0);
    }
    let mut i: usize = 0;
    while i <= ns - np
        invariant
            0 < np <= ns,
            ns == s@.len(),
            np == p@.len(),
            i <= ns - np + 1,
            forall|j: int| 0 <= j < i ==> !matches_at(s@, p@, j),
        decreases ns - np + 1 - i,
    {
        let mut k: usize = 0;
        let mut hit = true;
        while k < np
            invariant
                k <= np,
                i + np <= ns,
                ns == s@.len(),
                np == p@.len(),
                hit ==> forall|j: int| 0 <= j < k ==> s@[i + j] == p@[j],
                !hit ==> !matches_at(s@, p@, i as int),
            decreases np - k,
        {
            if s[i + k] != p[k] {
                proof {
                    if matches_at(s@, p@, i as int) {
                        assert(s@.subrange(i as int, i + np)[k as int] == p@[k as int]);
                    }
                }
                hit = false;
                k = np;
            } else {
                k = k + 1;
            }
        }
        if hit {
            proof {
                assert(s@.subrange(i as int, i + np) =~= p@);
            }
            return Some(i);
        }
        i = i + 1;
    }
    proof {
        assert forall|j: int| !matches_at(s@, p@, j) by {
            if matches_at(s@, p@, j) {
                assert(0 <= j < ns - np + 1);
            }
        }
    }
    None
}

/// Does `p` occur anywhere in `s`?
pub fn contains_sub(s: &[char], p: &[char]) -> (r: bool)
    ensures
        r == contains_sub_spec(s@, p@),
{
    match find_sub(s, p) {
        Some(_) => true,
        None => false,
    }
}

} // verus!
