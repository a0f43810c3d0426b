//! Symbol-name handling: location-marker tags, uniqueness-hash stripping,
//! and version-suffix stripping.

use vstd::prelude::*;
use crate::chars::{
    chars_of, contains_sub, contains_sub_spec, find_sub, is_prefix, matches_at, slice_eq,
    starts_with, string_from_chars,
};

verus! {

/// Is `c` an ASCII decimal digit?
pub open spec fn is_digit(c: char) -> bool {
    ('0' as u32) <= (c as u32) && (c as u32) <= ('9' as u32)
}

/// Numeric value of a digit character.
pub open spec fn digit_val(c: char) -> nat {
    ((c as u32) - ('0' as u32)) as nat
}

/// Value of a digit string, most significant digit first.
pub open spec fn digits_value(s: Seq<char>) -> nat
    decreases s.len(),
{
    if s.len() == 0 {
        0
    } else {
        digits_value(s.drop_last()) * 10 + digit_val(s.last())
    }
}

/// Every character is a decimal digit.
pub open spec fn all_digits(s: Seq<char>) -> bool {
    forall|i: int| 0 <= i < s.len() ==> is_digit(s[i])
}

/// Does `s` parse as a `u64` the way `str::parse` does: an optional
/// leading `+`, then at least one digit, with a value that fits?
pub open spec fn parses_as_u64(s: Seq<char>) -> bool {
    let body = if s.len() > 0 && s[0] == '+' {
        s.drop_first()
    } else {
        s
    };
    body.len() > 0 && all_digits(body) && digits_value(body) <= u64::MAX
}

/// Appending digits never shrinks the value.
proof fn lemma_digits_value_prefix_le(s: Seq<char>, i: int)
    requires
        0 <= i <= s.len(),
    ensures
        digits_value(s.take(i)) <= digits_value(s),
    decreases s.len() - i,
{
    if i < s.len() {
        lemma_digits_value_prefix_le(s, i + 1);
        assert(s.take(i + 1).drop_last() =~= s.take(i));
        assert(digits_value(s.take(i + 1)) == digits_value(s.take(i)) * 10 + digit_val(
            s.take(i + 1).last(),
        ));
    } else {
        assert(s.take(i) =~= s);
    }
}

/// Value of a digit slice, with an exact overflow report.
pub fn digits_to_u64(s: &[char]) -> (r: Option<u64>)
    ensures
        match r {
            Some(n) => s@.len() > 0 && all_digits(s@) && digits_value(s@) == n,
            None => !(s@.len() > 0 && all_digits(s@) && digits_value(s@) <= u64::MAX),
        },
{
    let n = s.len();
    if n == 0 {
        return None;
    }
    let mut acc: u64 = 0;
    let mut i: usize = 0;
    while i < n
        invariant
            i <= n,
            n == s@.len(),
            forall|j: int| 0 <= j < i ==> is_digit(s@[j]),
            acc == digits_value(s@.take(i as int)),
        decreases n - i,
    {
        let c = s[i];
        let cv = c as u32;
        if cv < 48 || cv > 57 {
            proof {
                assert(!is_digit(s@[i as int]));
            }
            return None;
        }
        let d = (cv - 48) as u64;
        if acc > (u64::MAX - d) / 10 {
            proof {
                assert(s@.take(i + 1).drop_last() =~= s@.take(i as int));
                assert(digits_value(s@.take(i + 1)) == acc * 10 + d);
                assert(acc * 10 + d > u64::MAX) by (nonlinear_arith)
                    requires
                        acc > (u64::MAX - d) / 10,
                        d <= 9,
                ;
                lemma_digits_value_prefix_le(s@, i + 1);
            }
            return None;
        }
        proof {
            assert(acc * 10 + d <= u64::MAX) by (nonlinear_arith)
                requires
                    acc <= (u64::MAX - d) / 10,
                    d <= 9,
            ;
            assert(s@.take(i + 1).drop_last() =~= s@.take(i as int));
        }
        acc = acc * 10 + d;
        i = i + 1;
    }
    proof {
        assert(s@.take(n as int) =~= s@);
    }
    Some(acc)
}

/// Is `c` an ASCII decimal digit?
pub fn decimal_digit(c: char) -> (r: bool)
    ensures
        r == is_digit(c),
{
    let cv = c as u32;
    48 <= cv && cv <= 57
}

/// Does this character slice parse as a `u64`?
pub fn parse_u64_ok(s: &[char]) -> (r: bool)
    ensures
        r == parses_as_u64(s@),
{
    let n = s.len();
    let has_sign = n > 0 && s[0] == '+';
    let start: usize = if has_sign {
        1
    } else {
        0
    };
    let ghost body = if has_sign {
        s@.drop_first()
    } else {
        s@
    };
    let mut digits: Vec<char> = Vec::new();
    let mut i: usize = start;
    while i < n
        invariant
            start <= i <= n,
            n == s@.len(),
            start == (if has_sign { 1int } else { 0int }),
            body == (if has_sign { s@.drop_first() } else { s@ }),
            digits@ == body.take(i - start),
        decreases n - i,
    {
        proof {
            assert(body.take(i - start).push(s@[i as int]) =~= body.take(i + 1 - start));
        }
        digits.push(s[i]);
        i = i + 1;
    }
    proof {
        assert(digits@ =~= body);
    }
    let r = match digits_to_u64(digits.as_slice()) {
        Some(_) => true,
        None => false,
    };
    proof {
        if r {
            assert(parses_as_u64(s@));
        } else {
            assert(!parses_as_u64(s@));
        }
    }
    r
}

/// Is this symbol name a compiler-emitted location marker: `$a`, `$t` or
/// `$d`, optionally suffixed with a dot and a numeral that fits a `u64`?
pub open spec fn spec_is_tag(s: Seq<char>) -> bool {
    s == "$a"@ || s == "$t"@ || s == "$d"@ || ((is_prefix("$a."@, s) || is_prefix("$d."@, s)
        || is_prefix("$t."@, s)) && parses_as_u64(s.skip(3)))
}

/// Recognizes the location-marker tags that the assembler leaves in the
/// symbol table; they never name a real function.
pub fn is_tag(name: &str) -> (r: bool)
    ensures
        r == spec_is_tag(name@),
{
    proof {
        reveal_strlit("$a");
        reveal_strlit("$t");
        reveal_strlit("$d");
        reveal_strlit("$a.");
        reveal_strlit("$d.");
        reveal_strlit("$t.");
    }
    let v = chars_of(name);
    let pa = chars_of("$a");
    let pt = chars_of("$t");
    let pd = chars_of("$d");
    if slice_eq(v.as_slice(), pa.as_slice()) || slice_eq(v.as_slice(), pt.as_slice())
        || slice_eq(v.as_slice(), pd.as_slice()) {
        return true;
    }
    let qa = chars_of("$a.");
    let qd = chars_of("$d.");
    let qt = chars_of("$t.");
    let prefixed = starts_with(v.as_slice(), qa.as_slice()) || starts_with(
        v.as_slice(),
        qd.as_slice(),
    ) || starts_with(v.as_slice(), qt.as_slice());
    if !prefixed {
        return false;
    }
    let mut rest: Vec<char> = Vec::new();
    let n = v.len();
    let mut i: usize = 3;
    while i < n
        invariant
            3 <= i <= n,
            n == v@.len(),
            rest@ == v@.skip(3).take(i - 3),
        decreases n - i,
    {
        proof {
            assert(v@.skip(3).take(i - 3).push(v@[i as int]) =~= v@.skip(3).take(i + 1 - 3));
        }
        rest.push(v[i]);
        i = i + 1;
    }
    proof {
        assert(rest@ =~= v@.skip(3));
    }
    parse_u64_ok(rest.as_slice())
}

/// Is `c` a hexadecimal digit?
pub open spec fn is_hex_digit(c: char) -> bool {
    ||| (('0' as u32) <= (c as u32) && (c as u32) <= ('9' as u32))
    ||| (('a' as u32) <= (c as u32) && (c as u32) <= ('f' as u32))
    ||| (('A' as u32) <= (c as u32) && (c as u32) <= ('F' as u32))
}

/// Every character is a hexadecimal digit.
pub open spec fn all_hex(s: Seq<char>) -> bool {
    forall|i: int| 0 <= i < s.len() ==> is_hex_digit(#[trigger] s[i])
}

/// Is `c` a hexadecimal digit?
pub fn hex_digit(c: char) -> (r: bool)
    ensures
        r == is_hex_digit(c),
{
    let cv = c as u32;
    (48 <= cv && cv <= 57) || (97 <= cv && cv <= 102) || (65 <= cv && cv <= 70)
}

/// Are the last sixteen characters of this slice hexadecimal digits?
fn tail_is_hex(v: &[char]) -> (r: bool)
    requires
        v@.len() >= 16,
    ensures
        r == all_hex(v@.subrange(v@.len() - 16, v@.len() as int)),
{
    let n = v.len();
    let mut i: usize = n - 16;
    while i < n
        invariant
            n - 16 <= i <= n,
            n == v@.len(),
            n >= 16,
            forall|j: int| n - 16 <= j < i ==> is_hex_digit(#[trigger] v@[j]),
        decreases n - i,
    {
        if !hex_digit(v[i]) {
            proof {
                assert(v@.subrange(n - 16, n as int)[i - (n - 16)] == v@[i as int]);
            }
            return false;
        }
        i = i + 1;
    }
    proof {
        assert forall|j: int|
            0 <= j < v@.subrange(n - 16, n as int).len() implies is_hex_digit(
            #[trigger] v@.subrange(n - 16, n as int)[j],
        ) by {
            assert(v@.subrange(n - 16, n as int)[j] == v@[j + n - 16]);
        }
    }
    true
}

/// Is the trailing-hash shape present: more than 19 characters, the
/// last 19 being `::h` followed by 16 hexadecimal digits?
pub open spec fn has_hash_suffix(s: Seq<char>) -> bool {
    s.len() > 19 && s.subrange(s.len() - 19, s.len() - 16) == "::h"@ && all_hex(
        s.subrange(s.len() - 16, s.len() as int),
    )
}

/// Strips a trailing uniqueness hash (`::h` followed by 16 hexadecimal
/// digits) from a demangled name, when one is present.
pub fn dehash(demangled: &str) -> (r: Option<String>)
    ensures
        match r {
            Some(out) => has_hash_suffix(demangled@) && out@ == demangled@.take(
                demangled@.len() - 19,
            ),
            None => !has_hash_suffix(demangled@),
        },
{
    proof {
        reveal_strlit("::h");
    }
    let v = chars_of(demangled);
    let n = v.len();
    if n <= 19 {
        return None;
    }
    let mark = chars_of("::h");
    let mut tail: Vec<char> = Vec::new();
    tail.push(v[n - 19]);
    tail.push(v[n - 18]);
    tail.push(v[n - 17]);
    proof {
        assert(tail@ =~= v@.subrange(n - 19, n - 16));
    }
    if !slice_eq(tail.as_slice(), mark.as_slice()) {
        return None;
    }
    if !tail_is_hex(v.as_slice()) {
        return None;
    }
    let mut head: Vec<char> = Vec::new();
    let k = n - 19;
    let mut i: usize = 0;
    while i < k
        invariant
            i <= k,
            k <= v@.len(),
            head@ == v@.take(i as int),
        decreases k - i,
    {
        proof {
            assert(v@.take(i as int).push(v@[i as int]) =~= v@.take(i + 1));
        }
        head.push(v[i]);
        i = i + 1;
    }
    Some(string_from_chars(head.as_slice()))
}

/// A match of `p` in `s` with none after it.
pub open spec fn is_last_match(s: Seq<char>, p: Seq<char>, i: int) -> bool {
    matches_at(s, p, i) && forall|j: int| j > i ==> !matches_at(s, p, j)
}

/// The rightmost position where `p` occurs in `s`, if any.
pub fn find_sub_last(s: &[char], p: &[char]) -> (r: Option<usize>)
    ensures
        match r {
            Some(i) => is_last_match(s@, p@, i as int),
            None => !contains_sub_spec(s@, p@),
        },
{
    let ns = s.len();
    let np = p.len();
    if np > ns {
        proof {
            assert forall|j: int| !matches_at(s@, p@, j) by {}
        }
        return None;
    }
    if np == 0 {
        proof {
            assert(s@.subrange(ns as int, ns as int) =~= p@);
        }
        return Some(ns);
    }
    let mut i: usize = ns - np + 1;
    while i > 0
        invariant
            i <= ns - np + 1,
            np <= ns,
            ns == s@.len(),
            np == p@.len(),
            forall|j: int| j >= i ==> !matches_at(s@, p@, j),
        decreases i,
    {
        i = i - 1;
        let mut k: usize = 0;
        let mut hit = true;
        while k < np
            invariant
                k <= np,
                i + np <= ns,
                ns == s@.len(),
                np == p@.len(),
                hit ==> forall|j: int| 0 <= j < k ==> s@[i + j] == p@[j],
                !hit ==> !matches_at(s@, p@, i as int),
            decreases np - k,
        {
            if s[i + k] != p[k] {
                proof {
                    if matches_at(s@, p@, i as int) {
                        assert(s@.subrange(i as int, i + np)[k as int] == p@[k as int]);
                    }
                }
                hit = false;
                k = np;
            } else {
                k = k + 1;
            }
        }
        if hit {
            proof {
                assert(s@.subrange(i as int, i + np) =~= p@);
            }
            return Some(i);
        }
    }
    proof {
        assert forall|j: int| !matches_at(s@, p@, j) by {
            if matches_at(s@, p@, j) {
                assert(j >= 0);
            }
        }
    }
    None
}

/// What stripping a version suffix leaves: the segment of the name that
/// precedes the final `@@`-separated suffixes, exactly as splitting from
/// the right and taking the second piece would yield it; a name without
/// `@@` is kept whole.
pub open spec fn strip_version_spec(s: Seq<char>) -> Seq<char> {
    let p = "@@"@;
    if !contains_sub_spec(s, p) {
        s
    } else {
        let i1 = choose|i: int| is_last_match(s, p, i);
        let head = s.take(i1);
        if !contains_sub_spec(head, p) {
            head
        } else {
            let i2 = choose|i: int| is_last_match(head, p, i);
            head.skip(i2 + 2)
        }
    }
}

/// Any two "last matches" coincide.
proof fn lemma_last_match_unique(s: Seq<char>, p: Seq<char>, i: int, j: int)
    requires
        is_last_match(s, p, i),
        is_last_match(s, p, j),
    ensures
        i == j,
{
    if i < j {
        assert(!matches_at(s, p, j));
    } else if j < i {
        assert(!matches_at(s, p, i));
    }
}

/// Removes a trailing symbol-versioning suffix (`@@VERSION`) from an
/// undefined symbol name, the way splitting on `@@` from the right and
/// keeping the second piece does.
pub fn strip_version(sym: &str) -> (r: String)
    ensures
        r@ == strip_version_spec(sym@),
{
    proof {
        reveal_strlit("@@");
    }
    let v = chars_of(sym);
    let p = chars_of("@@");
    let ghost pspec = "@@"@;
    match find_sub_last(v.as_slice(), p.as_slice()) {
        None => string_from_chars(v.as_slice()),
        Some(i1) => {
            proof {
                let w = choose|i: int| is_last_match(v@, pspec, i);
                lemma_last_match_unique(v@, pspec, i1 as int, w);
            }
            let mut head: Vec<char> = Vec::new();
            let mut i: usize = 0;
            while i < i1
                invariant
                    i <= i1,
                    i1 <= v@.len(),
                    head@ == v@.take(i as int),
                decreases i1 - i,
            {
                proof {
                    assert(v@.take(i as int).push(v@[i as int]) =~= v@.take(i + 1));
                }
                head.push(v[i]);
                i = i + 1;
            }
            match find_sub_last(head.as_slice(), p.as_slice()) {
                None => string_from_chars(head.as_slice()),
                Some(i2) => {
                    proof {
                        let w2 = choose|i: int| is_last_match(head@, pspec, i);
                        lemma_last_match_unique(head@, pspec, i2 as int, w2);
                    }
                    let mut out: Vec<char> = Vec::new();
                    let hn = head.len();
                    let mut j: usize = i2 + 2;
                    while j < hn
                        invariant
                            i2 + 2 <= j <= hn,
                            hn == head@.len(),
                            out@ == head@.skip(i2 + 2).take(j - i2 - 2),
                        decreases hn - j,
                    {
                        proof {
                            assert(head@.skip(i2 + 2).take(j - i2 - 2).push(head@[j as int])
                                =~= head@.skip(i2 + 2).take(j + 1 - i2 - 2));
                        }
                        out.push(head[j]);
                        j = j + 1;
                    }
                    proof {
                        assert(out@ =~= head@.skip(i2 + 2));
                    }
                    string_from_chars(out.as_slice())
                }
            }
        }
    }
}

/// A match of `p` in `s` with none before it.
pub open spec fn is_first_match(s: Seq<char>, p: Seq<char>, i: int) -> bool {
    matches_at(s, p, i) && forall|j: int| 0 <= j < i ==> !matches_at(s, p, j)
}

/// Any two "first matches" coincide.
pub proof fn lemma_first_match_unique(s: Seq<char>, p: Seq<char>, i: int, j: int)
    requires
        is_first_match(s, p, i),
        is_first_match(s, p, j),
    ensures
        i == j,
{
    if i < j {
        assert(!matches_at(s, p, i));
    } else if j < i {
        assert(!matches_at(s, p, j));
    }
}

/// What dissecting a demangled trait-impl method name yields: for
/// `<Type as Trait>::method::h<hash>`, the key `Trait::method`; nothing
/// when the name has another shape.
pub open spec fn trait_method_key_spec(d: Seq<char>) -> Option<Seq<char>> {
    if !(d.len() > 0 && d[0] == '<') {
        None
    } else if !contains_sub_spec(d, " as "@) {
        None
    } else {
        let rhs = d.skip((choose|i: int| is_first_match(d, " as "@, i)) + 4);
        if !contains_sub_spec(rhs, ">::"@) {
            None
        } else {
            let cut = choose|i: int| is_first_match(rhs, ">::"@, i);
            let trait_part = rhs.take(cut);
            let rest = rhs.skip(cut + 3);
            if has_hash_suffix(rest) {
                Some(trait_part + "::"@ + rest.take(rest.len() - 19))
            } else {
                None
            }
        }
    }
}

/// Dissects a demangled name of the shape
/// `<Type as Trait>::method::h<hash>` into the key `Trait::method`.
pub fn trait_method_key(demangled: &str) -> (r: Option<String>)
    ensures
        match r {
            Some(out) => trait_method_key_spec(demangled@) == Some(out@),
            None => trait_method_key_spec(demangled@) is None,
        },
{
    proof {
        reveal_strlit(" as ");
        reveal_strlit(">::");
        reveal_strlit("::");
    }
    let v = chars_of(demangled);
    if v.len() == 0 {
        return None;
    }
    if v[0] != '<' {
        return None;
    }
    let sep = chars_of(" as ");
    let i1 = match find_sub(v.as_slice(), sep.as_slice()) {
        None => {
            return None;
        }
        Some(i1) => i1,
    };
    proof {
        assert(is_first_match(v@, " as "@, i1 as int));
        let w = choose|i: int| is_first_match(v@, " as "@, i);
        lemma_first_match_unique(v@, " as "@, i1 as int, w);
    }
    let mut rhs: Vec<char> = Vec::new();
    let n = v.len();
    let mut i: usize = i1 + 4;
    while i < n
        invariant
            i1 + 4 <= i <= n,
            n == v@.len(),
            rhs@ == v@.skip(i1 + 4).take(i - i1 - 4),
        decreases n - i,
    {
        proof {
            assert(v@.skip(i1 + 4).take(i - i1 - 4).push(v@[i as int]) =~= v@.skip(i1 + 4).take(
                i + 1 - i1 - 4,
            ));
        }
        rhs.push(v[i]);
        i = i + 1;
    }
    proof {
        assert(rhs@ =~= v@.skip(i1 + 4));
    }
    let cutsep = chars_of(">::");
    let cut = match find_sub(rhs.as_slice(), cutsep.as_slice()) {
        None => {
            return None;
        }
        Some(cut) => cut,
    };
    proof {
        assert(is_first_match(rhs@, ">::"@, cut as int));
        let w = choose|i: int| is_first_match(rhs@, ">::"@, i);
        lemma_first_match_unique(rhs@, ">::"@, cut as int, w);
    }
    let rn = rhs.len();
    if rn - cut - 3 <= 19 {
        proof {
            assert(rhs@.skip(cut + 3).len() <= 19);
        }
        return None;
    }
    let mut out: Vec<char> = Vec::new();
    let mut i: usize = 0;
    while i < cut
        invariant
            i <= cut,
            cut <= rhs@.len(),
            out@ == rhs@.take(cut as int).take(i as int),
        decreases cut - i,
    {
        proof {
            assert(rhs@.take(cut as int).take(i as int).push(rhs@[i as int]) =~= rhs@.take(
                cut as int,
            ).take(i + 1));
        }
        out.push(rhs[i]);
        i = i + 1;
    }
    proof {
        assert(out@ =~= rhs@.take(cut as int));
    }
    out.push(':');
    out.push(':');
    let ghost rest = rhs@.skip(cut + 3);
    let mark = chars_of("::h");
    let mut tail: Vec<char> = Vec::new();
    tail.push(rhs[rn - 19]);
    tail.push(rhs[rn - 18]);
    tail.push(rhs[rn - 17]);
    proof {
        assert(tail@ =~= rest.subrange(rest.len() - 19, rest.len() - 16));
    }
    if !slice_eq(tail.as_slice(), mark.as_slice()) {
        proof {
            assert(!has_hash_suffix(rest));
        }
        return None;
    }
    if !tail_is_hex(rhs.as_slice()) {
        proof {
            assert(rhs@.subrange(rn - 16, rn as int) =~= rest.subrange(
                rest.len() - 16,
                rest.len() as int,
            ));
            assert(!has_hash_suffix(rest));
        }
        return None;
    }
    proof {
        assert(rhs@.subrange(rn - 16, rn as int) =~= rest.subrange(
            rest.len() - 16,
            rest.len() as int,
        ));
    }
    let stop = rn - 19;
    let mut i: usize = cut + 3;
    while i < stop
        invariant
            cut + 3 <= i <= stop,
            stop <= rhs@.len(),
            rest == rhs@.skip(cut + 3),
            out@ == rhs@.take(cut as int) + "::"@ + rest.take(i - cut - 3),
        decreases stop - i,
    {
        proof {
            assert((rhs@.take(cut as int) + "::"@ + rest.take(i - cut - 3)).push(rhs@[i as int])
                =~= rhs@.take(cut as int) + "::"@ + rest.take(i + 1 - cut - 3));
        }
        out.push(rhs[i]);
        i = i + 1;
    }
    proof {
        assert(has_hash_suffix(rest));
        assert(out@ =~= rhs@.take(cut as int) + "::"@ + rest.take(rest.len() - 19));
    }
    Some(string_from_chars(out.as_slice()))
}

} // verus!
