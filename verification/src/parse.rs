//! A parser for the compiler's textual intermediate representation,
//! over the line-oriented subset the call-graph construction consumes:
//!
//! - a line starting `define ` opens a function; its mangled name is
//!   the text between the line's first `@` and the `(` that follows
//!   (quotes around the name are removed), its parameter types stand
//!   between that `(` and the matching `)`, and every `!<kind> !<id>`
//!   pair on the line is an attached metadata reference;
//! - the function's body runs to the next line starting `}`; body
//!   lines are classified as inline assembly, direct, indirect or
//!   bitcast calls, or uninteresting statements;
//! - a line starting `declare ` declares an external function the same
//!   way, without a body;
//! - a line starting `!<id> = ` registers a numbered metadata node; the
//!   payload encoding of call-site metadata is not specified by the
//!   surrounding toolchain's documents, so the node is kept opaquely;
//! - everything else at the top level is ignored.
//!
//! A define or declare line without a well-formed `@name(` header fails
//! the parse with the line's position.

use vstd::prelude::*;
use crate::chars::{
    chars_of, contains_sub, contains_sub_spec, find_sub, is_prefix, matches_at, slice_eq,
    starts_with, string_from_chars,
};
use crate::ir::{Declare, Define, Item, MetaRef, MetadataKind, Stmt};
use crate::names::{digits_value, is_digit};
use crate::sig::{FnSig, Type};

verus! {

/// Where and why a parse failed.
#[derive(Debug)]
pub struct ParseError {
    /// The zero-based line the failure was found on.
    pub position: usize,
    /// What was wrong with it.
    pub message: String,
}

/// The position of the first newline at or after `i`, if any.
pub open spec fn first_nl_from(s: Seq<char>, i: int) -> Option<int>
    decreases s.len() - i,
{
    if i < 0 || i >= s.len() {
        None
    } else if s[i] == '\n' {
        Some(i)
    } else {
        first_nl_from(s, i + 1)
    }
}

/// What `first_nl_from` finds: a newline with none before it (from the
/// start of the scan).
pub proof fn lemma_first_nl(s: Seq<char>, i: int)
    requires
        0 <= i <= s.len(),
    ensures
        match first_nl_from(s, i) {
            Some(j) => i <= j < s.len() && s[j] == '\n' && forall|x: int|
                i <= x < j ==> s[x] != '\n',
            None => forall|x: int| i <= x < s.len() ==> s[x] != '\n',
        },
    decreases s.len() - i,
{
    if i < s.len() && s[i] != '\n' {
        lemma_first_nl(s, i + 1);
    }
}

/// The lines of a text: split at every newline, the separators dropped.
pub open spec fn spec_lines(s: Seq<char>) -> Seq<Seq<char>>
    decreases s.len(),
{
    if s.len() == 0 {
        seq![s]
    } else {
        match first_nl_from(s, 0) {
            None => seq![s],
            Some(j0) => {
                let j = if 0 <= j0 < s.len() {
                    j0
                } else {
                    0
                };
                seq![s.take(j)] + spec_lines(s.skip(j + 1))
            }
        }
    }
}

/// The views of a list of lines.
pub open spec fn lines_view(lines: Seq<Vec<char>>) -> Seq<Seq<char>> {
    lines.map_values(|l: Vec<char>| l@)
}

/// `lines_view` maps index for index.
pub proof fn lemma_lines_view_index(lines: Seq<Vec<char>>)
    ensures
        lines_view(lines).len() == lines.len(),
        forall|i: int| 0 <= i < lines.len() ==> lines_view(lines)[i] == (#[trigger] lines[i])@,
{
}

/// Splits the text into its lines.
pub fn split_lines(v: &[char]) -> (r: Vec<Vec<char>>)
    ensures
        lines_view(r@) == spec_lines(v@),
{
    let n = v.len();
    let mut r: Vec<Vec<char>> = Vec::new();
    proof {
        assert(lines_view(r@) =~= Seq::<Seq<char>>::empty());
        assert(v@.skip(0) =~= v@);
    }
    let mut start: usize = 0;
    let mut p: usize = 0;
    while p < n
        invariant
            start <= p <= n,
            n == v@.len(),
            forall|x: int| start <= x < p ==> v@[x] != '\n',
            spec_lines(v@) =~= lines_view(r@) + spec_lines(v@.skip(start as int)),
        decreases n - p,
    {
        if v[p] == '\n' {
            let line = copy_range(v, start, p);
            let ghost pre = lines_view(r@);
            r.push(line);
            proof {
                let rem = v@.skip(start as int);
                assert(rem.len() > 0);
                assert(first_nl_from(rem, 0) == Some(p - start)) by {
                    lemma_first_nl(rem, 0);
                    assert(rem[p - start] == '\n');
                    match first_nl_from(rem, 0) {
                        None => {
                            assert(rem[p - start] != '\n');
                        }
                        Some(j) => {
                            if j < p - start {
                                assert(v@[j + start] != '\n');
                                assert(rem[j] == v@[j + start]);
                            } else if j > p - start {
                                assert(rem[p - start] != '\n');
                            }
                        }
                    }
                }
                assert(spec_lines(rem) =~= seq![rem.take(p - start)] + spec_lines(rem.skip(
                    p - start + 1,
                )));
                assert(rem.take(p - start) =~= line@);
                assert(rem.skip(p - start + 1) =~= v@.skip(p + 1));
                assert(lines_view(r@) =~= pre.push(line@));
                assert(spec_lines(v@) =~= lines_view(r@) + spec_lines(v@.skip(p + 1)));
            }
            start = p + 1;
        }
        p = p + 1;
    }
    let line = copy_range(v, start, n);
    let ghost pre = lines_view(r@);
    r.push(line);
    proof {
        let rem = v@.skip(start as int);
        assert(rem =~= line@);
        if rem.len() == 0 {
            assert(spec_lines(rem) =~= seq![rem]);
        } else {
            assert(first_nl_from(rem, 0) is None) by {
                lemma_first_nl(rem, 0);
                match first_nl_from(rem, 0) {
                    Some(j) => {
                        assert(rem[j] == v@[j + start]);
                        assert(v@[j + start] != '\n');
                    }
                    None => {}
                }
            }
            assert(spec_lines(rem) =~= seq![rem]);
        }
        assert(lines_view(r@) =~= pre.push(line@));
        assert(spec_lines(v@) =~= lines_view(r@));
    }
    r
}

/// The mangled name a `define`/`declare` header carries: the text
/// between the line's first `@` and the `(` that follows, quotes
/// removed; nothing when the header has no such shape.
pub open spec fn spec_header_name(l: Seq<char>) -> Option<Seq<char>> {
    if !contains_sub_spec(l, seq!['@']) {
        None
    } else {
        let at = choose|i: int| crate::names::is_first_match(l, seq!['@'], i);
        if at + 1 < l.len() && l[at + 1] == '"' {
            let body = l.skip(at + 2);
            if !contains_sub_spec(body, seq!['"']) {
                None
            } else {
                let q = choose|i: int| crate::names::is_first_match(body, seq!['"'], i);
                Some(body.take(q))
            }
        } else {
            let body = l.skip(at + 1);
            if !contains_sub_spec(body, seq!['(']) {
                None
            } else {
                let p = choose|i: int| crate::names::is_first_match(body, seq!['('], i);
                Some(body.take(p))
            }
        }
    }
}

/// Copies `v[from..to]` out.
fn copy_range(v: &[char], from: usize, to: usize) -> (r: Vec<char>)
    requires
        from <= to <= v@.len(),
    ensures
        r@ == v@.subrange(from as int, to as int),
{
    let mut r: Vec<char> = Vec::new();
    let mut k: usize = from;
    while k < to
        invariant
            from <= k <= to,
            to <= v@.len(),
            r@ == v@.subrange(from as int, k as int),
        decreases to - k,
    {
        proof {
            assert(v@.subrange(from as int, k as int).push(v@[k as int]) =~= v@.subrange(
                from as int,
                k + 1,
            ));
        }
        r.push(v[k]);
        k = k + 1;
    }
    r
}

/// Extracts the header's mangled name.
pub fn header_name(l: &[char]) -> (r: Option<Vec<char>>)
    ensures
        match r {
            Some(name) => spec_header_name(l@) == Some(name@),
            None => spec_header_name(l@) is None,
        },
{
    let atp: [char; 1] = ['@'];
    let at = match find_sub(l, atp.as_slice()) {
        None => {
            proof {
                assert(atp@ =~= seq!['@']);
            }
            return None;
        }
        Some(at) => at,
    };
    proof {
        assert(atp@ =~= seq!['@']);
        assert(crate::names::is_first_match(l@, seq!['@'], at as int));
        assert((at as int) + 1 <= l@.len());
        let w = choose|w: int| crate::names::is_first_match(l@, seq!['@'], w);
        crate::names::lemma_first_match_unique(l@, seq!['@'], at as int, w);
    }
    let n = l.len();
    proof {
        assert((at as int) < n as int);
    }
    if at + 1 < n && l[at + 1] == '"' {
        let body = copy_range(l, at + 2, l.len());
        proof {
            assert(body@ =~= l@.skip(at + 2));
        }
        let qp: [char; 1] = ['"'];
        match find_sub(body.as_slice(), qp.as_slice()) {
            None => {
                proof {
                    assert(qp@ =~= seq!['"']);
                }
                None
            }
            Some(q) => {
                proof {
                    assert(qp@ =~= seq!['"']);
                    assert(crate::names::is_first_match(body@, seq!['"'], q as int));
                    let w = choose|w: int|
                        crate::names::is_first_match(body@, seq!['"'], w);
                    crate::names::lemma_first_match_unique(body@, seq!['"'], q as int, w);
                }
                Some(copy_range(body.as_slice(), 0, q))
            }
        }
    } else {
        let body = copy_range(l, at + 1, l.len());
        proof {
            assert(body@ =~= l@.skip(at + 1));
        }
        let pp: [char; 1] = ['('];
        match find_sub(body.as_slice(), pp.as_slice()) {
            None => {
                proof {
                    assert(pp@ =~= seq!['(']);
                }
                None
            }
            Some(p) => {
                proof {
                    assert(pp@ =~= seq!['(']);
                    assert(crate::names::is_first_match(body@, seq!['('], p as int));
                    let w = choose|w: int|
                        crate::names::is_first_match(body@, seq!['('], w);
                    crate::names::lemma_first_match_unique(body@, seq!['('], p as int, w);
                }
                Some(copy_range(body.as_slice(), 0, p))
            }
        }
    }
}

/// The numeric id a `!<id> = ` metadata line carries: the maximal
/// digit run after the `!`, when it is nonempty and fits.
pub open spec fn spec_meta_id(l: Seq<char>) -> Option<u64> {
    if l.len() < 2 || l[0] != '!' || !is_digit(l[1]) {
        None
    } else {
        let run = choose|k: int|
            1 <= k <= l.len() && (forall|j: int| 1 <= j < k ==> is_digit(#[trigger] l[j])) && (k
                == l.len() || !is_digit(l[k]));
        if digits_value(l.subrange(1, run)) <= u64::MAX {
            Some(digits_value(l.subrange(1, run)) as u64)
        } else {
            None
        }
    }
}

/// Reads the id off a metadata line.
pub fn meta_line_id(l: &[char]) -> (r: Option<u64>)
    ensures
        match r {
            Some(id) => spec_meta_id(l@) == Some(id),
            None => spec_meta_id(l@) is None,
        },
{
    let n = l.len();
    if n < 2 {
        return None;
    }
    if l[0] != '!' {
        return None;
    }
    let mut k: usize = 1;
    while k < n && crate::names::decimal_digit(l[k])
        invariant
            1 <= k <= n,
            n == l@.len(),
            forall|j: int| 1 <= j < k ==> is_digit(#[trigger] l@[j]),
        decreases n - k,
    {
        k = k + 1;
    }
    proof {
        assert(k == n || !is_digit(l@[k as int]));
    }
    if k == 1 {
        proof {
            assert(!is_digit(l@[1]));
        }
        return None;
    }
    let digits = copy_range(l, 1, k);
    proof {
        let kk = k as int;
        assert(1 <= kk <= l@.len());
        assert(forall|j: int| 1 <= j < kk ==> is_digit(#[trigger] l@[j]));
        if k < n {
            assert(!is_digit(l@[kk]));
        }
        let w = choose|w: int|
            1 <= w <= l@.len() && (forall|j: int| 1 <= j < w ==> is_digit(#[trigger] l@[j]))
                && (w == l@.len() || !is_digit(l@[w]));
        assert(w == kk) by {
            if w < kk {
                assert(is_digit(l@[w]));
                assert(w != l@.len());
            } else if w > kk {
                assert(is_digit(l@[kk]));
                assert(kk != l@.len());
            }
        }
        assert(digits@ == l@.subrange(1, kk));
    }
    match crate::names::digits_to_u64(digits.as_slice()) {
        Some(v) => Some(v),
        None => None,
    }
}

/// Does the line start with this word?
pub open spec fn is_define_line(l: Seq<char>) -> bool {
    is_prefix("define "@, l)
}

/// Does the line start with `declare `?
pub open spec fn is_declare_line(l: Seq<char>) -> bool {
    is_prefix("declare "@, l)
}

/// Does the line register a numbered metadata node: `!` followed by a
/// digit?
pub open spec fn is_meta_item_line(l: Seq<char>) -> bool {
    l.len() >= 2 && l[0] == '!' && is_digit(l[1])
}

/// A line the parser must refuse: a function header without a
/// well-formed `@name(`, or a metadata line whose id does not fit.
pub open spec fn malformed_line(l: Seq<char>) -> bool {
    ||| ((is_define_line(l) || is_declare_line(l)) && spec_header_name(l) is None)
    ||| (is_meta_item_line(l) && spec_meta_id(l) is None)
}

/// The function names of the define lines, in order.
pub open spec fn define_names_of(lines: Seq<Seq<char>>) -> Seq<Seq<char>>
    decreases lines,
{
    if lines.len() == 0 {
        Seq::empty()
    } else {
        let init = define_names_of(lines.drop_last());
        if is_define_line(lines.last()) {
            init.push(spec_header_name(lines.last())->Some_0)
        } else {
            init
        }
    }
}

/// The function names of the declare lines, in order.
pub open spec fn declare_names_of(lines: Seq<Seq<char>>) -> Seq<Seq<char>>
    decreases lines,
{
    if lines.len() == 0 {
        Seq::empty()
    } else {
        let init = declare_names_of(lines.drop_last());
        if !is_define_line(lines.last()) && is_declare_line(lines.last()) {
            init.push(spec_header_name(lines.last())->Some_0)
        } else {
            init
        }
    }
}

/// The ids of the metadata lines, in order.
pub open spec fn meta_ids_of(lines: Seq<Seq<char>>) -> Seq<u64>
    decreases lines,
{
    if lines.len() == 0 {
        Seq::empty()
    } else {
        let init = meta_ids_of(lines.drop_last());
        if !is_define_line(lines.last()) && !is_declare_line(lines.last()) && is_meta_item_line(
            lines.last(),
        ) {
            init.push(spec_meta_id(lines.last())->Some_0)
        } else {
            init
        }
    }
}

/// The names of the parsed definitions, in order.
pub open spec fn item_define_names(items: Seq<Item>) -> Seq<Seq<char>>
    decreases items,
{
    if items.len() == 0 {
        Seq::empty()
    } else {
        let init = item_define_names(items.drop_last());
        match items.last() {
            Item::Define(d) => init.push(d.name@),
            _ => init,
        }
    }
}

/// The names of the parsed declarations, in order.
pub open spec fn item_declare_names(items: Seq<Item>) -> Seq<Seq<char>>
    decreases items,
{
    if items.len() == 0 {
        Seq::empty()
    } else {
        let init = item_declare_names(items.drop_last());
        match items.last() {
            Item::Declare(d) => init.push(d.name@),
            _ => init,
        }
    }
}

/// The ids of the parsed metadata nodes, in order.
pub open spec fn item_meta_ids(items: Seq<Item>) -> Seq<u64>
    decreases items,
{
    if items.len() == 0 {
        Seq::empty()
    } else {
        let init = item_meta_ids(items.drop_last());
        match items.last() {
            Item::Metadata { id, kind } => init.push(id),
            _ => init,
        }
    }
}

/// Trims the spaces off both ends.
fn trim_spaces(v: &[char]) -> (r: Vec<char>)
    ensures
        r@.len() <= v@.len(),
{
    let n = v.len();
    let mut a: usize = 0;
    while a < n && v[a] == ' '
        invariant
            a <= n,
            n == v@.len(),
        decreases n - a,
    {
        a = a + 1;
    }
    let mut b: usize = n;
    while b > a && v[b - 1] == ' '
        invariant
            a <= b <= n,
            n == v@.len(),
        decreases b,
    {
        b = b - 1;
    }
    copy_range(v, a, b)
}

/// Reads one type token of the subset: trailing `*`s wrap the base in
/// pointers; `i<width>` is an integer, `float`/`double` floating
/// point, `%name` (quotes removed) or any other text an opaque alias,
/// `_` the erased sentinel.
fn parse_type_token(tok: &[char]) -> (r: Type)
    decreases tok@.len(),
{
    let t = trim_spaces(tok);
    let n = t.len();
    if n == 0 {
        return Type::Alias(String::new());
    }
    if t[n - 1] == '*' {
        let inner = copy_range(t.as_slice(), 0, n - 1);
        return Type::Pointer(Box::new(parse_type_token(inner.as_slice())));
    }
    if n == 1 && t[0] == '_' {
        return Type::Erased;
    }
    proof {
        reveal_strlit("float");
        reveal_strlit("double");
    }
    let fl = chars_of("float");
    if slice_eq(t.as_slice(), fl.as_slice()) {
        return Type::Float(32);
    }
    let db = chars_of("double");
    if slice_eq(t.as_slice(), db.as_slice()) {
        return Type::Float(64);
    }
    if t[0] == 'i' && n >= 2 {
        let digits = copy_range(t.as_slice(), 1, n);
        let mut all = true;
        let mut k: usize = 0;
        while k < digits.len()
            invariant
                k <= digits@.len(),
            decreases digits@.len() - k,
        {
            if !crate::names::decimal_digit(digits[k]) {
                all = false;
            }
            k = k + 1;
        }
        if all {
            match crate::names::digits_to_u64(digits.as_slice()) {
                Some(w) => {
                    if w <= 0xFFFF_FFFFu64 {
                        return Type::Integer(w as u32);
                    }
                }
                None => {}
            }
        }
    }
    if t[0] == '%' {
        let mut body = copy_range(t.as_slice(), 1, n);
        let bn = body.len();
        if bn >= 2 && body[0] == '"' && body[bn - 1] == '"' {
            body = copy_range(body.as_slice(), 1, bn - 1);
        }
        return Type::Alias(string_from_chars(body.as_slice()));
    }
    Type::Alias(string_from_chars(t.as_slice()))
}

/// Splits a parameter list at the commas that sit outside parentheses
/// and quotes, and keeps each piece's first whitespace-free token (its
/// type).
fn param_types(v: &[char]) -> (r: Vec<Type>) {
    let mut out: Vec<Type> = Vec::new();
    let n = v.len();
    let mut start: usize = 0;
    let mut depth: usize = 0;
    let mut p: usize = 0;
    while p <= n
        invariant
            start <= p <= n + 1,
            n == v@.len(),
            depth <= p,
        decreases n + 1 - p,
    {
        let at_end = p == n;
        let split_here = at_end || (depth == 0 && v[p] == ',');
        if split_here {
            if p > start {
                let piece = trim_spaces(copy_range(v, start, p).as_slice());
                // the type is the piece up to its first space
                let mut e: usize = 0;
                let pn = piece.len();
                while e < pn && piece[e] != ' '
                    invariant
                        e <= pn,
                        pn == piece@.len(),
                    decreases pn - e,
                {
                    e = e + 1;
                }
                if e > 0 {
                    out.push(parse_type_token(copy_range(piece.as_slice(), 0, e).as_slice()));
                }
            }
            if at_end {
                return out;
            }
            start = p + 1;
        } else if v[p] == '(' {
            depth = depth + 1;
        } else if v[p] == ')' {
            if depth > 0 {
                depth = depth - 1;
            }
        }
        if at_end {
            return out;
        }
        p = p + 1;
    }
    out
}

/// Reads the header's signature out of the subset shape
/// `define <attrs> <ret> @name(<params>)`: the return type is the last
/// whitespace token before the `@`, the parameters the comma-separated
/// types inside the parentheses.
fn header_sig(l: &[char]) -> (r: FnSig) {
    proof {
        reveal_strlit("void");
    }
    let atp: [char; 1] = ['@'];
    let at = match find_sub(l, atp.as_slice()) {
        None => {
            return FnSig { inputs: Vec::new(), output: None };
        }
        Some(at) => at,
    };
    // return type: last space-separated token before the `@`
    let head = trim_spaces(copy_range(l, 0, at).as_slice());
    let hn = head.len();
    let mut b: usize = hn;
    while b > 0 && head[b - 1] != ' '
        invariant
            b <= hn,
            hn == head@.len(),
        decreases b,
    {
        b = b - 1;
    }
    let ret_tok = copy_range(head.as_slice(), b, hn);
    let voidw = chars_of("void");
    let output = if ret_tok.len() == 0 || slice_eq(ret_tok.as_slice(), voidw.as_slice()) {
        None
    } else {
        Some(Box::new(parse_type_token(ret_tok.as_slice())))
    };
    // parameters: inside the parentheses that follow the name
    let pp: [char; 1] = ['('];
    let rest = copy_range(l, at, l.len());
    let inputs = match find_sub(rest.as_slice(), pp.as_slice()) {
        None => Vec::new(),
        Some(p) => {
            // up to the matching close, scanning depth
            let rn = rest.len();
            let mut depth: usize = 0;
            let mut q: usize = p;
            let mut close: usize = rn;
            while q < rn
                invariant
                    p <= q <= rn,
                    rn == rest@.len(),
                    close <= rn,
                    depth <= q,
                decreases rn - q,
            {
                if rest[q] == '(' {
                    depth = depth + 1;
                    q = q + 1;
                } else if rest[q] == ')' {
                    if depth <= 1 {
                        close = q;
                        q = rn;
                    } else {
                        depth = depth - 1;
                        q = q + 1;
                    }
                } else {
                    q = q + 1;
                }
            }
            if close > p {
                proof {
                    assert((p as int) < rest@.len());
                }
                param_types(copy_range(rest.as_slice(), p + 1, close).as_slice())
            } else {
                Vec::new()
            }
        }
    };
    FnSig { inputs, output }
}

/// The `!<kind> !<id>` metadata references on a line, in order.
fn line_meta_refs(l: &[char]) -> (r: Vec<MetaRef>) {
    let mut out: Vec<MetaRef> = Vec::new();
    let n = l.len();
    let mut p: usize = 0;
    while p < n
        invariant
            p <= n,
            n == l@.len(),
        decreases n - p,
    {
        if l[p] == '!' {
            // kind word
            let mut e: usize = p + 1;
            while e < n && l[e] != ' ' && l[e] != ',' && l[e] != '!'
                invariant
                    p < e <= n,
                    n == l@.len(),
                decreases n - e,
            {
                e = e + 1;
            }
            if e > p + 1 && e < n && l[e] == ' ' && e + 1 < n && l[e + 1] == '!' {
                // id digits
                let mut d: usize = e + 2;
                while d < n && crate::names::decimal_digit(l[d])
                    invariant
                        e + 2 <= d <= n,
                        n == l@.len(),
                    decreases n - d,
                {
                    d = d + 1;
                }
                if d > e + 2 {
                    let kindv = copy_range(l, p + 1, e);
                    let idv = copy_range(l, e + 2, d);
                    match crate::names::digits_to_u64(idv.as_slice()) {
                        Some(id) => {
                            out.push(
                                MetaRef {
                                    kind: string_from_chars(kindv.as_slice()),
                                    id,
                                },
                            );
                        }
                        None => {}
                    }
                    p = d;
                } else {
                    p = e;
                }
            } else {
                p = e;
            }
        } else {
            p = p + 1;
        }
    }
    out
}

/// Classifies one body line of the subset: a `call` through inline
/// assembly, a bitcast, a `@symbol` or a register, else uninteresting.
fn classify_stmt(l: &[char]) -> (r: Stmt) {
    proof {
        reveal_strlit("call");
        reveal_strlit(" asm ");
        reveal_strlit("bitcast");
    }
    let callw = chars_of("call");
    if !contains_sub(l, callw.as_slice()) {
        return Stmt::Other;
    }
    let asmw = chars_of(" asm ");
    if contains_sub(l, asmw.as_slice()) {
        // the assembly text: between the first pair of quotes
        let qp: [char; 1] = ['"'];
        match find_sub(l, qp.as_slice()) {
            Some(q1) => {
                let ln = l.len();
                proof {
                    assert((q1 as int) < ln as int);
                }
                let rest = copy_range(l, q1 + 1, ln);
                match find_sub(rest.as_slice(), qp.as_slice()) {
                    Some(q2) => {
                        return Stmt::Asm(
                            string_from_chars(copy_range(rest.as_slice(), 0, q2).as_slice()),
                        );
                    }
                    None => {
                        return Stmt::Asm(string_from_chars(l));
                    }
                }
            }
            None => {
                return Stmt::Asm(string_from_chars(l));
            }
        }
    }
    let bitw = chars_of("bitcast");
    if contains_sub(l, bitw.as_slice()) {
        return Stmt::BitcastCall(
            match symbol_after_at(l) {
                Some(name) => Some(string_from_chars(name.as_slice())),
                None => None,
            },
        );
    }
    match symbol_after_at(l) {
        Some(name) => Stmt::DirectCall(string_from_chars(name.as_slice())),
        None => Stmt::IndirectCall(call_site_sig(l), line_meta_refs(l)),
    }
}

/// The symbol after the line's first `@`, ended by `(`, space, comma
/// or a closing parenthesis; quoted names keep everything up to the
/// closing quote.
fn symbol_after_at(l: &[char]) -> (r: Option<Vec<char>>) {
    let atp: [char; 1] = ['@'];
    let at = match find_sub(l, atp.as_slice()) {
        None => {
            return None;
        }
        Some(at) => at,
    };
    let n = l.len();
    proof {
        assert((at as int) < l@.len());
    }
    if at + 1 < n && l[at + 1] == '"' {
        let mut e: usize = at + 2;
        while e < n && l[e] != '"'
            invariant
                at + 2 <= e <= n,
                n == l@.len(),
            decreases n - e,
        {
            e = e + 1;
        }
        return Some(copy_range(l, at + 2, e));
    }
    let mut e: usize = at + 1;
    while e < n && l[e] != '(' && l[e] != ' ' && l[e] != ',' && l[e] != ')'
        invariant
            at + 1 <= e <= n,
            n == l@.len(),
        decreases n - e,
    {
        e = e + 1;
    }
    if e == at + 1 {
        None
    } else {
        Some(copy_range(l, at + 1, e))
    }
}

/// The call-site signature of an indirect call of the subset
/// `call <ret> %reg(<args>)`: the return type is the token before the
/// register, the argument types the first token of each argument.
fn call_site_sig(l: &[char]) -> (r: FnSig) {
    proof {
        reveal_strlit("void");
    }
    let rp: [char; 1] = ['%'];
    let n = l.len();
    let reg = match find_sub(l, rp.as_slice()) {
        None => {
            return FnSig { inputs: Vec::new(), output: None };
        }
        Some(reg) => reg,
    };
    // return type: last token before the register
    let head = trim_spaces(copy_range(l, 0, reg).as_slice());
    let hn = head.len();
    let mut b: usize = hn;
    while b > 0 && head[b - 1] != ' '
        invariant
            b <= hn,
            hn == head@.len(),
        decreases b,
    {
        b = b - 1;
    }
    let ret_tok = copy_range(head.as_slice(), b, hn);
    let voidw = chars_of("void");
    let output = if ret_tok.len() == 0 || slice_eq(ret_tok.as_slice(), voidw.as_slice()) {
        None
    } else {
        Some(Box::new(parse_type_token(ret_tok.as_slice())))
    };
    // argument types: inside the parentheses after the register
    let pp: [char; 1] = ['('];
    let rest = copy_range(l, reg, n);
    let inputs = match find_sub(rest.as_slice(), pp.as_slice()) {
        None => Vec::new(),
        Some(p) => {
            let rn = rest.len();
            let mut depth: usize = 0;
            let mut q: usize = p;
            let mut close: usize = rn;
            while q < rn
                invariant
                    p <= q <= rn,
                    rn == rest@.len(),
                    close <= rn,
                    depth <= q,
                decreases rn - q,
            {
                if rest[q] == '(' {
                    depth = depth + 1;
                    q = q + 1;
                } else if rest[q] == ')' {
                    if depth <= 1 {
                        close = q;
                        q = rn;
                    } else {
                        depth = depth - 1;
                        q = q + 1;
                    }
                } else {
                    q = q + 1;
                }
            }
            if close > p {
                proof {
                    assert((p as int) < rest@.len());
                }
                param_types(copy_range(rest.as_slice(), p + 1, close).as_slice())
            } else {
                Vec::new()
            }
        }
    };
    FnSig { inputs, output }
}

/// A nonempty prefix pins the first character.
proof fn lemma_prefix_first(p: Seq<char>, s: Seq<char>)
    requires
        is_prefix(p, s),
        p.len() > 0,
    ensures
        s.len() > 0 && s[0] == p[0],
{
    assert(s.take(p.len() as int)[0] == s[0]);
}

/// The name a pending (still-open) definition will contribute.
pub open spec fn pending_names(o: Option<Define>) -> Seq<Seq<char>> {
    match o {
        Some(d) => seq![d.name@],
        None => Seq::<Seq<char>>::empty(),
    }
}

/// Parses the textual intermediate representation into its top-level
/// items, over the documented subset.  The parse fails, with the line's
/// position, exactly when a function header lacks a well-formed
/// `@name(` or a metadata id does not fit; on success the definitions,
/// declarations and metadata nodes correspond name for name and id for
/// id, in order, to the define, declare and `!<id>` lines of the text.
pub fn parse_ir(text: &str) -> (r: Result<Vec<Item>, ParseError>)
    ensures
        r is Err <==> exists|i: int|
            0 <= i < spec_lines(text@).len() && malformed_line(#[trigger] spec_lines(text@)[i]),
        r is Ok ==> item_define_names(r->Ok_0@) == define_names_of(spec_lines(text@)),
        r is Ok ==> item_declare_names(r->Ok_0@) == declare_names_of(spec_lines(text@)),
        r is Ok ==> item_meta_ids(r->Ok_0@) == meta_ids_of(spec_lines(text@)),
{
    proof {
        reveal_strlit("define ");
        reveal_strlit("declare ");
    }
    let v = chars_of(text);
    let lines = split_lines(v.as_slice());
    let ghost lv = spec_lines(text@);
    proof {
        assert(lines_view(lines@) == lv);
        lemma_lines_view_index(lines@);
    }
    let nl = lines.len();
    let mut items: Vec<Item> = Vec::new();
    let mut open_def: Option<Define> = None;
    let mut li: usize = 0;
    while li < nl
        invariant
            li <= nl,
            nl == lines@.len(),
            lv == spec_lines(text@),
            lines_view(lines@) == lv,
            forall|i: int| 0 <= i < li ==> !malformed_line(#[trigger] lv[i]),
            item_define_names(items@) + pending_names(open_def) == define_names_of(
                lv.take(li as int),
            ),
            item_declare_names(items@) == declare_names_of(lv.take(li as int)),
            item_meta_ids(items@) == meta_ids_of(lv.take(li as int)),
        decreases nl - li,
    {
        proof {
            reveal_strlit("define ");
            reveal_strlit("declare ");
            lemma_lines_view_index(lines@);
            assert(lv.take(li + 1).drop_last() =~= lv.take(li as int));
            assert(lv.take(li + 1).last() == lv[li as int]);
        }
        let ghost l_spec = lv[li as int];
        let line = &lines[li];
        proof {
            assert(lv.len() == lines@.len());
            assert(line@ == l_spec);
            assert(l_spec == spec_lines(text@)[li as int]);
        }
        let dw = chars_of("define ");
        let cw = chars_of("declare ");
        if starts_with(line.as_slice(), dw.as_slice()) {
            // close any definition still open before the new header
            let prev = open_def;
            open_def = None;
            match prev {
                Some(d) => {
                    let ghost pre_items = items@;
                    let ghost dn = d.name@;
                    items.push(Item::Define(d));
                    proof {
                        assert(items@.drop_last() =~= pre_items);
                        assert(item_define_names(items@) =~= item_define_names(pre_items).push(
                            dn,
                        ));
                        assert(item_declare_names(items@) =~= item_declare_names(pre_items));
                        assert(item_meta_ids(items@) =~= item_meta_ids(pre_items));
                    }
                }
                None => {}
            }
            match header_name(line.as_slice()) {
                None => {
                    proof {
                        assert(malformed_line(l_spec));
                        assert(0 <= (li as int) < spec_lines(text@).len() && malformed_line(
                            spec_lines(text@)[li as int],
                        ));
                    }
                    return Err(
                        ParseError {
                            position: li,
                            message: String::from_str("a function header needs `@name(`"),
                        },
                    );
                }
                Some(namev) => {
                    let name = string_from_chars(namev.as_slice());
                    let sig = header_sig(line.as_slice());
                    let meta = line_meta_refs(line.as_slice());
                    open_def = Some(Define { name, sig, stmts: Vec::new(), meta });
                    proof {
                        lemma_prefix_first("define "@, l_spec);
                        assert(!is_meta_item_line(l_spec));
                        assert(pending_names(open_def) =~= seq![
                            spec_header_name(l_spec)->Some_0,
                        ]);
                        assert(item_define_names(items@) + pending_names(open_def)
                            =~= define_names_of(lv.take(li + 1)));
                        assert(declare_names_of(lv.take(li + 1)) =~= declare_names_of(lv.take(
                            li as int,
                        )));
                        assert(meta_ids_of(lv.take(li + 1)) =~= meta_ids_of(lv.take(li as int)));
                    }
                }
            }
        } else if starts_with(line.as_slice(), cw.as_slice()) {
            match header_name(line.as_slice()) {
                None => {
                    proof {
                        assert(malformed_line(l_spec));
                        assert(0 <= (li as int) < spec_lines(text@).len() && malformed_line(
                            spec_lines(text@)[li as int],
                        ));
                    }
                    return Err(
                        ParseError {
                            position: li,
                            message: String::from_str("a function header needs `@name(`"),
                        },
                    );
                }
                Some(namev) => {
                    let name = string_from_chars(namev.as_slice());
                    let sig = header_sig(line.as_slice());
                    let ghost pre_items = items@;
                    let ghost dn = name@;
                    items.push(Item::Declare(Declare { name, sig: Some(sig) }));
                    proof {
                        assert(items@.drop_last() =~= pre_items);
                        assert(item_declare_names(items@) =~= item_declare_names(
                            pre_items,
                        ).push(dn));
                        assert(item_define_names(items@) =~= item_define_names(pre_items));
                        assert(item_meta_ids(items@) =~= item_meta_ids(pre_items));
                        lemma_prefix_first("declare "@, l_spec);
                        assert(!is_meta_item_line(l_spec));
                        assert(item_declare_names(items@) =~= declare_names_of(lv.take(li + 1)));
                        assert(define_names_of(lv.take(li + 1)) =~= define_names_of(lv.take(
                            li as int,
                        )));
                        assert(meta_ids_of(lv.take(li + 1)) =~= meta_ids_of(lv.take(li as int)));
                    }
                }
            }
        } else if line.len() >= 2 && line[0] == '!' && crate::names::decimal_digit(line[1]) {
            match meta_line_id(line.as_slice()) {
                None => {
                    proof {
                        assert(malformed_line(l_spec));
                        assert(0 <= (li as int) < spec_lines(text@).len() && malformed_line(
                            spec_lines(text@)[li as int],
                        ));
                    }
                    return Err(
                        ParseError {
                            position: li,
                            message: String::from_str("a metadata id must fit"),
                        },
                    );
                }
                Some(id) => {
                    let ghost pre_items = items@;
                    items.push(Item::Metadata { id, kind: MetadataKind::Other });
                    proof {
                        assert(l_spec[0] == '!');
                        assert(!is_define_line(l_spec)) by {
                            if is_define_line(l_spec) {
                                lemma_prefix_first("define "@, l_spec);
                            }
                        }
                        assert(!is_declare_line(l_spec)) by {
                            if is_declare_line(l_spec) {
                                lemma_prefix_first("declare "@, l_spec);
                            }
                        }
                        assert(items@.drop_last() =~= pre_items);
                        assert(item_meta_ids(items@) =~= item_meta_ids(pre_items).push(id));
                        assert(item_define_names(items@) =~= item_define_names(pre_items));
                        assert(item_declare_names(items@) =~= item_declare_names(pre_items));
                        assert(item_meta_ids(items@) =~= meta_ids_of(lv.take(li + 1)));
                        assert(define_names_of(lv.take(li + 1)) =~= define_names_of(lv.take(
                            li as int,
                        )));
                        assert(declare_names_of(lv.take(li + 1)) =~= declare_names_of(lv.take(
                            li as int,
                        )));
                    }
                }
            }
        } else {
            let closes = line.len() >= 1 && line[0] == '}';
            let prev = open_def;
            open_def = None;
            match prev {
                Some(d) => {
                    if closes {
                        let ghost pre_items = items@;
                        let ghost dn = d.name@;
                        items.push(Item::Define(d));
                        proof {
                            assert(items@.drop_last() =~= pre_items);
                            assert(item_define_names(items@) =~= item_define_names(
                                pre_items,
                            ).push(dn));
                            assert(item_declare_names(items@) =~= item_declare_names(
                                pre_items,
                            ));
                            assert(item_meta_ids(items@) =~= item_meta_ids(pre_items));
                        }
                    } else {
                        let mut d = d;
                        d.stmts.push(classify_stmt(line.as_slice()));
                        open_def = Some(d);
                    }
                }
                None => {}
            }
            proof {
                assert(define_names_of(lv.take(li + 1)) =~= define_names_of(lv.take(li as int)));
                assert(declare_names_of(lv.take(li + 1)) =~= declare_names_of(lv.take(
                    li as int,
                )));
                assert(meta_ids_of(lv.take(li + 1)) =~= meta_ids_of(lv.take(li as int)));
                assert(item_define_names(items@) + pending_names(open_def) =~= define_names_of(
                    lv.take(li + 1),
                ));
            }
        }
        proof {
            assert(!malformed_line(l_spec));
        }
        li = li + 1;
    }
    // a definition the text never closed still counts
    let prev = open_def;
    match prev {
        Some(d) => {
            let ghost pre_items = items@;
            let ghost dn = d.name@;
            items.push(Item::Define(d));
            proof {
                assert(items@.drop_last() =~= pre_items);
                assert(item_define_names(items@) =~= item_define_names(pre_items).push(dn));
                assert(item_declare_names(items@) =~= item_declare_names(pre_items));
                assert(item_meta_ids(items@) =~= item_meta_ids(pre_items));
            }
        }
        None => {}
    }
    proof {
        assert(lv.take(nl as int) =~= lv);
        assert(item_define_names(items@) =~= define_names_of(lv));
        assert(!(exists|i: int| 0 <= i < lv.len() && malformed_line(#[trigger] lv[i]))) by {
            if exists|i: int| 0 <= i < lv.len() && malformed_line(#[trigger] lv[i]) {
                let i = choose|i: int| 0 <= i < lv.len() && malformed_line(#[trigger] lv[i]);
                assert(!malformed_line(lv[i]));
            }
        }
    }
    Ok(items)
}

} // verus!
