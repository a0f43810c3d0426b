//! Function signatures as they appear in the compiler's intermediate
//! representation: a recursive type language and an ordered parameter
//! list with an optional return type.

use vstd::prelude::*;
use crate::chars::{chars_of, contains_sub, contains_sub_spec, str_eq};
use crate::fmt_num::{push_dec, spec_dec};

verus! {

/// A type as the IR writes it.
#[derive(Debug)]
pub enum Type {
    /// Integer of the given bit width.
    Integer(u32),
    /// Floating-point number of the given bit width.
    Float(u32),
    /// Raw pointer to a type.
    Pointer(Box<Type>),
    /// A named, opaque alias.
    Alias(String),
    /// A function type.
    Fn(Box<FnSig>),
    /// The sentinel put in place of a polymorphic receiver.
    Erased,
}

/// A function signature: parameter types in order, optional return type.
#[derive(Debug)]
pub struct FnSig {
    pub inputs: Vec<Type>,
    pub output: Option<Box<Type>>,
}

/// Mathematical image of a `Type`: names become character sequences.
#[verifier::ext_equal]
pub enum TypeV {
    Integer(u32),
    Float(u32),
    Pointer(Box<TypeV>),
    Alias(Seq<char>),
    Fn(Box<SigV>),
    Erased,
}

/// Mathematical image of a `FnSig`.
#[verifier::ext_equal]
pub struct SigV {
    pub inputs: Seq<TypeV>,
    pub output: Option<TypeV>,
}

/// The mathematical image of a type.
pub open spec fn type_view(t: Type) -> TypeV
    decreases t,
{
    match t {
        Type::Integer(w) => TypeV::Integer(w),
        Type::Float(w) => TypeV::Float(w),
        Type::Pointer(inner) => TypeV::Pointer(Box::new(type_view(*inner))),
        Type::Alias(name) => TypeV::Alias(name@),
        Type::Fn(sig) => TypeV::Fn(Box::new(sig_view(*sig))),
        Type::Erased => TypeV::Erased,
    }
}

/// The mathematical images of a list of types, in order.
pub open spec fn types_view(ts: Seq<Type>) -> Seq<TypeV>
    decreases ts,
{
    if ts.len() == 0 {
        Seq::empty()
    } else {
        types_view(ts.drop_last()).push(type_view(ts.last()))
    }
}

/// The mathematical image of a signature.
pub open spec fn sig_view(s: FnSig) -> SigV
    decreases s,
{
    SigV {
        inputs: types_view(s.inputs@),
        output: match s.output {
            Some(t) => Some(type_view(*t)),
            None => None,
        },
    }
}

/// `types_view` maps index for index.
pub proof fn lemma_types_view_index(ts: Seq<Type>)
    ensures
        types_view(ts).len() == ts.len(),
        forall|i: int| 0 <= i < ts.len() ==> types_view(ts)[i] == type_view(ts[i]),
    decreases ts,
{
    if ts.len() > 0 {
        lemma_types_view_index(ts.drop_last());
    }
}

impl Type {
    /// The sentinel for an erased receiver type.
    pub fn erased() -> (r: Type)
        ensures
            type_view(r) == TypeV::Erased,
    {
        Type::Erased
    }

    /// Is this type the erased-receiver sentinel?
    pub fn has_been_erased(&self) -> (r: bool)
        ensures
            r == (type_view(*self) is Erased),
    {
        match self {
            Type::Erased => true,
            _ => false,
        }
    }

    /// A structurally identical copy.
    pub fn duplicate(&self) -> (r: Type)
        ensures
            type_view(r) == type_view(*self),
        decreases *self,
    {
        match self {
            Type::Integer(w) => Type::Integer(*w),
            Type::Float(w) => Type::Float(*w),
            Type::Pointer(inner) => Type::Pointer(Box::new(inner.duplicate())),
            Type::Alias(name) => Type::Alias(name.clone()),
            Type::Fn(sig) => Type::Fn(Box::new(sig.duplicate())),
            Type::Erased => Type::Erased,
        }
    }
}

impl FnSig {
    /// A structurally identical copy.
    pub fn duplicate(&self) -> (r: FnSig)
        ensures
            sig_view(r) == sig_view(*self),
        decreases *self,
    {
        let mut inputs: Vec<Type> = Vec::new();
        let n = self.inputs.len();
        let mut i: usize = 0;
        while i < n
            invariant
                i <= n,
                n == self.inputs@.len(),
                inputs@.len() == i,
                forall|j: int| 0 <= j < i ==> type_view(inputs@[j]) == type_view(
                    self.inputs@[j],
                ),
            decreases n - i,
        {
            inputs.push(self.inputs[i].duplicate());
            i = i + 1;
        }
        let output = match &self.output {
            Some(t) => Some(Box::new(t.duplicate())),
            None => None,
        };
        let r = FnSig { inputs, output };
        proof {
            lemma_types_view_index(r.inputs@);
            lemma_types_view_index(self.inputs@);
            assert(types_view(r.inputs@) =~= types_view(self.inputs@));
            assert(sig_view(r) =~= sig_view(*self));
        }
        r
    }
}

/// Structural equality of two types, over their images.
pub fn type_eq(a: &Type, b: &Type) -> (r: bool)
    ensures
        r == (type_view(*a) == type_view(*b)),
    decreases *a,
{
    match (a, b) {
        (Type::Integer(x), Type::Integer(y)) => x == y,
        (Type::Float(x), Type::Float(y)) => x == y,
        (Type::Pointer(p), Type::Pointer(q)) => type_eq(p, q),
        (Type::Alias(x), Type::Alias(y)) => str_eq(x.as_str(), y.as_str()),
        (Type::Fn(f), Type::Fn(g)) => sig_eq(f, g),
        (Type::Erased, Type::Erased) => true,
        _ => false,
    }
}

/// Structural equality of two signatures, over their images.
pub fn sig_eq(a: &FnSig, b: &FnSig) -> (r: bool)
    ensures
        r == (sig_view(*a) == sig_view(*b)),
    decreases *a,
{
    proof {
        lemma_types_view_index(a.inputs@);
        lemma_types_view_index(b.inputs@);
    }
    let n = a.inputs.len();
    if n != b.inputs.len() {
        return false;
    }
    let mut i: usize = 0;
    while i < n
        invariant
            i <= n,
            n == a.inputs@.len() == b.inputs@.len(),
            types_view(a.inputs@).len() == n,
            types_view(b.inputs@).len() == n,
            forall|j: int| 0 <= j < n ==> types_view(a.inputs@)[j] == type_view(a.inputs@[j]),
            forall|j: int| 0 <= j < n ==> types_view(b.inputs@)[j] == type_view(b.inputs@[j]),
            forall|j: int| 0 <= j < i ==> types_view(a.inputs@)[j] == types_view(b.inputs@)[j],
        decreases n - i,
    {
        if !type_eq(&a.inputs[i], &b.inputs[i]) {
            proof {
                assert(types_view(a.inputs@)[i as int] != types_view(b.inputs@)[i as int]);
            }
            return false;
        }
        i = i + 1;
    }
    proof {
        assert(types_view(a.inputs@) =~= types_view(b.inputs@));
    }
    match (&a.output, &b.output) {
        (None, None) => {
            proof {
                assert(sig_view(*a) =~= sig_view(*b));
            }
            true
        }
        (Some(x), Some(y)) => {
            let r = type_eq(x, y);
            proof {
                if r {
                    assert(sig_view(*a) =~= sig_view(*b));
                }
            }
            r
        }
        _ => false,
    }
}

/// The printable name of a type: `i<w>` and `f<w>` for scalars, `*` for
/// a pointer, the alias text itself, a nested `fn` shape, `_` for the
/// erased sentinel.
pub open spec fn ty_name(t: TypeV) -> Seq<char>
    decreases t,
{
    match t {
        TypeV::Integer(w) => seq!['i'] + spec_dec(w as nat),
        TypeV::Float(w) => seq!['f'] + spec_dec(w as nat),
        TypeV::Pointer(inner) => seq!['*'] + ty_name(*inner),
        TypeV::Alias(name) => name,
        TypeV::Fn(sig) => sig_name(*sig),
        TypeV::Erased => seq!['_'],
    }
}

/// Comma-joined printable names of a list of types.
pub open spec fn tys_name(ts: Seq<TypeV>) -> Seq<char>
    decreases ts,
{
    if ts.len() == 0 {
        Seq::empty()
    } else if ts.len() == 1 {
        ty_name(ts[0])
    } else {
        tys_name(ts.drop_last()) + seq![',', ' '] + ty_name(ts.last())
    }
}

/// The printable name of a signature: `fn(<inputs>)`, with ` -> <output>`
/// appended when there is a return type.
pub open spec fn sig_name(s: SigV) -> Seq<char>
    decreases s,
{
    let head = seq!['f', 'n', '('] + tys_name(s.inputs) + seq![')'];
    match s.output {
        Some(t) => head + seq![' ', '-', '>', ' '] + ty_name(t),
        None => head,
    }
}

/// Appends the printable name of a type to `out`.
pub fn push_type_name(t: &Type, out: &mut Vec<char>)
    ensures
        final(out)@ == old(out)@ + ty_name(type_view(*t)),
    decreases *t,
{
    match t {
        Type::Integer(w) => {
            out.push('i');
            let ghost mid = out@;
            push_dec(*w as u64, out);
            proof {
                assert(out@ =~= old(out)@ + ty_name(type_view(*t)));
            }
        }
        Type::Float(w) => {
            out.push('f');
            let ghost mid = out@;
            push_dec(*w as u64, out);
            proof {
                assert(out@ =~= old(out)@ + ty_name(type_view(*t)));
            }
        }
        Type::Pointer(inner) => {
            out.push('*');
            push_type_name(inner, out);
            proof {
                assert(out@ =~= old(out)@ + ty_name(type_view(*t)));
            }
        }
        Type::Alias(name) => {
            let mut v = chars_of(name.as_str());
            let n = v.len();
            let mut i: usize = 0;
            while i < n
                invariant
                    i <= n,
                    n == v@.len(),
                    out@ == old(out)@ + v@.take(i as int),
                decreases n - i,
            {
                proof {
                    assert((old(out)@ + v@.take(i as int)).push(v@[i as int]) =~= old(out)@
                        + v@.take(i + 1));
                }
                out.push(v[i]);
                i = i + 1;
            }
            proof {
                assert(v@.take(n as int) =~= v@);
            }
        }
        Type::Fn(sig) => {
            push_sig_name(sig, out);
        }
        Type::Erased => {
            out.push('_');
            proof {
                assert(out@ =~= old(out)@ + ty_name(type_view(*t)));
            }
        }
    }
}

/// Appends the printable name of a signature to `out`.
pub fn push_sig_name(s: &FnSig, out: &mut Vec<char>)
    ensures
        final(out)@ == old(out)@ + sig_name(sig_view(*s)),
    decreases *s,
{
    proof {
        lemma_types_view_index(s.inputs@);
    }
    out.push('f');
    out.push('n');
    out.push('(');
    let ghost base = out@;
    let ghost tvs = types_view(s.inputs@);
    let n = s.inputs.len();
    let mut i: usize = 0;
    while i < n
        invariant
            i <= n,
            n == s.inputs@.len(),
            tvs == types_view(s.inputs@),
            tvs.len() == n,
            forall|j: int| 0 <= j < n ==> tvs[j] == type_view(s.inputs@[j]),
            base == old(out)@ + seq!['f', 'n', '('],
            out@ == base + tys_name(tvs.take(i as int)),
        decreases n - i,
    {
        if i > 0 {
            out.push(',');
            out.push(' ');
        }
        push_type_name(&s.inputs[i], out);
        proof {
            let upto = tvs.take(i + 1);
            assert(upto.drop_last() =~= tvs.take(i as int));
            assert(upto.last() == tvs[i as int]);
            if i == 0 {
                assert(tys_name(upto) == ty_name(tvs[0]));
                assert(out@ =~= base + tys_name(upto));
            } else {
                assert(tys_name(upto) == tys_name(tvs.take(i as int)) + seq![',', ' ']
                    + ty_name(tvs[i as int]));
                assert(out@ =~= base + tys_name(upto));
            }
        }
        i = i + 1;
    }
    proof {
        assert(tvs.take(n as int) =~= tvs);
    }
    out.push(')');
    match &s.output {
        Some(t) => {
            out.push(' ');
            out.push('-');
            out.push('>');
            out.push(' ');
            push_type_name(t, out);
            proof {
                assert(out@ =~= old(out)@ + sig_name(sig_view(*s)));
            }
        }
        None => {
            proof {
                assert(out@ =~= old(out)@ + sig_name(sig_view(*s)));
            }
        }
    }
}

/// Shape of a formatter-trait method as the IR writes it: two pointer
/// arguments, the second to `core::fmt::Formatter`, returning `i1`.
pub open spec fn is_any_formatter_sig(s: SigV) -> bool {
    s.inputs.len() == 2 && s.inputs[0] is Pointer && s.inputs[1] == TypeV::Pointer(
        Box::new(TypeV::Alias("core::fmt::Formatter"@)),
    ) && s.output == Some(TypeV::Integer(1))
}

/// Same shape, with the receiver a pointer to an alias whose name
/// mentions `fmt::Void`.
pub open spec fn is_void_formatter_sig(s: SigV) -> bool {
    is_any_formatter_sig(s) && match s.inputs[0] {
        TypeV::Pointer(inner) => match *inner {
            TypeV::Alias(name) => contains_sub_spec(name, "fmt::Void"@),
            _ => false,
        },
        _ => false,
    }
}

/// Does this signature have the formatter-method shape
/// `fn(*_, *core::fmt::Formatter) -> i1`, whatever the receiver?
pub fn sig_is_any_formatter_result(sig: &FnSig) -> (r: bool)
    ensures
        r == is_any_formatter_sig(sig_view(*sig)),
{
    proof {
        reveal_strlit("core::fmt::Formatter");
        lemma_types_view_index(sig.inputs@);
    }
    if sig.inputs.len() != 2 {
        return false;
    }
    match &sig.inputs[0] {
        Type::Pointer(_) => {
            proof {
                assert(type_view(sig.inputs@[0]) is Pointer);
            }
        }
        _ => {
            proof {
                assert(!(type_view(sig.inputs@[0]) is Pointer));
            }
            return false;
        }
    }
    match &sig.inputs[1] {
        Type::Pointer(inner) => match &**inner {
            Type::Alias(name) => {
                let ghost tv1 = type_view(sig.inputs@[1]);
                proof {
                    assert(sig.inputs@[1] == Type::Pointer(*inner));
                    assert(type_view(*(*inner)) == TypeV::Alias(name@));
                    assert(tv1 == TypeV::Pointer(Box::new(type_view(*(*inner)))));
                    assert(tv1 == TypeV::Pointer(Box::new(TypeV::Alias(name@))));
                }
                if !str_eq(name.as_str(), "core::fmt::Formatter") {
                    proof {
                        assert(tv1 != TypeV::Pointer(
                            Box::new(TypeV::Alias("core::fmt::Formatter"@)),
                        ));
                    }
                    return false;
                }
                proof {
                    assert(tv1 == TypeV::Pointer(
                        Box::new(TypeV::Alias("core::fmt::Formatter"@)),
                    ));
                }
            }
            _ => {
                proof {
                    let tv1 = type_view(sig.inputs@[1]);
                    assert(sig.inputs@[1] == Type::Pointer(*inner));
                    assert(!(type_view(*(*inner)) is Alias));
                    assert(tv1 == TypeV::Pointer(Box::new(type_view(*(*inner)))));
                    assert(tv1 is Pointer ==> !(*(tv1->Pointer_0) is Alias));
                }
                return false;
            }
        },
        _ => {
            proof {
                assert(!(type_view(sig.inputs@[1]) is Pointer));
            }
            return false;
        }
    }
    match &sig.output {
        Some(t) => match &**t {
            Type::Integer(w) => {
                proof {
                    assert(sig_view(*sig).output == Some(TypeV::Integer(*w)));
                }
                *w == 1
            }
            _ => {
                proof {
                    assert(sig_view(*sig).output != Some(TypeV::Integer(1)));
                }
                false
            }
        },
        None => false,
    }
}

/// Does this signature have the formatter-method shape with a receiver
/// whose alias name mentions `fmt::Void`?
pub fn sig_is_void_formatter_result(sig: &FnSig) -> (r: bool)
    ensures
        r == is_void_formatter_sig(sig_view(*sig)),
{
    proof {
        reveal_strlit("fmt::Void");
        lemma_types_view_index(sig.inputs@);
    }
    if !sig_is_any_formatter_result(sig) {
        return false;
    }
    match &sig.inputs[0] {
        Type::Pointer(inner) => match &**inner {
            Type::Alias(name) => {
                let ghost tv0 = type_view(sig.inputs@[0]);
                proof {
                    assert(sig.inputs@[0] is Pointer);
                    assert(sig.inputs@[0] == Type::Pointer(*inner));
                    assert(*(*inner) is Alias);
                    assert(type_view(*(*inner)) == TypeV::Alias(name@));
                    assert(tv0 == TypeV::Pointer(Box::new(type_view(*(*inner)))));
                    assert(tv0 == TypeV::Pointer(Box::new(TypeV::Alias(name@))));
                }
                let hay = chars_of(name.as_str());
                let needle = chars_of("fmt::Void");
                contains_sub(hay.as_slice(), needle.as_slice())
            }
            _ => {
                proof {
                    let tv0 = type_view(sig.inputs@[0]);
                    assert(sig.inputs@[0] == Type::Pointer(*inner));
                    assert(!(type_view(*(*inner)) is Alias));
                    assert(tv0 == TypeV::Pointer(Box::new(type_view(*(*inner)))));
                    assert(tv0 is Pointer ==> !(*(tv0->Pointer_0) is Alias));
                }
                false
            }
        },
        _ => {
            proof {
                assert(!(type_view(sig.inputs@[0]) is Pointer));
            }
            false
        }
    }
}

} // verus!
