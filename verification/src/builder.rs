//! Call-graph construction: one node per live symbol, direct-call edges
//! from the IR statements, refinement from the disassembled machine
//! code, and synthetic dispatch nodes for indirect calls.

use vstd::prelude::*;
use vstd::string::StringExecFns;
use crate::chars::str_eq;
use crate::demangle::{demangled, demangled_of};
use crate::graph::{spec_has_edge, Graph};
use crate::ir::{Declare, Define, MetadataKind, Stmt};
use crate::machine::ConsistencyViolation;
use crate::metrics::Local;
use crate::names::{dehash, has_hash_suffix, is_tag};
use crate::node::Node;
use crate::node::Node as make_node;
use crate::sig::{
    is_any_formatter_sig, sig_eq, sig_is_any_formatter_result, sig_is_void_formatter_result,
    sig_name, sig_view, FnSig, Type,
};
use crate::symbols::ExeSymbol;

verus! {

/// A condition worth reporting but not fatal.
#[derive(Debug)]
pub enum Warning {
    /// A hard-coded stack size was injected for a runtime helper.
    AdHocStackInfo(String),
    /// No stack usage information for this symbol.
    NoStackInfo(String),
    /// An inline-assembly body is assumed not to use the stack.
    AsmAssumedNoStack(String),
    /// An intrinsic is assumed to lower directly to machine code.
    IntrinsicAssumedInlined(String),
    /// The compiler's zero frame was overridden by the disassembler.
    OverrodeCompilerStack(String),
    /// A function makes an indirect call with no type information.
    IndirectWithoutType(String),
    /// The program holds untyped external symbols.
    UntypedSymbols,
    /// No type information for this symbol.
    NoTypeInfo(String),
    /// A synthetic dispatch node ended up with no callees.
    NoCallees(String),
    /// The filter root matched several symbols.
    AmbiguousStart(String),
    /// The filter root matched nothing.
    StartNotFound(String),
}

/// Does the compiler's option listing mention the call-metadata flag?
/// The build driver probes the compiler and decides the resolver mode
/// on this answer.
pub fn mentions_call_metadata(listing: &str) -> (r: bool)
    ensures
        r == crate::chars::contains_sub_spec(listing@, "call-metadata"@),
{
    proof {
        reveal_strlit("call-metadata");
    }
    let hay = crate::chars::chars_of(listing);
    let needle = crate::chars::chars_of("call-metadata");
    crate::chars::contains_sub(hay.as_slice(), needle.as_slice())
}

/// The outcome of looking the filter root up.
#[derive(Debug)]
pub enum StartLookup {
    /// The root names this node.
    Found(usize),
    /// Several symbols match the root; filtering is skipped.
    Ambiguous,
    /// Nothing matches the root; filtering is skipped.
    NotFound,
}

/// The root followed by the hash marker, as the prefix search wants
/// it.
pub open spec fn start_needle(s: Seq<char>) -> Seq<char> {
    s + seq![':', ':', 'h']
}

/// The index entry at `i` demangles to a name beginning with the
/// needle.
pub open spec fn start_hit(indices: Seq<(String, usize)>, needle: Seq<char>, i: int) -> bool {
    0 <= i < indices.len() && crate::chars::is_prefix(needle, demangled_of(indices[i].0@))
}

/// A fatal defect in the inputs.
#[derive(Debug)]
pub enum BuildError {
    /// A direct-call target is neither defined nor declared undefined.
    UnresolvedSymbol(String),
    /// An indirect call lacks its metadata, or references an undefined
    /// or ill-formed id.
    MetadataMismatch(String),
    /// The disassembly and the compiler's records contradict each
    /// other on the named symbol.
    Consistency(ConsistencyViolation, String),
    /// A bitcast-call statement names no symbol.
    UnnamedBitcastCall(String),
    /// An intrinsic call this analysis does not understand.
    UnhandledIntrinsic(String),
    /// A branch target with no symbol at its address.
    UnknownCallTarget(u64),
}

/// There is an entry with this key.
pub open spec fn has_key<V>(m: Seq<(String, V)>, k: Seq<char>) -> bool {
    exists|i: int| 0 <= i < m.len() && (#[trigger] m[i]).0@ == k
}

/// All keys are distinct.
pub open spec fn keys_unique<V>(m: Seq<(String, V)>) -> bool {
    forall|i: int, j: int|
        0 <= i < m.len() && 0 <= j < m.len() && i != j ==> (#[trigger] m[i]).0@ != (
        #[trigger] m[j]).0@
}

/// A key stays present when an entry is appended, and the new entry's
/// key becomes present.
proof fn lemma_has_key_push<V>(m: Seq<(String, V)>, e: (String, V), k: Seq<char>)
    requires
        has_key(m, k) || e.0@ == k,
    ensures
        has_key(m.push(e), k),
{
    if has_key(m, k) {
        let i = choose|i: int| 0 <= i < m.len() && (#[trigger] m[i]).0@ == k;
        assert(m.push(e)[i] == m[i]);
    } else {
        assert(m.push(e)[m.len() as int] == e);
    }
}

/// Appending a fresh key keeps the keys distinct.
proof fn lemma_keys_unique_push<V>(m: Seq<(String, V)>, e: (String, V))
    requires
        keys_unique(m),
        !has_key(m, e.0@),
    ensures
        keys_unique(m.push(e)),
{
    let m2 = m.push(e);
    assert forall|i: int, j: int|
        0 <= i < m2.len() && 0 <= j < m2.len() && i != j implies (#[trigger] m2[i]).0@ != (
        #[trigger] m2[j]).0@ by {
        if i == m.len() as int {
            assert(m2[j] == m[j]);
            assert(m[j].0@ != e.0@);
        } else if j == m.len() as int {
            assert(m2[i] == m[i]);
            assert(m[i].0@ != e.0@);
        } else {
            assert(m2[i] == m[i] && m2[j] == m[j]);
        }
    }
}

/// The entry at `i` holds the key and no earlier entry does.
pub open spec fn first_key_at<V>(m: Seq<(String, V)>, k: Seq<char>, i: int) -> bool {
    0 <= i < m.len() && m[i].0@ == k && forall|j: int| 0 <= j < i ==> (#[trigger] m[j]).0@ != k
}

/// The count recorded under a key: the first matching entry's count,
/// zero when no entry matches.
pub open spec fn spec_count_of(amb: Seq<(String, u32)>, k: Seq<char>) -> u32
    decreases amb,
{
    if amb.len() == 0 {
        0
    } else if amb[0].0@ == k {
        amb[0].1
    } else {
        spec_count_of(amb.drop_first(), k)
    }
}

/// The recorded count is the first matching entry's, and zero without
/// a match.
proof fn lemma_count_of_first(amb: Seq<(String, u32)>, k: Seq<char>)
    ensures
        forall|i: int| #[trigger] first_key_at(amb, k, i) ==> spec_count_of(amb, k)
            == amb[i].1,
        (forall|j: int| 0 <= j < amb.len() ==> (#[trigger] amb[j]).0@ != k) ==> spec_count_of(
            amb,
            k,
        ) == 0,
    decreases amb,
{
    if amb.len() > 0 {
        lemma_count_of_first(amb.drop_first(), k);
        assert forall|i: int| #[trigger] first_key_at(amb, k, i) implies spec_count_of(amb, k)
            == amb[i].1 by {
            if amb[0].0@ == k {
                assert(i == 0);
            } else {
                assert(first_key_at(amb.drop_first(), k, i - 1)) by {
                    assert forall|j: int|
                        0 <= j < i - 1 implies (#[trigger] amb.drop_first()[j]).0@ != k by {
                        assert(amb[j + 1].0@ != k);
                    }
                }
                assert(amb.drop_first()[i - 1] == amb[i]);
            }
        }
        if forall|j: int| 0 <= j < amb.len() ==> (#[trigger] amb[j]).0@ != k {
            assert forall|j: int|
                0 <= j < amb.drop_first().len() implies (#[trigger] amb.drop_first()[j]).0@
                != k by {
                assert(amb[j + 1].0@ != k);
            }
        }
    }
}

/// The entry at `i` holds the id and no earlier entry does.
pub open spec fn first_id_at<V>(m: Seq<(u64, V)>, id: u64, i: int) -> bool {
    0 <= i < m.len() && m[i].0 == id && forall|j: int| 0 <= j < i ==> (#[trigger] m[j]).0 != id
}

/// Finds the first entry with this key.
pub fn lookup<'a, V>(m: &'a Vec<(String, V)>, key: &str) -> (r: Option<&'a V>)
    ensures
        r is Some <==> has_key(m@, key@),
        r is Some ==> exists|i: int| #[trigger] first_key_at(m@, key@, i) && *r->Some_0
            == m@[i].1,
{
    let n = m.len();
    let mut i: usize = 0;
    while i < n
        invariant
            i <= n,
            n == m@.len(),
            forall|j: int| 0 <= j < i ==> (#[trigger] m@[j]).0@ != key@,
        decreases n - i,
    {
        if str_eq(m[i].0.as_str(), key) {
            proof {
                assert(first_key_at(m@, key@, i as int));
            }
            return Some(&m[i].1);
        }
        i = i + 1;
    }
    None
}

/// Finds the stack size recorded for this name: the first record wins.
pub fn stack_of(m: &Vec<(String, u64)>, key: &str) -> (r: Option<u64>)
    ensures
        r is Some <==> has_key(m@, key@),
        r is Some ==> exists|i: int| #[trigger] first_key_at(m@, key@, i) && r->Some_0
            == m@[i].1,
{
    match lookup(m, key) {
        Some(v) => Some(*v),
        None => None,
    }
}

/// Tracking for one indirect-call or dynamic-dispatch shape.
pub struct IndirectBucket {
    /// At least one call site of this shape was seen.
    pub called: bool,
    /// Nodes that perform a call of this shape.
    pub callers: Vec<usize>,
    /// Nodes a call of this shape may land in.
    pub callees: Vec<usize>,
}

/// Every synthetic (dashed) node carries an exactly-zero frame.
pub open spec fn dashed_zero(nodes: Seq<Node>) -> bool {
    forall|i: int| 0 <= i < nodes.len() && (#[trigger] nodes[i]).dashed ==> nodes[i].local
        == Local::Exact(0u64)
}

/// Bucket members name graph nodes.
pub open spec fn buckets_wf(buckets: Seq<(FnSig, IndirectBucket)>, n: int) -> bool {
    forall|i: int|
        0 <= i < buckets.len() ==> {
            &&& (forall|j: int|
                0 <= j < (#[trigger] buckets[i]).1.callers@.len() ==> (#[trigger] buckets[
                i].1.callers@[j]) < n)
            &&& (forall|j: int|
                0 <= j < buckets[i].1.callees@.len() ==> (#[trigger] buckets[i].1.callees@[j])
                    < n)
        }
}

/// The call-graph builder: the growing graph plus the side tables the
/// construction phases share.
pub struct Builder {
    /// The graph being built.
    pub graph: Graph,
    /// Canonical name to node index.
    pub indices: Vec<(String, usize)>,
    /// Any symbol name to its canonical name.
    pub aliases: Vec<(String, String)>,
    /// Address to canonical name, ascending.
    pub addr2name: Vec<(u64, String)>,
    /// De-hashed demangled name to how many nodes share it.
    pub ambiguous: Vec<(String, u32)>,
    /// Indirect-call shapes (full signature).
    pub indirects: Vec<(FnSig, IndirectBucket)>,
    /// Dynamic-dispatch shapes (receiver erased).
    pub dynamics: Vec<(FnSig, IndirectBucket)>,
    /// Nodes whose signature is a formatter method.
    pub formatter_callees: Vec<usize>,
    /// At least one symbol had a compiler stack-size record.
    pub has_stack_usage_info: bool,
    /// Some symbol has no type information at all.
    pub has_untyped_symbols: bool,
    /// Everything worth reporting, in discovery order.
    pub warnings: Vec<Warning>,
}

impl Builder {
    /// The structural invariant: all index-like tables point into the
    /// graph, canonical names are unique, every alias resolves to a
    /// canonical name the graph knows, and every synthetic node has an
    /// exactly-zero frame.
    pub open spec fn wf(self) -> bool {
        &&& self.graph.wf()
        &&& keys_unique(self.indices@)
        &&& (forall|i: int| 0 <= i < self.indices@.len() ==> (#[trigger] self.indices@[i]).1
            < self.graph.nodes@.len())
        &&& (forall|a: int| 0 <= a < self.aliases@.len() ==> has_key(
            self.indices@,
            (#[trigger] self.aliases@[a]).1@,
        ))
        &&& dashed_zero(self.graph.nodes@)
        &&& buckets_wf(self.indirects@, self.graph.nodes@.len() as int)
        &&& buckets_wf(self.dynamics@, self.graph.nodes@.len() as int)
        &&& (forall|i: int| 0 <= i < self.formatter_callees@.len() ==> (
        #[trigger] self.formatter_callees@[i]) < self.graph.nodes@.len())
    }

    /// A fresh, empty builder.
    pub fn new() -> (r: Builder)
        ensures
            r.wf(),
            r.graph.nodes@.len() == 0,
            r.graph.edges@.len() == 0,
            r.warnings@.len() == 0,
    {
        Builder {
            graph: Graph::new(),
            indices: Vec::new(),
            aliases: Vec::new(),
            addr2name: Vec::new(),
            ambiguous: Vec::new(),
            indirects: Vec::new(),
            dynamics: Vec::new(),
            formatter_callees: Vec::new(),
            has_stack_usage_info: false,
            has_untyped_symbols: false,
            warnings: Vec::new(),
        }
    }

    /// The node a symbol name resolves to, if it is known.
    pub fn node_index_of(&self, name: &str) -> (r: Option<usize>)
        requires
            self.wf(),
        ensures
            r is Some ==> r->Some_0 < self.graph.nodes@.len(),
            r is Some <==> has_key(self.indices@, name@),
            r is Some ==> exists|i: int| #[trigger] first_key_at(self.indices@, name@, i)
                && r->Some_0 == self.indices@[i].1,
    {
        match lookup(&self.indices, name) {
            Some(i) => Some(*i),
            None => None,
        }
    }

    /// The node registered at this address: the first address entry's
    /// canonical name, resolved through the index.
    pub fn node_at_address(&self, addr: u64) -> (r: Option<usize>)
        requires
            self.wf(),
        ensures
            r is Some ==> r->Some_0 < self.graph.nodes@.len(),
            forall|i: int|
                #[trigger] first_id_at(self.addr2name@, addr, i) ==> {
                    &&& (r is Some <==> has_key(self.indices@, self.addr2name@[i].1@))
                    &&& (r is Some ==> exists|x: int| #[trigger] first_key_at(
                        self.indices@,
                        self.addr2name@[i].1@,
                        x,
                    ) && r->Some_0 == self.indices@[x].1)
                },
            (forall|i: int|
                0 <= i < self.addr2name@.len() ==> (#[trigger] self.addr2name@[i]).0 != addr)
                ==> r is None,
            r is Some ==> exists|i: int| #[trigger] first_id_at(self.addr2name@, addr, i),
    {
        let n = self.addr2name.len();
        let mut i: usize = 0;
        while i < n
            invariant
                self.wf(),
                i <= n,
                n == self.addr2name@.len(),
                forall|j: int| 0 <= j < i ==> (#[trigger] self.addr2name@[j]).0 != addr,
            decreases n - i,
        {
            if self.addr2name[i].0 == addr {
                proof {
                    assert(first_id_at(self.addr2name@, addr, i as int));
                    assert forall|i2: int|
                        #[trigger] first_id_at(self.addr2name@, addr, i2) implies i2
                        == i as int by {
                        if i2 < i as int {
                            assert(self.addr2name@[i2].0 != addr);
                        } else if i2 > i as int {
                            assert(self.addr2name@[i as int].0 != addr);
                        }
                    }
                }
                return self.node_index_of(self.addr2name[i].1.as_str());
            }
            i = i + 1;
        }
        None
    }

    /// Adds an edge unless it is already present, as edge discovery
    /// never duplicates a caller/callee pair.
    fn add_edge_once(&mut self, from: usize, to: usize)
        requires
            old(self).wf(),
            from < old(self).graph.nodes@.len(),
            to < old(self).graph.nodes@.len(),
        ensures
            final(self).wf(),
            final(self).graph.nodes@ == old(self).graph.nodes@,
            final(self).indices == old(self).indices,
            final(self).aliases == old(self).aliases,
            final(self).addr2name == old(self).addr2name,
            final(self).ambiguous == old(self).ambiguous,
            final(self).indirects == old(self).indirects,
            final(self).dynamics == old(self).dynamics,
            final(self).formatter_callees == old(self).formatter_callees,
            final(self).has_stack_usage_info == old(self).has_stack_usage_info,
            final(self).has_untyped_symbols == old(self).has_untyped_symbols,
            final(self).warnings == old(self).warnings,
            old(self).graph.edges@.len() <= final(self).graph.edges@.len(),
            forall|e: int| 0 <= e < old(self).graph.edges@.len() ==> final(self).graph.edges@[e]
                == #[trigger] old(self).graph.edges@[e],
            spec_has_edge(final(self).graph.edges@, from, to),
    {
        if !self.graph.has_edge(from, to) {
            self.graph.add_edge(from, to);
            proof {
                assert(self.graph.edges@.last() == (from, to));
            }
        }
    }
}

/// Does the list hold this exact string?
pub fn contains_str(list: &Vec<String>, key: &str) -> (r: bool)
    ensures
        r == exists|i: int| 0 <= i < list@.len() && (#[trigger] list@[i])@ == key@,
{
    let n = list.len();
    let mut i: usize = 0;
    while i < n
        invariant
            i <= n,
            n == list@.len(),
            forall|j: int| 0 <= j < i ==> (#[trigger] list@[j])@ != key@,
        decreases n - i,
    {
        if str_eq(list[i].as_str(), key) {
            return true;
        }
        i = i + 1;
    }
    false
}

/// The first definition with this name.
pub fn find_define<'a>(defines: &'a Vec<Define>, name: &str) -> (r: Option<&'a Define>)
    ensures
        r is Some <==> exists|i: int|
            0 <= i < defines@.len() && (#[trigger] defines@[i]).name@ == name@,
        r is Some ==> exists|i: int|
            0 <= i < defines@.len() && (#[trigger] defines@[i]).name@ == name@ && *r->Some_0
                == defines@[i],
{
    let n = defines.len();
    let mut i: usize = 0;
    while i < n
        invariant
            i <= n,
            n == defines@.len(),
            forall|j: int| 0 <= j < i ==> (#[trigger] defines@[j]).name@ != name@,
        decreases n - i,
    {
        if str_eq(defines[i].name.as_str(), name) {
            return Some(&defines[i]);
        }
        i = i + 1;
    }
    None
}

/// The first declaration with this name.
pub fn find_declare<'a>(declares: &'a Vec<Declare>, name: &str) -> (r: Option<&'a Declare>)
    ensures
        r is Some <==> exists|i: int|
            0 <= i < declares@.len() && (#[trigger] declares@[i]).name@ == name@,
{
    let n = declares.len();
    let mut i: usize = 0;
    while i < n
        invariant
            i <= n,
            n == declares@.len(),
            forall|j: int| 0 <= j < i ==> (#[trigger] declares@[j]).name@ != name@,
        decreases n - i,
    {
        if str_eq(declares[i].name.as_str(), name) {
            return Some(&declares[i]);
        }
        i = i + 1;
    }
    None
}

/// Registers `idx` as a potential callee of the bucket keyed by `sig`,
/// creating the bucket if the shape is new.
fn bucket_add_callee(buckets: &mut Vec<(FnSig, IndirectBucket)>, sig: FnSig, idx: usize, bound: usize)
    requires
        buckets_wf(old(buckets)@, bound as int),
        idx < bound,
    ensures
        buckets_wf(final(buckets)@, bound as int),
{
    let n = buckets.len();
    let mut i: usize = 0;
    while i < n
        invariant
            i <= n,
            n == buckets@.len(),
            buckets_wf(buckets@, bound as int),
            idx < bound,
        decreases n - i,
    {
        if sig_eq(&buckets[i].0, &sig) {
            let mut entry = buckets.remove(i);
            entry.1.callees.push(idx);
            buckets.insert(i, entry);
            proof {
                assert forall|x: int| 0 <= x < buckets@.len() implies {
                    &&& (forall|j: int|
                        0 <= j < (#[trigger] buckets@[x]).1.callers@.len() ==> (
                        #[trigger] buckets@[x].1.callers@[j]) < bound)
                    &&& (forall|j: int|
                        0 <= j < buckets@[x].1.callees@.len() ==> (#[trigger] buckets@[
                        x].1.callees@[j]) < bound)
                } by {}
            }
            return;
        }
        i = i + 1;
    }
    buckets.push((sig, IndirectBucket { called: false, callers: Vec::new(), callees: vec![idx] }));
}

/// Marks the bucket keyed by `sig` as called and registers `caller`,
/// creating the bucket if the shape is new.
fn bucket_mark_called(buckets: &mut Vec<(FnSig, IndirectBucket)>, sig: FnSig, caller: usize, bound: usize)
    requires
        buckets_wf(old(buckets)@, bound as int),
        caller < bound,
    ensures
        buckets_wf(final(buckets)@, bound as int),
        bucket_caller_in(final(buckets)@, sig_view(sig), caller),
        forall|sv: crate::sig::SigV, u: usize| #[trigger] bucket_caller_in(
            old(buckets)@,
            sv,
            u,
        ) ==> bucket_caller_in(final(buckets)@, sv, u),
{
    let n = buckets.len();
    let mut i: usize = 0;
    while i < n
        invariant
            i <= n,
            n == buckets@.len(),
            buckets@ == old(buckets)@,
            buckets_wf(buckets@, bound as int),
            caller < bound,
        decreases n - i,
    {
        if sig_eq(&buckets[i].0, &sig) {
            let ghost pre = buckets@;
            let mut entry = buckets.remove(i);
            let ghost had = entry.1.callers@;
            entry.1.called = true;
            // the callers of a shape form a set: one entry per caller
            if !contains_node(&entry.1.callers, caller) {
                entry.1.callers.push(caller);
            }
            buckets.insert(i, entry);
            proof {
                assert(buckets@ =~= pre.update(i as int, buckets@[i as int]));
                assert(buckets@[i as int].1.callers@.contains(caller)) by {
                    if had.contains(caller) {
                        let y = choose|y: int| 0 <= y < had.len() && had[y] == caller;
                        assert(buckets@[i as int].1.callers@[y] == caller);
                    } else {
                        assert(buckets@[i as int].1.callers@.last() == caller);
                    }
                }
                assert(bucket_caller_in(buckets@, sig_view(sig), caller));
                assert forall|sv: crate::sig::SigV, u: usize|
                    #[trigger] bucket_caller_in(pre, sv, u) implies bucket_caller_in(
                    buckets@,
                    sv,
                    u,
                ) by {
                    let x = choose|x: int|
                        0 <= x < pre.len() && sig_view((#[trigger] pre[x]).0) == sv && pre[
                        x].1.called && pre[x].1.callers@.contains(u);
                    if x == i as int {
                        let y = choose|y: int| 0 <= y < had.len() && had[y] == u;
                        assert(buckets@[i as int].1.callers@[y] == u);
                        assert(buckets@[i as int].1.callers@.contains(u));
                        assert(sig_view(buckets@[i as int].0) == sv);
                    } else {
                        assert(buckets@[x] == pre[x]);
                    }
                }
                assert forall|x: int| 0 <= x < buckets@.len() implies {
                    &&& (forall|j: int|
                        0 <= j < (#[trigger] buckets@[x]).1.callers@.len() ==> (
                        #[trigger] buckets@[x].1.callers@[j]) < bound)
                    &&& (forall|j: int|
                        0 <= j < buckets@[x].1.callees@.len() ==> (#[trigger] buckets@[
                        x].1.callees@[j]) < bound)
                } by {}
            }
            return;
        }
        i = i + 1;
    }
    let ghost pre = buckets@;
    buckets.push(
        (sig, IndirectBucket { called: true, callers: vec![caller], callees: Vec::new() }),
    );
    proof {
        assert(buckets@.last().1.callers@[0] == caller);
        assert(buckets@.last().1.callers@.contains(caller));
        assert(sig_view(buckets@[buckets@.len() - 1].0) == sig_view(sig));
        assert(bucket_caller_in(buckets@, sig_view(sig), caller));
        assert forall|sv: crate::sig::SigV, u: usize|
            #[trigger] bucket_caller_in(pre, sv, u) implies bucket_caller_in(
            buckets@,
            sv,
            u,
        ) by {
            let x = choose|x: int|
                0 <= x < pre.len() && sig_view((#[trigger] pre[x]).0) == sv && pre[x].1.called
                    && pre[x].1.callers@.contains(u);
            assert(buckets@[x] == pre[x]);
        }
    }
}

/// The runtime helpers whose argument shapes this analysis knows.
pub open spec fn is_known_builtin(s: Seq<char>) -> bool {
    ||| s == "__aeabi_memcpy"@
    ||| s == "__aeabi_memcpy4"@
    ||| s == "__aeabi_memcpy8"@
    ||| s == "__aeabi_memclr"@
    ||| s == "__aeabi_memclr4"@
    ||| s == "__aeabi_memclr8"@
    ||| s == "__aeabi_memset"@
    ||| s == "__aeabi_memset4"@
    ||| s == "__aeabi_memset8"@
    ||| s == "__aeabi_fadd"@
    ||| s == "__addsf3"@
    ||| s == "__aeabi_fsub"@
    ||| s == "__subsf3"@
    ||| s == "__aeabi_fdiv"@
    ||| s == "__divsf3"@
    ||| s == "__aeabi_fmul"@
    ||| s == "__mulsf3"@
    ||| s == "__aeabi_fcmpgt"@
    ||| s == "__aeabi_fcmplt"@
    ||| s == "__aeabi_f2uiz"@
    ||| s == "__aeabi_f2iz"@
    ||| s == "__aeabi_ui2f"@
    ||| s == "__aeabi_i2f"@
    ||| s == "__divmoddi4"@
    ||| s == "__udivmoddi4"@
}

/// The runtime helpers that use no standard calling convention and can
/// never be called from the analyzed language.
pub open spec fn is_uncallable_builtin_spec(s: Seq<char>) -> bool {
    s == "__aeabi_uldivmod"@ || s == "__aeabi_ldivmod"@
}

/// Recognizes the two division helpers that cannot be called directly.
pub fn is_uncallable_builtin(name: &str) -> (r: bool)
    ensures
        r == is_uncallable_builtin_spec(name@),
{
    proof {
        reveal_strlit("__aeabi_uldivmod");
        reveal_strlit("__aeabi_ldivmod");
    }
    str_eq(name, "__aeabi_uldivmod") || str_eq(name, "__aeabi_ldivmod")
}

/// The signature a known runtime helper is called with, reconstructed
/// from its calling convention; pointers are 32 bits wide on the
/// targeted instruction sets.
pub fn builtin_sig_for(name: &str) -> (r: Option<FnSig>)
    ensures
        r is Some <==> is_known_builtin(name@),
{
    proof {
        reveal_strlit("__aeabi_memcpy");
        reveal_strlit("__aeabi_memcpy4");
        reveal_strlit("__aeabi_memcpy8");
        reveal_strlit("__aeabi_memclr");
        reveal_strlit("__aeabi_memclr4");
        reveal_strlit("__aeabi_memclr8");
        reveal_strlit("__aeabi_memset");
        reveal_strlit("__aeabi_memset4");
        reveal_strlit("__aeabi_memset8");
        reveal_strlit("__aeabi_fadd");
        reveal_strlit("__addsf3");
        reveal_strlit("__aeabi_fsub");
        reveal_strlit("__subsf3");
        reveal_strlit("__aeabi_fdiv");
        reveal_strlit("__divsf3");
        reveal_strlit("__aeabi_fmul");
        reveal_strlit("__mulsf3");
        reveal_strlit("__aeabi_fcmpgt");
        reveal_strlit("__aeabi_fcmplt");
        reveal_strlit("__aeabi_f2uiz");
        reveal_strlit("__aeabi_f2iz");
        reveal_strlit("__aeabi_ui2f");
        reveal_strlit("__aeabi_i2f");
        reveal_strlit("__divmoddi4");
        reveal_strlit("__udivmoddi4");
    }
    if str_eq(name, "__aeabi_memcpy") || str_eq(name, "__aeabi_memcpy4") || str_eq(
        name,
        "__aeabi_memcpy8",
    ) {
        // fn(*mut u8, *const u8, usize)
        Some(
            FnSig {
                inputs: vec![
                    Type::Pointer(Box::new(Type::Integer(8))),
                    Type::Pointer(Box::new(Type::Integer(8))),
                    Type::Integer(32),
                ],
                output: None,
            },
        )
    } else if str_eq(name, "__aeabi_memclr") || str_eq(name, "__aeabi_memclr4") || str_eq(
        name,
        "__aeabi_memclr8",
    ) {
        // fn(*mut u8, usize)
        Some(
            FnSig {
                inputs: vec![Type::Pointer(Box::new(Type::Integer(8))), Type::Integer(32)],
                output: None,
            },
        )
    } else if str_eq(name, "__aeabi_memset") || str_eq(name, "__aeabi_memset4") || str_eq(
        name,
        "__aeabi_memset8",
    ) {
        // fn(*mut u8, usize, i32)
        Some(
            FnSig {
                inputs: vec![
                    Type::Pointer(Box::new(Type::Integer(8))),
                    Type::Integer(32),
                    Type::Integer(32),
                ],
                output: None,
            },
        )
    } else if str_eq(name, "__aeabi_fadd") || str_eq(name, "__addsf3") || str_eq(
        name,
        "__aeabi_fsub",
    ) || str_eq(name, "__subsf3") || str_eq(name, "__aeabi_fdiv") || str_eq(name, "__divsf3")
        || str_eq(name, "__aeabi_fmul") || str_eq(name, "__mulsf3") {
        // fn(f32, f32) -> f32
        Some(
            FnSig {
                inputs: vec![Type::Float(32), Type::Float(32)],
                output: Some(Box::new(Type::Float(32))),
            },
        )
    } else if str_eq(name, "__aeabi_fcmpgt") || str_eq(name, "__aeabi_fcmplt") {
        // fn(f32, f32) -> i32
        Some(
            FnSig {
                inputs: vec![Type::Float(32), Type::Float(32)],
                output: Some(Box::new(Type::Integer(32))),
            },
        )
    } else if str_eq(name, "__aeabi_f2uiz") || str_eq(name, "__aeabi_f2iz") {
        // fn(f32) -> i32 or u32
        Some(
            FnSig { inputs: vec![Type::Float(32)], output: Some(Box::new(Type::Integer(32))) },
        )
    } else if str_eq(name, "__aeabi_ui2f") || str_eq(name, "__aeabi_i2f") {
        // fn(i32 or u32) -> f32
        Some(
            FnSig { inputs: vec![Type::Integer(32)], output: Some(Box::new(Type::Float(32))) },
        )
    } else if str_eq(name, "__divmoddi4") || str_eq(name, "__udivmoddi4") {
        // fn(i64, i64, *mut i64) -> i64
        Some(
            FnSig {
                inputs: vec![
                    Type::Integer(64),
                    Type::Integer(64),
                    Type::Pointer(Box::new(Type::Integer(64))),
                ],
                output: Some(Box::new(Type::Integer(64))),
            },
        )
    } else {
        None
    }
}

impl Builder {
    /// Raises a count in the ambiguity table, saturating.
    fn bump_ambiguous(&mut self, key: String)
        requires
            old(self).wf(),
        ensures
            final(self).wf(),
            final(self).graph == old(self).graph,
            final(self).indices == old(self).indices,
            final(self).aliases == old(self).aliases,
            final(self).addr2name == old(self).addr2name,
            final(self).indirects == old(self).indirects,
            final(self).dynamics == old(self).dynamics,
            final(self).formatter_callees == old(self).formatter_callees,
            final(self).has_stack_usage_info == old(self).has_stack_usage_info,
            final(self).has_untyped_symbols == old(self).has_untyped_symbols,
            final(self).warnings == old(self).warnings,
    {
        let n = self.ambiguous.len();
        let mut i: usize = 0;
        while i < n
            invariant
                i <= n,
                n == self.ambiguous@.len(),
                self.wf(),
                self.graph == old(self).graph,
                self.indices == old(self).indices,
                self.aliases == old(self).aliases,
                self.addr2name == old(self).addr2name,
                self.indirects == old(self).indirects,
                self.dynamics == old(self).dynamics,
                self.formatter_callees == old(self).formatter_callees,
                self.has_stack_usage_info == old(self).has_stack_usage_info,
                self.has_untyped_symbols == old(self).has_untyped_symbols,
                self.warnings == old(self).warnings,
            decreases n - i,
        {
            if str_eq(self.ambiguous[i].0.as_str(), key.as_str()) {
                let mut entry = self.ambiguous.remove(i);
                if entry.1 < u32::MAX {
                    entry.1 = entry.1 + 1;
                }
                self.ambiguous.insert(i, entry);
                return;
            }
            i = i + 1;
        }
        self.ambiguous.push((key, 1));
    }

    /// How many nodes share this de-hashed name: the recorded count,
    /// zero when the name was never counted.
    pub fn ambiguity_of(&self, key: &str) -> (r: u32)
        ensures
            r == spec_count_of(self.ambiguous@, key@),
    {
        proof {
            lemma_count_of_first(self.ambiguous@, key@);
        }
        match lookup(&self.ambiguous, key) {
            Some(c) => *c,
            None => 0,
        }
    }
}

/// The first alias with a stack-size record, none earlier.
pub open spec fn first_record_at(names: Seq<String>, ss: Seq<(String, u64)>, j: int) -> bool {
    0 <= j < names.len() && has_key(ss, names[j]@) && forall|x: int|
        0 <= x < j ==> !has_key(ss, (#[trigger] names[x])@)
}

/// The first alias that is not a location marker, none earlier.
pub open spec fn first_non_tag_at(names: Seq<String>, j: int) -> bool {
    0 <= j < names.len() && !crate::names::spec_is_tag(names[j]@) && forall|x: int|
        0 <= x < j ==> crate::names::spec_is_tag((#[trigger] names[x])@)
}

/// The canonical-name choice of the node phase: with several aliases,
/// the first one with a stack-size record, else the first that is not a
/// location marker; otherwise the first name.
pub open spec fn canonical_pick(names: Seq<String>, ss: Seq<(String, u64)>, ci: int) -> bool {
    if names.len() <= 1 {
        ci == 0
    } else if exists|j: int| #[trigger] first_record_at(names, ss, j) {
        first_record_at(names, ss, ci)
    } else if exists|j: int| #[trigger] first_non_tag_at(names, j) {
        first_non_tag_at(names, ci)
    } else {
        ci == 0
    }
}

/// The first record under a key, if any.
pub open spec fn spec_stack_of(m: Seq<(String, u64)>, k: Seq<char>) -> Option<u64> {
    if has_key(m, k) {
        Some(m[choose|i: int| first_key_at(m, k, i)].1)
    } else {
        None
    }
}

/// Two "first entries" under one key coincide.
proof fn lemma_first_key_unique<V>(m: Seq<(String, V)>, k: Seq<char>, i: int, j: int)
    requires
        first_key_at(m, k, i),
        first_key_at(m, k, j),
    ensures
        i == j,
{
    if i < j {
        assert(m[i].0@ != k);
    } else if j < i {
        assert(m[j].0@ != k);
    }
}

/// Two "first entries" under one id coincide.
proof fn lemma_first_id_unique<V>(m: Seq<(u64, V)>, id: u64, i: int, j: int)
    requires
        first_id_at(m, id, i),
        first_id_at(m, id, j),
    ensures
        i == j,
{
    if i < j {
        assert(m[i].0 != id);
    } else if j < i {
        assert(m[j].0 != id);
    }
}

/// `spec_stack_of` is the first matching record's value.
proof fn lemma_stack_of_spec(m: Seq<(String, u64)>, k: Seq<char>)
    ensures
        forall|i: int| #[trigger] first_key_at(m, k, i) ==> spec_stack_of(m, k) == Some(
            m[i].1,
        ),
{
    assert forall|i: int| #[trigger] first_key_at(m, k, i) implies spec_stack_of(m, k)
        == Some(m[i].1) by {
        assert(has_key(m, k));
        let w = choose|w: int| first_key_at(m, k, w);
        lemma_first_key_unique(m, k, i, w);
    }
}

/// The frame the node phase assigns: the stack-size records first, the
/// helper table second, unknown otherwise.
pub open spec fn local_pick(
    canon: Seq<char>,
    ss: Seq<(String, u64)>,
    helpers: Seq<(String, u64)>,
) -> Local {
    match spec_stack_of(ss, canon) {
        Some(v) => Local::Exact(v),
        None => match spec_stack_of(helpers, canon) {
            Some(v) => Local::Exact(v),
            None => Local::Unknown,
        },
    }
}

/// The alias map holds `n` resolving to `c`.
pub open spec fn alias_recorded(aliases: Seq<(String, String)>, n: Seq<char>, c: Seq<char>) -> bool {
    exists|a: int| 0 <= a < aliases.len() && (#[trigger] aliases[a]).0@ == n && aliases[a].1@
        == c
}

/// One symbol's outcome in the node phase: its node carries the chosen
/// canonical name and the looked-up frame with no bound yet, the
/// address map entry pairs the address with that name, the name is
/// indexed, and every alias of the symbol resolves to it.
pub open spec fn symbol_materialized(
    b: Builder,
    sym: ExeSymbol,
    ss: Seq<(String, u64)>,
    helpers: Seq<(String, u64)>,
    node_at: int,
    addr_at: int,
) -> bool {
    &&& 0 <= node_at < b.graph.nodes@.len()
    &&& 0 <= addr_at < b.addr2name@.len()
    &&& (exists|ci: int| #[trigger] canonical_pick(sym.names@, ss, ci)
        && b.graph.nodes@[node_at].name@ == sym.names@[ci]@)
    &&& b.graph.nodes@[node_at].local == local_pick(b.graph.nodes@[node_at].name@, ss, helpers)
    &&& b.graph.nodes@[node_at].max is None
    &&& !b.graph.nodes@[node_at].dashed
    &&& b.addr2name@[addr_at].0 == sym.address
    &&& b.addr2name@[addr_at].1@ == b.graph.nodes@[node_at].name@
    &&& has_key(b.indices@, b.graph.nodes@[node_at].name@)
    &&& (forall|j: int| 0 <= j < sym.names@.len() ==> alias_recorded(
        b.aliases@,
        (#[trigger] sym.names@[j])@,
        b.graph.nodes@[node_at].name@,
    ))
}

/// A materialized symbol stays materialized while the tables only grow.
proof fn lemma_symbol_preserved(
    b1: Builder,
    b2: Builder,
    sym: ExeSymbol,
    ss: Seq<(String, u64)>,
    helpers: Seq<(String, u64)>,
    node_at: int,
    addr_at: int,
)
    requires
        symbol_materialized(b1, sym, ss, helpers, node_at, addr_at),
        b1.graph.nodes@.len() <= b2.graph.nodes@.len(),
        forall|x: int| 0 <= x < b1.graph.nodes@.len() ==> b2.graph.nodes@[x] == #[trigger] b1.graph.nodes@[x],
        b1.addr2name@.len() <= b2.addr2name@.len(),
        forall|x: int| 0 <= x < b1.addr2name@.len() ==> b2.addr2name@[x] == #[trigger] b1.addr2name@[x],
        b1.indices@.len() <= b2.indices@.len(),
        forall|x: int| 0 <= x < b1.indices@.len() ==> b2.indices@[x] == #[trigger] b1.indices@[x],
        b1.aliases@.len() <= b2.aliases@.len(),
        forall|x: int| 0 <= x < b1.aliases@.len() ==> b2.aliases@[x] == #[trigger] b1.aliases@[x],
    ensures
        symbol_materialized(b2, sym, ss, helpers, node_at, addr_at),
{
    let name = b1.graph.nodes@[node_at].name@;
    assert(has_key(b2.indices@, name)) by {
        let i = choose|i: int| 0 <= i < b1.indices@.len() && (#[trigger] b1.indices@[i]).0@
            == name;
        assert(b2.indices@[i].0@ == name);
    }
    assert forall|j: int| 0 <= j < sym.names@.len() implies alias_recorded(
        b2.aliases@,
        (#[trigger] sym.names@[j])@,
        name,
    ) by {
        let a = choose|a: int|
            0 <= a < b1.aliases@.len() && (#[trigger] b1.aliases@[a]).0@ == sym.names@[j]@
                && b1.aliases@[a].1@ == name;
        assert(b2.aliases@[a].0@ == sym.names@[j]@ && b2.aliases@[a].1@ == name);
    }
}

impl Builder {
    /// Phase A: creates one node per live defined symbol.  The canonical
    /// name prefers one with a stack-size record, then the first that is
    /// not a location marker; every alias maps to it.  A symbol without
    /// a record may get a hard-coded helper size; otherwise its frame is
    /// unknown.  In the signature-driven mode each definition is also
    /// sorted into the dynamic-dispatch or indirect-call bucket of its
    /// shape.
    pub fn materialize_nodes(
        &mut self,
        defined: &Vec<ExeSymbol>,
        stack_sizes: &Vec<(String, u64)>,
        helpers: &Vec<(String, u64)>,
        thumb: bool,
        defines: &Vec<Define>,
        declares: &Vec<Declare>,
        has_call_metadata: bool,
        default_methods: &Vec<String>,
    )
        requires
            old(self).wf(),
            forall|s2: int| 0 <= s2 < defined@.len() ==> (#[trigger] defined@[s2]).names@.len()
                > 0,
            forall|s1: int, s2: int|
                0 <= s1 < s2 < defined@.len() ==> (#[trigger] defined@[s1]).address != (
                #[trigger] defined@[s2]).address,
        ensures
            final(self).wf(),
            final(self).graph.nodes@.len() == old(self).graph.nodes@.len() + defined@.len(),
            final(self).graph.edges@ == old(self).graph.edges@,
            forall|i: int|
                old(self).graph.nodes@.len() <= i < final(self).graph.nodes@.len() ==> !(
                #[trigger] final(self).graph.nodes@[i]).dashed,
            forall|i: int| 0 <= i < old(self).graph.nodes@.len() ==> final(self).graph.nodes@[i]
                == old(self).graph.nodes@[i],
            final(self).addr2name@.len() == old(self).addr2name@.len() + defined@.len(),
            forall|a: int| 0 <= a < old(self).addr2name@.len() ==> final(self).addr2name@[a]
                == #[trigger] old(self).addr2name@[a],
            forall|s2: int|
                0 <= s2 < defined@.len() ==> symbol_materialized(
                    *final(self),
                    #[trigger] defined@[s2],
                    stack_sizes@,
                    helpers@,
                    old(self).graph.nodes@.len() + s2,
                    old(self).addr2name@.len() + s2,
                ),
            // fresh address entries are pairwise distinct: one address,
            // one canonical name
            forall|a1: int, a2: int|
                old(self).addr2name@.len() <= a1 < a2 < final(self).addr2name@.len() ==> (
                #[trigger] final(self).addr2name@[a1]).0
                    != (#[trigger] final(self).addr2name@[a2]).0,
    {
        let ns = defined.len();
        let mut s: usize = 0;
        while s < ns
            invariant
                s <= ns,
                ns == defined@.len(),
                self.wf(),
                forall|s2: int| 0 <= s2 < defined@.len() ==> (
                #[trigger] defined@[s2]).names@.len() > 0,
                self.graph.nodes@.len() == old(self).graph.nodes@.len() + s,
                self.graph.edges@ == old(self).graph.edges@,
                forall|i: int|
                    old(self).graph.nodes@.len() <= i < self.graph.nodes@.len() ==> !(
                    #[trigger] self.graph.nodes@[i]).dashed,
                forall|i: int|
                    0 <= i < old(self).graph.nodes@.len() ==> self.graph.nodes@[i] == old(
                        self,
                    ).graph.nodes@[i],
                self.addr2name@.len() == old(self).addr2name@.len() + s,
                forall|a: int| 0 <= a < old(self).addr2name@.len() ==> self.addr2name@[a]
                    == #[trigger] old(self).addr2name@[a],
                forall|s2: int|
                    0 <= s2 < s ==> symbol_materialized(
                        *self,
                        #[trigger] defined@[s2],
                        stack_sizes@,
                        helpers@,
                        old(self).graph.nodes@.len() + s2,
                        old(self).addr2name@.len() + s2,
                    ),
            decreases ns - s,
        {
            let ghost b_entry = *self;
            let nnames = defined[s].names.len();
            let mut ci: usize = 0;
            let ghost names = defined@[s as int].names@;
            if nnames > 1 {
                let mut found = false;
                let mut j: usize = 0;
                while j < nnames
                    invariant
                        j <= nnames,
                        ci < nnames,
                        nnames == names.len(),
                        names == defined@[s as int].names@,
                        0 <= (s as int) < defined@.len(),
                        found ==> first_record_at(names, stack_sizes@, ci as int),
                        !found ==> ci == 0,
                        !found ==> forall|x: int| 0 <= x < j ==> !has_key(
                            stack_sizes@,
                            (#[trigger] names[x])@,
                        ),
                    decreases nnames - j,
                {
                    if !found {
                        if stack_of(stack_sizes, defined[s].names[j].as_str()).is_some() {
                            ci = j;
                            found = true;
                            proof {
                                assert(first_record_at(names, stack_sizes@, ci as int));
                            }
                        }
                    }
                    j = j + 1;
                }
                if !found {
                    let mut j2: usize = 0;
                    let mut found2 = false;
                    while j2 < nnames
                        invariant
                            j2 <= nnames,
                            ci < nnames,
                            nnames == names.len(),
                            names == defined@[s as int].names@,
                            0 <= (s as int) < defined@.len(),
                            found2 ==> first_non_tag_at(names, ci as int),
                            !found2 ==> ci == 0,
                            !found2 ==> forall|x: int| 0 <= x < j2
                                ==> crate::names::spec_is_tag((#[trigger] names[x])@),
                            forall|x: int| 0 <= x < names.len() ==> !has_key(
                                stack_sizes@,
                                (#[trigger] names[x])@,
                            ),
                        decreases nnames - j2,
                    {
                        if !found2 {
                            if !is_tag(defined[s].names[j2].as_str()) {
                                ci = j2;
                                found2 = true;
                                proof {
                                    assert(first_non_tag_at(names, ci as int));
                                }
                            }
                        }
                        j2 = j2 + 1;
                    }
                    proof {
                        if !found2 {
                            assert(forall|x: int| 0 <= x < names.len()
                                ==> crate::names::spec_is_tag((#[trigger] names[x])@));
                            assert(!(exists|j3: int| #[trigger] first_non_tag_at(
                                names,
                                j3,
                            ))) by {
                                if exists|j3: int| #[trigger] first_non_tag_at(names, j3) {
                                    let j3 = choose|j3: int| #[trigger] first_non_tag_at(
                                        names,
                                        j3,
                                    );
                                    assert(crate::names::spec_is_tag(names[j3]@));
                                }
                            }
                        }
                        assert(!(exists|j3: int| #[trigger] first_record_at(
                            names,
                            stack_sizes@,
                            j3,
                        ))) by {
                            if exists|j3: int| #[trigger] first_record_at(
                                names,
                                stack_sizes@,
                                j3,
                            ) {
                                let j3 = choose|j3: int| #[trigger] first_record_at(
                                    names,
                                    stack_sizes@,
                                    j3,
                                );
                                assert(!has_key(stack_sizes@, names[j3]@));
                            }
                        }
                        assert(canonical_pick(names, stack_sizes@, ci as int));
                    }
                } else {
                    proof {
                        assert(canonical_pick(names, stack_sizes@, ci as int));
                    }
                }
            } else {
                proof {
                    assert(canonical_pick(names, stack_sizes@, ci as int));
                }
            }
            let canonical = defined[s].names[ci].clone();
            // the symbol's own frame, from the records or the helper table
            let mut stack: Option<u64> = stack_of(stack_sizes, canonical.as_str());
            proof {
                lemma_stack_of_spec(stack_sizes@, canonical@);
                lemma_stack_of_spec(helpers@, canonical@);
            }
            if stack.is_none() {
                match stack_of(helpers, canonical.as_str()) {
                    Some(v) => {
                        stack = Some(v);
                        self.warnings.push(Warning::AdHocStackInfo(canonical.clone()));
                    }
                    None => {
                        if !thumb {
                            self.warnings.push(Warning::NoStackInfo(canonical.clone()));
                        }
                    }
                }
            } else {
                self.has_stack_usage_info = true;
            }
            proof {
                assert((match stack {
                    Some(v) => Local::Exact(v),
                    None => Local::Unknown,
                }) == local_pick(canonical@, stack_sizes@, helpers@));
            }
            // count the de-hashed demangled form for later disambiguation
            let dm = demangled(&canonical);
            match dehash(dm.as_str()) {
                Some(dh) => {
                    self.bump_ambiguous(dh);
                }
                None => {}
            }
            let idx = self.graph.add_node(make_node(canonical.clone(), stack, false));
            let ghost pre_idx = self.indices@;
            if self.node_index_of(canonical.as_str()).is_none() {
                let entry = (canonical.clone(), idx);
                proof {
                    lemma_keys_unique_push(pre_idx, entry);
                    lemma_has_key_push(pre_idx, entry, canonical@);
                }
                self.indices.push(entry);
                proof {
                    assert forall|a: int| 0 <= a < self.aliases@.len() implies has_key(
                        self.indices@,
                        (#[trigger] self.aliases@[a]).1@,
                    ) by {
                        lemma_has_key_push(pre_idx, entry, self.aliases@[a].1@);
                    }
                }
            }
            proof {
                assert(has_key(self.indices@, canonical@));
            }
            let a2entry = (defined[s].address, canonical.clone());
            proof {
                assert(a2entry.0 == defined@[s as int].address && a2entry.1@ == canonical@);
            }
            self.addr2name.push(a2entry);
            proof {
                assert(self.addr2name@.last().0 == defined@[s as int].address);
                assert(self.addr2name@.last().1@ == canonical@);
            }
            let mut j: usize = 0;
            while j < nnames
                invariant
                    j <= nnames,
                    nnames == names.len(),
                    names == defined@[s as int].names@,
                    0 <= (s as int) < defined@.len(),
                    self.wf(),
                    has_key(self.indices@, canonical@),
                    idx == b_entry.graph.nodes@.len(),
                    forall|j2: int| 0 <= j2 < j ==> alias_recorded(
                        self.aliases@,
                        (#[trigger] names[j2])@,
                        canonical@,
                    ),
                    b_entry.graph.nodes@.len() == old(self).graph.nodes@.len() + s,
                    b_entry.addr2name@.len() == old(self).addr2name@.len() + s,
                    self.graph.nodes@.len() == b_entry.graph.nodes@.len() + 1,
                    forall|x: int|
                        0 <= x < b_entry.graph.nodes@.len() ==> self.graph.nodes@[x]
                            == #[trigger] b_entry.graph.nodes@[x],
                    self.graph.nodes@.last().name@ == canonical@,
                    self.graph.nodes@.last().local == local_pick(
                        canonical@,
                        stack_sizes@,
                        helpers@,
                    ),
                    self.graph.nodes@.last().max is None,
                    !self.graph.nodes@.last().dashed,
                    self.graph.edges@ == old(self).graph.edges@,
                    self.addr2name@.len() == b_entry.addr2name@.len() + 1,
                    forall|x: int| 0 <= x < b_entry.addr2name@.len() ==> self.addr2name@[x]
                        == #[trigger] b_entry.addr2name@[x],
                    self.addr2name@.last().0 == defined@[s as int].address,
                    self.addr2name@.last().1@ == canonical@,
                    b_entry.indices@.len() <= self.indices@.len(),
                    forall|x: int| 0 <= x < b_entry.indices@.len() ==> self.indices@[x]
                        == #[trigger] b_entry.indices@[x],
                    b_entry.aliases@.len() <= self.aliases@.len(),
                    forall|x: int| 0 <= x < b_entry.aliases@.len() ==> self.aliases@[x]
                        == #[trigger] b_entry.aliases@[x],
                    forall|i: int|
                        old(self).graph.nodes@.len() <= i < self.graph.nodes@.len() ==> !(
                        #[trigger] self.graph.nodes@[i]).dashed,
                    forall|i: int|
                        0 <= i < old(self).graph.nodes@.len() ==> self.graph.nodes@[i] == old(
                            self,
                        ).graph.nodes@[i],
                decreases nnames - j,
            {
                let ghost pre_aliases = self.aliases@;
                self.aliases.push((defined[s].names[j].clone(), canonical.clone()));
                proof {
                    assert(self.aliases@.last().0@ == names[j as int]@);
                    assert forall|j2: int| 0 <= j2 < j + 1 implies alias_recorded(
                        self.aliases@,
                        (#[trigger] names[j2])@,
                        canonical@,
                    ) by {
                        if j2 < j {
                            let a = choose|a: int|
                                0 <= a < pre_aliases.len() && (#[trigger] pre_aliases[a]).0@
                                    == names[j2]@ && pre_aliases[a].1@ == canonical@;
                            assert(self.aliases@[a] == pre_aliases[a]);
                        } else {
                            assert(self.aliases@[self.aliases@.len() - 1].0@ == names[j2]@);
                        }
                    }
                }
                j = j + 1;
            }
            // Phase B, signature-driven mode: sort the definition into
            // its dispatch bucket
            if !has_call_metadata {
                let mut def_at: Option<usize> = None;
                let mut j: usize = 0;
                while j < nnames
                    invariant
                        j <= nnames,
                        nnames == defined@[s as int].names@.len(),
                        0 <= (s as int) < defined@.len(),
                        match def_at {
                            Some(d) => 0 <= d < defines@.len(),
                            None => true,
                        },
                    decreases nnames - j,
                {
                    if def_at.is_none() {
                        match find_define_index(defines, defined[s].names[j].as_str()) {
                            Some(d) => {
                                def_at = Some(d);
                            }
                            None => {}
                        }
                    }
                    j = j + 1;
                }
                match def_at {
                    Some(d) => {
                        if sig_is_any_formatter_result(&defines[d].sig) {
                            self.formatter_callees.push(idx);
                        }
                        let lt = crate::chars::chars_of("<");
                        let asym = crate::chars::chars_of(" as ");
                        let dmv = crate::chars::chars_of(dm.as_str());
                        let shaped = crate::chars::starts_with(dmv.as_slice(), lt.as_slice())
                            && crate::chars::contains_sub(dmv.as_slice(), asym.as_slice());
                        let defaulted = match dehash(dm.as_str()) {
                            Some(p) => contains_str(default_methods, p.as_str()),
                            None => false,
                        };
                        let is_trait_method = shaped || defaulted;
                        let is_object_safe = is_trait_method && defines[d].sig.inputs.len() > 0
                            && (match &defines[d].sig.inputs[0] {
                            Type::Pointer(inner) => match &**inner {
                                Type::Fn(_) => false,
                                _ => true,
                            },
                            _ => false,
                        });
                        let bound = self.graph.node_count();
                        if is_object_safe {
                            // erase the receiver's type
                            let mut sig2 = defines[d].sig.duplicate();
                            sig2.inputs[0] = Type::erased();
                            bucket_add_callee(&mut self.dynamics, sig2, idx, bound);
                        } else {
                            bucket_add_callee(
                                &mut self.indirects,
                                defines[d].sig.duplicate(),
                                idx,
                                bound,
                            );
                        }
                    }
                    None => {
                        let mut decl_sig: Option<FnSig> = None;
                        let mut j: usize = 0;
                        while j < nnames
                            invariant
                                j <= nnames,
                                nnames == defined@[s as int].names@.len(),
                                0 <= (s as int) < defined@.len(),
                            decreases nnames - j,
                        {
                            if decl_sig.is_none() {
                                match find_declare(declares, defined[s].names[j].as_str()) {
                                    Some(dcl) => match &dcl.sig {
                                        Some(sg) => {
                                            decl_sig = Some(sg.duplicate());
                                        }
                                        None => {}
                                    },
                                    None => {}
                                }
                            }
                            j = j + 1;
                        }
                        let bound = self.graph.node_count();
                        match decl_sig {
                            Some(sg) => {
                                bucket_add_callee(&mut self.indirects, sg, idx, bound);
                            }
                            None => {
                                match builtin_sig_for(canonical.as_str()) {
                                    Some(sg) => {
                                        bucket_add_callee(&mut self.indirects, sg, idx, bound);
                                    }
                                    None => {
                                        if !is_uncallable_builtin(canonical.as_str()) {
                                            self.has_untyped_symbols = true;
                                            self.warnings.push(
                                                Warning::NoTypeInfo(canonical.clone()),
                                            );
                                        }
                                    }
                                }
                            }
                        }
                    }
                }
            }
            proof {
                assert(symbol_materialized(
                    *self,
                    defined@[s as int],
                    stack_sizes@,
                    helpers@,
                    old(self).graph.nodes@.len() + s,
                    old(self).addr2name@.len() + s,
                )) by {
                    assert(self.graph.nodes@[old(self).graph.nodes@.len() + s].name@
                        == canonical@);
                    assert(canonical@ == names[ci as int]@);
                    assert(canonical_pick(names, stack_sizes@, ci as int));
                }
                assert forall|s2: int|
                    0 <= s2 < s + 1 implies symbol_materialized(
                    *self,
                    #[trigger] defined@[s2],
                    stack_sizes@,
                    helpers@,
                    old(self).graph.nodes@.len() + s2,
                    old(self).addr2name@.len() + s2,
                ) by {
                    if s2 < s {
                        lemma_symbol_preserved(
                            b_entry,
                            *self,
                            defined@[s2],
                            stack_sizes@,
                            helpers@,
                            old(self).graph.nodes@.len() + s2,
                            old(self).addr2name@.len() + s2,
                        );
                    }
                }
            }
            s = s + 1;
        }
        proof {
            assert forall|a1: int, a2: int|
                old(self).addr2name@.len() <= a1 < a2 < self.addr2name@.len() implies (
            #[trigger] self.addr2name@[a1]).0 != (#[trigger] self.addr2name@[a2]).0 by {
                let s1 = a1 - old(self).addr2name@.len();
                let s2 = a2 - old(self).addr2name@.len();
                assert(symbol_materialized(
                    *self,
                    defined@[s1],
                    stack_sizes@,
                    helpers@,
                    old(self).graph.nodes@.len() + s1,
                    a1,
                ));
                assert(symbol_materialized(
                    *self,
                    defined@[s2],
                    stack_sizes@,
                    helpers@,
                    old(self).graph.nodes@.len() + s2,
                    a2,
                ));
                assert(self.addr2name@[a1].0 == defined@[s1].address);
                assert(self.addr2name@[a2].0 == defined@[s2].address);
            }
        }
    }
}

/// The trait-method keys of a list of definitions, in definition
/// order: one key per definition whose demangled name has the
/// trait-impl shape.
pub open spec fn default_keys(defines: Seq<Define>) -> Seq<Seq<char>>
    decreases defines,
{
    if defines.len() == 0 {
        Seq::empty()
    } else {
        let init = default_keys(defines.drop_last());
        match crate::names::trait_method_key_spec(demangled_of(defines.last().name@)) {
            Some(k) => init.push(k),
            None => init,
        }
    }
}

/// Collects the `Trait::method` keys of every definition whose
/// demangled name has the trait-impl shape; default trait methods
/// demangle without the angle-bracket shape and are recognized against
/// this list.
pub fn collect_default_methods(defines: &Vec<Define>) -> (r: Vec<String>)
    ensures
        crate::symbols::strs_view(r@) == default_keys(defines@),
{
    let mut r: Vec<String> = Vec::new();
    let n = defines.len();
    let mut d: usize = 0;
    while d < n
        invariant
            d <= n,
            n == defines@.len(),
            crate::symbols::strs_view(r@) == default_keys(defines@.take(d as int)),
        decreases n - d,
    {
        let dm = demangled(&defines[d].name);
        proof {
            assert(defines@.take(d + 1).drop_last() =~= defines@.take(d as int));
            assert(defines@.take(d + 1).last() == defines@[d as int]);
        }
        match crate::names::trait_method_key(dm.as_str()) {
            Some(key) => {
                r.push(key);
            }
            None => {}
        }
        proof {
            assert(crate::symbols::strs_view(r@) =~= default_keys(defines@.take(d + 1)));
        }
        d = d + 1;
    }
    proof {
        assert(defines@.take(n as int) =~= defines@);
    }
    r
}

/// The position of the first definition with this name.
pub fn find_define_index(defines: &Vec<Define>, name: &str) -> (r: Option<usize>)
    ensures
        r is Some ==> 0 <= r->Some_0 < defines@.len(),
        r is Some <==> exists|i: int|
            0 <= i < defines@.len() && (#[trigger] defines@[i]).name@ == name@,
{
    let n = defines.len();
    let mut i: usize = 0;
    while i < n
        invariant
            i <= n,
            n == defines@.len(),
            forall|j: int| 0 <= j < i ==> (#[trigger] defines@[j]).name@ != name@,
        decreases n - i,
    {
        if str_eq(defines[i].name.as_str(), name) {
            return Some(i);
        }
        i = i + 1;
    }
    None
}

/// Is `v` among these node indices?
fn contains_node(list: &Vec<usize>, v: usize) -> (r: bool)
    ensures
        r == list@.contains(v),
{
    let n = list.len();
    let mut i: usize = 0;
    while i < n
        invariant
            i <= n,
            n == list@.len(),
            forall|j: int| 0 <= j < i ==> list@[j] != v,
        decreases n - i,
    {
        if list[i] == v {
            return true;
        }
        i = i + 1;
    }
    false
}

/// The metadata payload registered under this id: the first entry.
pub fn find_meta<'a>(meta_defs: &'a Vec<(u64, MetadataKind)>, id: u64) -> (r: Option<
    &'a MetadataKind,
>)
    ensures
        r is Some <==> exists|i: int|
            0 <= i < meta_defs@.len() && (#[trigger] meta_defs@[i]).0 == id,
        r is Some ==> exists|i: int| #[trigger] first_id_at(meta_defs@, id, i) && *r->Some_0
            == meta_defs@[i].1,
{
    let n = meta_defs.len();
    let mut i: usize = 0;
    while i < n
        invariant
            i <= n,
            n == meta_defs@.len(),
            forall|j: int| 0 <= j < i ==> (#[trigger] meta_defs@[j]).0 != id,
        decreases n - i,
    {
        if meta_defs[i].0 == id {
            proof {
                assert(first_id_at(meta_defs@, id, i as int));
            }
            return Some(&meta_defs[i].1);
        }
        i = i + 1;
    }
    None
}

/// Registers a caller under a metadata id, once.
fn add_meta_caller(meta_callers: &mut Vec<(u64, Vec<usize>)>, id: u64, caller: usize, bound: usize)
    requires
        caller < bound,
        forall|i: int, j: int|
            0 <= i < old(meta_callers)@.len() && 0 <= j < old(meta_callers)@[i].1@.len() ==> (
            #[trigger] old(meta_callers)@[i].1@[j]) < bound,
    ensures
        forall|i: int, j: int|
            0 <= i < final(meta_callers)@.len() && 0 <= j < final(meta_callers)@[i].1@.len()
                ==> (#[trigger] final(meta_callers)@[i].1@[j]) < bound,
        meta_caller_in(final(meta_callers)@, id, caller),
        forall|id2: u64, u: usize| #[trigger] meta_caller_in(old(meta_callers)@, id2, u)
            ==> meta_caller_in(final(meta_callers)@, id2, u),
{
    let n = meta_callers.len();
    let mut i: usize = 0;
    while i < n
        invariant
            i <= n,
            n == meta_callers@.len(),
            meta_callers@ == old(meta_callers)@,
            caller < bound,
            forall|i2: int, j: int|
                0 <= i2 < meta_callers@.len() && 0 <= j < meta_callers@[i2].1@.len() ==> (
                #[trigger] meta_callers@[i2].1@[j]) < bound,
        decreases n - i,
    {
        if meta_callers[i].0 == id {
            let ghost pre = meta_callers@;
            let mut entry = meta_callers.remove(i);
            let ghost had = entry.1@;
            if !contains_node(&entry.1, caller) {
                entry.1.push(caller);
            }
            meta_callers.insert(i, entry);
            proof {
                assert(meta_callers@ =~= pre.update(i as int, meta_callers@[i as int]));
                assert(meta_callers@[i as int].1@.contains(caller)) by {
                    if had.contains(caller) {
                        let y = choose|y: int| 0 <= y < had.len() && had[y] == caller;
                        assert(meta_callers@[i as int].1@[y] == caller);
                    } else {
                        assert(meta_callers@[i as int].1@.last() == caller);
                    }
                }
                assert(meta_caller_in(meta_callers@, id, caller));
                assert forall|id2: u64, u: usize|
                    #[trigger] meta_caller_in(pre, id2, u) implies meta_caller_in(
                    meta_callers@,
                    id2,
                    u,
                ) by {
                    let x = choose|x: int|
                        0 <= x < pre.len() && (#[trigger] pre[x]).0 == id2
                            && pre[x].1@.contains(u);
                    if x == i as int {
                        let y = choose|y: int| 0 <= y < had.len() && had[y] == u;
                        assert(meta_callers@[i as int].1@[y] == u);
                        assert(meta_callers@[i as int].1@.contains(u));
                    } else {
                        assert(meta_callers@[x] == pre[x]);
                    }
                }
                assert forall|i2: int, j: int|
                    0 <= i2 < meta_callers@.len() && 0 <= j < meta_callers@[i2].1@.len()
                        implies (#[trigger] meta_callers@[i2].1@[j]) < bound by {}
            }
            return;
        }
        i = i + 1;
    }
    let ghost pre = meta_callers@;
    meta_callers.push((id, vec![caller]));
    proof {
        assert(meta_callers@.last().1@[0] == caller);
        assert(meta_callers@.last().1@.contains(caller));
        assert(meta_caller_in(meta_callers@, id, caller));
        assert forall|id2: u64, u: usize|
            #[trigger] meta_caller_in(pre, id2, u) implies meta_caller_in(
            meta_callers@,
            id2,
            u,
        ) by {
            let x = choose|x: int|
                0 <= x < pre.len() && (#[trigger] pre[x]).0 == id2 && pre[x].1@.contains(u);
            assert(meta_callers@[x] == pre[x]);
        }
    }
}

/// Registers a group member name under a metadata id.
fn add_group_member(groups: &mut Vec<(u64, Vec<String>)>, id: u64, name: String) {
    let n = groups.len();
    let mut i: usize = 0;
    while i < n
        invariant
            i <= n,
            n == groups@.len(),
        decreases n - i,
    {
        if groups[i].0 == id {
            let mut entry = groups.remove(i);
            entry.1.push(name);
            groups.insert(i, entry);
            return;
        }
        i = i + 1;
    }
    groups.push((id, vec![name]));
}

/// Some entry carries this id.
pub open spec fn has_id<V>(m: Seq<(u64, V)>, id: u64) -> bool {
    exists|i: int| 0 <= i < m.len() && (#[trigger] m[i]).0 == id
}

/// Some definition carries a `rust` metadata reference whose id no
/// metadata node registers.
pub open spec fn unregistered_rust_meta(
    defines: Seq<Define>,
    meta_defs: Seq<(u64, MetadataKind)>,
) -> bool {
    exists|d: int, m: int|
        0 <= d < defines.len() && 0 <= m < defines[d].meta@.len() && (#[trigger] defines[
        d].meta@[m]).kind@ == "rust"@ && !has_id(meta_defs, defines[d].meta@[m].id)
}

/// `n` names a formatter-shaped definition that carries a `rust`
/// metadata reference registered as a call-site shape.
pub open spec fn formatter_name_ok(
    defines: Seq<Define>,
    meta_defs: Seq<(u64, MetadataKind)>,
    n: Seq<char>,
) -> bool {
    exists|d: int, m: int|
        0 <= d < defines.len() && 0 <= m < defines[d].meta@.len() && (#[trigger] defines[
        d].meta@[m]).kind@ == "rust"@ && defines[d].name@ == n && is_any_formatter_sig(
            sig_view(defines[d].sig),
        ) && (forall|k: int| first_id_at(meta_defs, defines[d].meta@[m].id, k)
            ==> meta_defs[k].1 is Fn)
}

/// The metadata-aware inventory pass over the definitions: sorts every
/// definition into the groups its `rust` metadata ids name, expanding
/// union nodes, and remembers which definitions look like formatter
/// callees.  An id with no registered metadata is a fatal mismatch.
pub fn collect_meta_groups(defines: &Vec<Define>, meta_defs: &Vec<(u64, MetadataKind)>) -> (r:
    Result<(Vec<String>, Vec<(u64, Vec<String>)>), BuildError>)
    ensures
        r is Err <==> unregistered_rust_meta(defines@, meta_defs@),
        r is Ok ==> forall|x: int|
            0 <= x < r->Ok_0.0@.len() ==> formatter_name_ok(
                defines@,
                meta_defs@,
                (#[trigger] r->Ok_0.0@[x])@,
            ),
{
    proof {
        reveal_strlit("rust");
    }
    let mut formatter_names: Vec<String> = Vec::new();
    let mut groups: Vec<(u64, Vec<String>)> = Vec::new();
    let nd = defines.len();
    let mut d: usize = 0;
    while d < nd
        invariant
            d <= nd,
            nd == defines@.len(),
            forall|d2: int, m2: int|
                0 <= d2 < d && 0 <= m2 < defines@[d2].meta@.len() && (#[trigger] defines@[
                d2].meta@[m2]).kind@ == "rust"@ ==> has_id(meta_defs@, defines@[d2].meta@[m2].id),
            forall|x: int| 0 <= x < formatter_names@.len() ==> formatter_name_ok(
                defines@,
                meta_defs@,
                (#[trigger] formatter_names@[x])@,
            ),
        decreases nd - d,
    {
        let looks_like_formatter = sig_is_any_formatter_result(&defines[d].sig);
        let nm = defines[d].meta.len();
        let mut m: usize = 0;
        while m < nm
            invariant
                m <= nm,
                nm == defines@[d as int].meta@.len(),
                0 <= (d as int) < defines@.len(),
                forall|d2: int, m2: int|
                    0 <= d2 < d && 0 <= m2 < defines@[d2].meta@.len() && (#[trigger] defines@[
                    d2].meta@[m2]).kind@ == "rust"@ ==> has_id(
                        meta_defs@,
                        defines@[d2].meta@[m2].id,
                    ),
                forall|m2: int|
                    0 <= m2 < m && (#[trigger] defines@[d as int].meta@[m2]).kind@ == "rust"@
                        ==> has_id(meta_defs@, defines@[d as int].meta@[m2].id),
                looks_like_formatter == is_any_formatter_sig(sig_view(defines@[d as int].sig)),
                forall|x: int| 0 <= x < formatter_names@.len() ==> formatter_name_ok(
                    defines@,
                    meta_defs@,
                    (#[trigger] formatter_names@[x])@,
                ),
            decreases nm - m,
        {
            if str_eq(defines[d].meta[m].kind.as_str(), "rust") {
                let id = defines[d].meta[m].id;
                match find_meta(meta_defs, id) {
                    None => {
                        proof {
                            assert((defines@[d as int].meta@[m as int]).kind@ == "rust"@
                                && !has_id(meta_defs@, defines@[d as int].meta@[m as int].id));
                        }
                        return Err(BuildError::MetadataMismatch(defines[d].name.clone()));
                    }
                    Some(kind) => match kind {
                        MetadataKind::Group { ids } => {
                            let ni = ids.len();
                            let mut k: usize = 0;
                            while k < ni
                                invariant
                                    k <= ni,
                                    ni == ids@.len(),
                                    0 <= (d as int) < defines@.len(),
                                decreases ni - k,
                            {
                                add_group_member(&mut groups, ids[k], defines[d].name.clone());
                                k = k + 1;
                            }
                        }
                        MetadataKind::Fn { .. } => {
                            if looks_like_formatter {
                                let ghost pre_names = formatter_names@;
                                formatter_names.push(defines[d].name.clone());
                                proof {
                                    assert(formatter_name_ok(
                                        defines@,
                                        meta_defs@,
                                        formatter_names@.last()@,
                                    )) by {
                                        let k0 = choose|k0: int|
                                            #[trigger] first_id_at(meta_defs@, id, k0) && *kind
                                                == meta_defs@[k0].1;
                                        assert forall|k: int|
                                            first_id_at(meta_defs@, id, k)
                                                implies meta_defs@[k].1 is Fn by {
                                            lemma_first_id_unique(meta_defs@, id, k, k0);
                                        }
                                        assert(0 <= (d as int) < defines@.len() && 0 <= (
                                        m as int) < defines@[d as int].meta@.len()
                                            && defines@[d as int].meta@[m as int].kind@
                                            == "rust"@ && defines@[d as int].name@
                                            == formatter_names@.last()@
                                            && is_any_formatter_sig(
                                            sig_view(defines@[d as int].sig),
                                        ));
                                    }
                                    assert forall|x: int|
                                        0 <= x < formatter_names@.len()
                                            implies formatter_name_ok(
                                        defines@,
                                        meta_defs@,
                                        (#[trigger] formatter_names@[x])@,
                                    ) by {
                                        if x < pre_names.len() {
                                            assert(formatter_names@[x] == pre_names[x]);
                                        }
                                    }
                                }
                            }
                            add_group_member(&mut groups, id, defines[d].name.clone());
                        }
                        _ => {
                            add_group_member(&mut groups, id, defines[d].name.clone());
                        }
                    },
                }
            }
            m = m + 1;
        }
        d = d + 1;
    }
    proof {
        assert(!unregistered_rust_meta(defines@, meta_defs@)) by {
            if unregistered_rust_meta(defines@, meta_defs@) {
                let (d2, m2) = choose|d2: int, m2: int|
                    0 <= d2 < defines@.len() && 0 <= m2 < defines@[d2].meta@.len() && (
                    #[trigger] defines@[d2].meta@[m2]).kind@ == "rust"@ && !has_id(
                        meta_defs@,
                        defines@[d2].meta@[m2].id,
                    );
                assert(has_id(meta_defs@, defines@[d2].meta@[m2].id));
            }
        }
    }
    Ok((formatter_names, groups))
}

impl Builder {
    /// The canonical node a symbol name resolves to through the alias
    /// map, if the symbol survived linking: the first alias entry names
    /// the canonical, whose index entry names the node.
    pub fn resolve_name(&self, name: &str) -> (r: Option<usize>)
        requires
            self.wf(),
        ensures
            r is Some ==> r->Some_0 < self.graph.nodes@.len(),
            r is Some <==> has_key(self.aliases@, name@),
            r is Some ==> exists|a: int, x: int|
                #[trigger] first_key_at(self.aliases@, name@, a) && #[trigger] first_key_at(
                    self.indices@,
                    self.aliases@[a].1@,
                    x,
                ) && r->Some_0 == self.indices@[x].1,
    {
        match lookup(&self.aliases, name) {
            Some(canonical) => {
                let c = canonical.clone();
                proof {
                    let a = choose|a: int|
                        #[trigger] first_key_at(self.aliases@, name@, a) && c
                            == self.aliases@[a].1;
                    assert(has_key(self.indices@, c@));
                }
                match self.node_index_of(c.as_str()) {
                    Some(i) => Some(i),
                    None => {
                        proof {
                            assert(false);
                        }
                        None
                    }
                }
            }
            None => None,
        }
    }

    /// Looks a callee symbol up, creating a dangling placeholder node
    /// when the symbol is undefined; only a bitcast call reports the
    /// missing stack information.
    fn callee_node(&mut self, name: &str, warn: bool) -> (r: usize)
        requires
            old(self).wf(),
        ensures
            final(self).wf(),
            r < final(self).graph.nodes@.len(),
            final(self).graph.edges@ == old(self).graph.edges@,
            old(self).graph.nodes@.len() <= final(self).graph.nodes@.len(),
            forall|i: int| 0 <= i < old(self).graph.nodes@.len() ==> final(self).graph.nodes@[i]
                == old(self).graph.nodes@[i],
            forall|i: int|
                old(self).graph.nodes@.len() <= i < final(self).graph.nodes@.len() ==> !(
                #[trigger] final(self).graph.nodes@[i]).dashed,
            final(self).aliases == old(self).aliases,
            final(self).indirects == old(self).indirects,
            final(self).dynamics == old(self).dynamics,
            final(self).addr2name == old(self).addr2name,
            final(self).formatter_callees == old(self).formatter_callees,
            old(self).indices@.len() <= final(self).indices@.len(),
            forall|x: int| 0 <= x < old(self).indices@.len() ==> final(self).indices@[x]
                == #[trigger] old(self).indices@[x],
            has_key(final(self).indices@, name@),
    {
        match self.node_index_of(name) {
            Some(i) => i,
            None => {
                if warn {
                    self.warnings.push(Warning::NoStackInfo(String::from_str(name)));
                }
                let idx = self.graph.add_node(make_node(String::from_str(name), None, false));
                let ghost pre_idx = self.indices@;
                let entry = (String::from_str(name), idx);
                proof {
                    lemma_keys_unique_push(pre_idx, entry);
                    lemma_has_key_push(pre_idx, entry, entry.0@);
                }
                self.indices.push(entry);
                proof {
                    assert forall|a: int| 0 <= a < self.aliases@.len() implies has_key(
                        self.indices@,
                        (#[trigger] self.aliases@[a]).1@,
                    ) by {
                        lemma_has_key_push(pre_idx, entry, self.aliases@[a].1@);
                    }
                }
                idx
            }
        }
    }

    /// Adds edges to whichever of the named runtime symbols exist.
    fn add_runtime_edges(&mut self, caller: usize, first: &str, second: &str, third: &str)
        requires
            old(self).wf(),
            caller < old(self).graph.nodes@.len(),
        ensures
            final(self).wf(),
            final(self).graph.nodes@ == old(self).graph.nodes@,
            final(self).indices == old(self).indices,
            final(self).aliases == old(self).aliases,
            final(self).warnings == old(self).warnings,
            final(self).indirects == old(self).indirects,
            final(self).dynamics == old(self).dynamics,
            old(self).graph.edges@.len() <= final(self).graph.edges@.len(),
            forall|e: int| 0 <= e < old(self).graph.edges@.len() ==> final(self).graph.edges@[e]
                == #[trigger] old(self).graph.edges@[e],
    {
        match self.node_index_of(first) {
            Some(t) => {
                self.add_edge_once(caller, t);
            }
            None => {}
        }
        match self.node_index_of(second) {
            Some(t) => {
                self.add_edge_once(caller, t);
            }
            None => {}
        }
        match self.node_index_of(third) {
            Some(t) => {
                self.add_edge_once(caller, t);
            }
            None => {}
        }
    }

    /// Phase C: walks every surviving definition's statements and adds
    /// the direct-call edges; indirect calls are queued under their
    /// metadata id or their signature bucket for the expansion phase.
    /// Returns the canonical names that had a definition in the IR.
    pub fn discover_edges(
        &mut self,
        defines: &Vec<Define>,
        undefined: &Vec<String>,
        thumb: bool,
        has_call_metadata: bool,
        meta_defs: &Vec<(u64, MetadataKind)>,
        meta_callers: &mut Vec<(u64, Vec<usize>)>,
        formatter_callers: &mut Vec<usize>,
    ) -> (r: Result<Vec<String>, BuildError>)
        requires
            old(self).wf(),
            forall|i: int, j: int|
                0 <= i < old(meta_callers)@.len() && 0 <= j < old(meta_callers)@[i].1@.len()
                    ==> (#[trigger] old(meta_callers)@[i].1@[j]) < old(
                    self,
                ).graph.nodes@.len(),
            forall|i: int|
                0 <= i < old(formatter_callers)@.len() ==> (
                #[trigger] old(formatter_callers)@[i]) < old(self).graph.nodes@.len(),
        ensures
            final(self).wf(),
            old(self).graph.nodes@.len() <= final(self).graph.nodes@.len(),
            forall|i: int| 0 <= i < old(self).graph.nodes@.len() ==> final(self).graph.nodes@[i]
                == old(self).graph.nodes@[i],
            forall|i: int|
                old(self).graph.nodes@.len() <= i < final(self).graph.nodes@.len() ==> !(
                #[trigger] final(self).graph.nodes@[i]).dashed,
            forall|i: int, j: int|
                0 <= i < final(meta_callers)@.len() && 0 <= j < final(meta_callers)@[i].1@.len()
                    ==> (#[trigger] final(meta_callers)@[i].1@[j])
                    < final(self).graph.nodes@.len(),
            forall|i: int|
                0 <= i < final(formatter_callers)@.len() ==> (
                #[trigger] final(formatter_callers)@[i]) < final(self).graph.nodes@.len(),
            final(self).aliases == old(self).aliases,
            r is Ok ==> crate::symbols::strs_view(r->Ok_0@) == surviving_names(
                defines@,
                old(self).aliases@,
            ),
            r is Ok ==> forall|d2: int, st2: int|
                0 <= d2 < defines@.len() && 0 <= st2 < defines@[d2].stmts@.len() && has_key(
                    old(self).aliases@,
                    defines@[d2].name@,
                ) ==> #[trigger] plain_direct_call_edge(*final(self), defines@, d2, st2),
            r is Err <==> exists|d2: int|
                0 <= d2 < defines@.len() && define_fatal(
                    old(self).aliases@,
                    undefined@,
                    thumb,
                    has_call_metadata,
                    meta_defs@,
                    #[trigger] defines@[d2],
                ),
            r is Ok ==> forall|d2: int, st2: int|
                0 <= d2 < defines@.len() && 0 <= st2 < defines@[d2].stmts@.len() && has_key(
                    old(self).aliases@,
                    defines@[d2].name@,
                ) ==> #[trigger] indirect_queued(
                    *final(self),
                    final(meta_callers)@,
                    final(formatter_callers)@,
                    meta_defs@,
                    has_call_metadata,
                    defines@,
                    d2,
                    st2,
                ),
    {
        proof {
            reveal_strlit("rust");
            reveal_strlit("llvm.dbg.value");
            reveal_strlit("llvm.dbg.declare");
            reveal_strlit("llvm.assume");
            reveal_strlit("llvm.trap");
            reveal_strlit("llvm.lifetime.start");
            reveal_strlit("llvm.lifetime.end");
            reveal_strlit("llvm.");
            reveal_strlit("llvm.memcpy.");
            reveal_strlit("llvm.memset.");
            reveal_strlit("llvm.memmove.");
            reveal_strlit("llvm.bswap.");
            reveal_strlit("llvm.ctlz.");
            reveal_strlit("llvm.uadd.with.overflow.");
            reveal_strlit("llvm.umul.with.overflow.");
            reveal_strlit("llvm.usub.with.overflow.");
        }
        let mut ir_defined: Vec<String> = Vec::new();
        let mut asm_seen: Vec<String> = Vec::new();
        let mut llvm_seen: Vec<String> = Vec::new();
        let nd = defines.len();
        let mut d: usize = 0;
        while d < nd
            invariant
                d <= nd,
                nd == defines@.len(),
                self.wf(),
                old(self).graph.nodes@.len() <= self.graph.nodes@.len(),
                forall|i: int| 0 <= i < old(self).graph.nodes@.len() ==> self.graph.nodes@[i]
                    == old(self).graph.nodes@[i],
                forall|i: int|
                    old(self).graph.nodes@.len() <= i < self.graph.nodes@.len() ==> !(
                    #[trigger] self.graph.nodes@[i]).dashed,
                forall|i: int, j: int|
                    0 <= i < meta_callers@.len() && 0 <= j < meta_callers@[i].1@.len() ==> (
                    #[trigger] meta_callers@[i].1@[j]) < self.graph.nodes@.len(),
                forall|i: int| 0 <= i < formatter_callers@.len() ==> (
                #[trigger] formatter_callers@[i]) < self.graph.nodes@.len(),
                self.aliases == old(self).aliases,
                crate::symbols::strs_view(ir_defined@) == surviving_names(
                    defines@.take(d as int),
                    old(self).aliases@,
                ),
                forall|d2: int, st2: int|
                    0 <= d2 < d && 0 <= st2 < defines@[d2].stmts@.len() && has_key(
                        self.aliases@,
                        defines@[d2].name@,
                    ) ==> #[trigger] plain_direct_call_edge(*self, defines@, d2, st2),
                forall|d2: int|
                    0 <= d2 < d ==> !define_fatal(
                        old(self).aliases@,
                        undefined@,
                        thumb,
                        has_call_metadata,
                        meta_defs@,
                        #[trigger] defines@[d2],
                    ),
                forall|d2: int, st2: int|
                    0 <= d2 < d && 0 <= st2 < defines@[d2].stmts@.len() && has_key(
                        self.aliases@,
                        defines@[d2].name@,
                    ) ==> #[trigger] indirect_queued(
                        *self,
                        meta_callers@,
                        formatter_callers@,
                        meta_defs@,
                        has_call_metadata,
                        defines@,
                        d2,
                        st2,
                    ),
            decreases nd - d,
        {
            proof {
                assert(defines@.take(d + 1).drop_last() =~= defines@.take(d as int));
                assert(defines@.take(d + 1).last() == defines@[d as int]);
            }
            let caller = match self.resolve_name(defines[d].name.as_str()) {
                Some(c) => c,
                None => {
                    // this definition was discarded by the linker
                    proof {
                        assert(crate::symbols::strs_view(ir_defined@) =~= surviving_names(
                            defines@.take(d + 1),
                            old(self).aliases@,
                        ));
                        assert(!define_fatal(
                            old(self).aliases@,
                            undefined@,
                            thumb,
                            has_call_metadata,
                            meta_defs@,
                            defines@[d as int],
                        ));
                    }
                    d = d + 1;
                    continue ;
                }
            };
            proof {
                assert(resolved_node(*self, defines@[d as int].name@, caller));
            }
            ir_defined.push(defines[d].name.clone());
            proof {
                assert(crate::symbols::strs_view(ir_defined@) =~= surviving_names(
                    defines@.take(d + 1),
                    old(self).aliases@,
                ));
            }
            let nst = defines[d].stmts.len();
            let mut st: usize = 0;
            while st < nst
                invariant
                    st <= nst,
                    nst == defines@[d as int].stmts@.len(),
                    0 <= (d as int) < defines@.len(),
                    self.wf(),
                    caller < self.graph.nodes@.len(),
                    old(self).graph.nodes@.len() <= self.graph.nodes@.len(),
                    forall|i: int|
                        0 <= i < old(self).graph.nodes@.len() ==> self.graph.nodes@[i] == old(
                            self,
                        ).graph.nodes@[i],
                    forall|i: int|
                        old(self).graph.nodes@.len() <= i < self.graph.nodes@.len() ==> !(
                        #[trigger] self.graph.nodes@[i]).dashed,
                    forall|i: int, j: int|
                        0 <= i < meta_callers@.len() && 0 <= j < meta_callers@[i].1@.len()
                            ==> (#[trigger] meta_callers@[i].1@[j]) < self.graph.nodes@.len(),
                    forall|i: int| 0 <= i < formatter_callers@.len() ==> (
                    #[trigger] formatter_callers@[i]) < self.graph.nodes@.len(),
                    self.aliases == old(self).aliases,
                    has_key(self.aliases@, defines@[d as int].name@),
                    resolved_node(*self, defines@[d as int].name@, caller),
                    crate::symbols::strs_view(ir_defined@) == surviving_names(
                        defines@.take(d + 1),
                        old(self).aliases@,
                    ),
                    forall|d2: int, st2: int|
                        0 <= d2 < d && 0 <= st2 < defines@[d2].stmts@.len() && has_key(
                            self.aliases@,
                            defines@[d2].name@,
                        ) ==> #[trigger] plain_direct_call_edge(*self, defines@, d2, st2),
                    forall|st2: int| 0 <= st2 < st ==> #[trigger] plain_direct_call_edge(
                        *self,
                        defines@,
                        d as int,
                        st2,
                    ),
                    forall|d2: int|
                        0 <= d2 < d ==> !define_fatal(
                            old(self).aliases@,
                            undefined@,
                            thumb,
                            has_call_metadata,
                            meta_defs@,
                            #[trigger] defines@[d2],
                        ),
                    forall|st2: int|
                        0 <= st2 < st ==> !stmt_fatal(
                            old(self).aliases@,
                            undefined@,
                            thumb,
                            has_call_metadata,
                            meta_defs@,
                            #[trigger] defines@[d as int].stmts@[st2],
                        ),
                    forall|d2: int, st2: int|
                        0 <= d2 < d && 0 <= st2 < defines@[d2].stmts@.len() && has_key(
                            self.aliases@,
                            defines@[d2].name@,
                        ) ==> #[trigger] indirect_queued(
                            *self,
                            meta_callers@,
                            formatter_callers@,
                            meta_defs@,
                            has_call_metadata,
                            defines@,
                            d2,
                            st2,
                        ),
                    forall|st2: int|
                        0 <= st2 < st ==> #[trigger] indirect_queued(
                            *self,
                            meta_callers@,
                            formatter_callers@,
                            meta_defs@,
                            has_call_metadata,
                            defines@,
                            d as int,
                            st2,
                        ),
                decreases nst - st,
            {
                let ghost b_it = *self;
                let ghost mc_it = meta_callers@;
                let ghost fc_it = formatter_callers@;
                match &defines[d].stmts[st] {
                    Stmt::Asm(expr) => {
                        if !contains_str(&asm_seen, expr.as_str()) {
                            asm_seen.push(expr.clone());
                            self.warnings.push(Warning::AsmAssumedNoStack(expr.clone()));
                        }
                    }
                    Stmt::BitcastCall(sym_opt) => {
                        match sym_opt {
                            None => {
                                proof {
                                    assert(stmt_fatal(
                                        old(self).aliases@,
                                        undefined@,
                                        thumb,
                                        has_call_metadata,
                                        meta_defs@,
                                        defines@[d as int].stmts@[st as int],
                                    ));
                                    assert(define_fatal(
                                        old(self).aliases@,
                                        undefined@,
                                        thumb,
                                        has_call_metadata,
                                        meta_defs@,
                                        defines@[d as int],
                                    ));
                                }
                                return Err(
                                    BuildError::UnnamedBitcastCall(defines[d].name.clone()),
                                );
                            }
                            Some(sym) => {
                                let sname = sym.clone();
                                let callee = self.callee_node(sname.as_str(), true);
                                self.graph.add_edge(caller, callee);
                            }
                        }
                    }
                    Stmt::DirectCall(func) => {
                        let fname = func.clone();
                        let fv = crate::chars::chars_of(fname.as_str());
                        let skip = str_eq(fname.as_str(), "llvm.dbg.value") || str_eq(
                            fname.as_str(),
                            "llvm.dbg.declare",
                        ) || str_eq(fname.as_str(), "llvm.assume") || str_eq(
                            fname.as_str(),
                            "llvm.trap",
                        ) || {
                            let p1 = crate::chars::chars_of("llvm.lifetime.start");
                            let p2 = crate::chars::chars_of("llvm.lifetime.end");
                            crate::chars::starts_with(fv.as_slice(), p1.as_slice())
                                || crate::chars::starts_with(fv.as_slice(), p2.as_slice())
                        };
                        if !skip {
                            let pllvm = crate::chars::chars_of("llvm.");
                            let is_llvm = crate::chars::starts_with(
                                fv.as_slice(),
                                pllvm.as_slice(),
                            );
                            if thumb && is_llvm {
                                // the machine code will say what these lower to
                            } else {
                                let pmemcpy = crate::chars::chars_of("llvm.memcpy.");
                                let pmemset = crate::chars::chars_of("llvm.memset.");
                                let pmemmove = crate::chars::chars_of("llvm.memmove.");
                                if crate::chars::starts_with(fv.as_slice(), pmemcpy.as_slice())
                                {
                                    self.add_runtime_edges(
                                        caller,
                                        "memcpy",
                                        "__aeabi_memcpy",
                                        "__aeabi_memcpy4",
                                    );
                                } else if crate::chars::starts_with(
                                    fv.as_slice(),
                                    pmemset.as_slice(),
                                ) || crate::chars::starts_with(
                                    fv.as_slice(),
                                    pmemmove.as_slice(),
                                ) {
                                    self.add_runtime_edges(
                                        caller,
                                        "memset",
                                        "__aeabi_memset",
                                        "__aeabi_memset4",
                                    );
                                    self.add_runtime_edges(
                                        caller,
                                        "memclr",
                                        "__aeabi_memclr",
                                        "__aeabi_memclr4",
                                    );
                                } else {
                                    let pb = crate::chars::chars_of("llvm.bswap.");
                                    let pc = crate::chars::chars_of("llvm.ctlz.");
                                    let pa = crate::chars::chars_of(
                                        "llvm.uadd.with.overflow.",
                                    );
                                    let pm = crate::chars::chars_of(
                                        "llvm.umul.with.overflow.",
                                    );
                                    let ps = crate::chars::chars_of(
                                        "llvm.usub.with.overflow.",
                                    );
                                    let lowers = crate::chars::starts_with(
                                        fv.as_slice(),
                                        pb.as_slice(),
                                    ) || crate::chars::starts_with(fv.as_slice(), pc.as_slice())
                                        || crate::chars::starts_with(
                                        fv.as_slice(),
                                        pa.as_slice(),
                                    ) || crate::chars::starts_with(fv.as_slice(), pm.as_slice())
                                        || crate::chars::starts_with(
                                        fv.as_slice(),
                                        ps.as_slice(),
                                    );
                                    if lowers {
                                        if !contains_str(&llvm_seen, fname.as_str()) {
                                            llvm_seen.push(fname.clone());
                                            self.warnings.push(
                                                Warning::IntrinsicAssumedInlined(fname.clone()),
                                            );
                                        }
                                    } else if is_llvm {
                                        proof {
                                            assert(stmt_fatal(
                                                old(self).aliases@,
                                                undefined@,
                                                thumb,
                                                has_call_metadata,
                                                meta_defs@,
                                                defines@[d as int].stmts@[st as int],
                                            ));
                                            assert(define_fatal(
                                                old(self).aliases@,
                                                undefined@,
                                                thumb,
                                                has_call_metadata,
                                                meta_defs@,
                                                defines@[d as int],
                                            ));
                                        }
                                        return Err(BuildError::UnhandledIntrinsic(fname));
                                    } else {
                                        match self.resolve_name(fname.as_str()) {
                                            Some(callee) => {
                                                proof {
                                                    assert(resolved_node(
                                                        *self,
                                                        fname@,
                                                        callee,
                                                    ));
                                                }
                                                let ghost b_pre = *self;
                                                self.add_edge_once(caller, callee);
                                                proof {
                                                    lemma_resolved_stable(
                                                        b_pre,
                                                        *self,
                                                        fname@,
                                                        callee,
                                                    );
                                                    lemma_resolved_stable(
                                                        b_pre,
                                                        *self,
                                                        defines@[d as int].name@,
                                                        caller,
                                                    );
                                                    assert(direct_edge_ok(
                                                        *self,
                                                        defines@[d as int].name@,
                                                        fname@,
                                                    ));
                                                }
                                            }
                                            None => {
                                                if contains_str(undefined, fname.as_str()) {
                                                    let callee = self.callee_node(
                                                        fname.as_str(),
                                                        false,
                                                    );
                                                    self.add_edge_once(caller, callee);
                                                } else {
                                                    proof {
                                                        assert(!in_undefined(
                                                            undefined@,
                                                            fname@,
                                                        ));
                                                        assert(stmt_fatal(
                                                            old(self).aliases@,
                                                            undefined@,
                                                            thumb,
                                                            has_call_metadata,
                                                            meta_defs@,
                                                            defines@[d as int].stmts@[
                                                                st as int],
                                                        ));
                                                        assert(define_fatal(
                                                            old(self).aliases@,
                                                            undefined@,
                                                            thumb,
                                                            has_call_metadata,
                                                            meta_defs@,
                                                            defines@[d as int],
                                                        ));
                                                    }
                                                    return Err(
                                                        BuildError::UnresolvedSymbol(fname),
                                                    );
                                                }
                                            }
                                        }
                                    }
                                }
                            }
                        }
                    }
                    Stmt::IndirectCall(sig, meta) => {
                        if has_call_metadata {
                            let ghost stmt_now = defines@[d as int].stmts@[st as int];
                            let mut id_found: Option<u64> = None;
                            let ghost mut first_m: int = 0;
                            let nmr = meta.len();
                            let mut mi: usize = 0;
                            while mi < nmr
                                invariant
                                    mi <= nmr,
                                    nmr == meta@.len(),
                                    match id_found {
                                        None => forall|m2: int|
                                            0 <= m2 < mi ==> (#[trigger] meta@[m2]).kind@
                                                != "rust"@,
                                        Some(idv) => first_rust_at(meta@, first_m) && meta@[
                                        first_m].id == idv,
                                    },
                                decreases nmr - mi,
                            {
                                if id_found.is_none() {
                                    if str_eq(meta[mi].kind.as_str(), "rust") {
                                        id_found = Some(meta[mi].id);
                                        proof {
                                            first_m = mi as int;
                                            assert(first_rust_at(meta@, first_m));
                                        }
                                    }
                                }
                                mi = mi + 1;
                            }
                            let id = match id_found {
                                Some(id) => id,
                                None => {
                                    proof {
                                        assert(!(exists|m: int| #[trigger] first_rust_at(
                                            meta@,
                                            m,
                                        ))) by {
                                            if exists|m: int| #[trigger] first_rust_at(
                                                meta@,
                                                m,
                                            ) {
                                                let m = choose|m: int| #[trigger] first_rust_at(
                                                    meta@,
                                                    m,
                                                );
                                                assert(meta@[m].kind@ != "rust"@);
                                            }
                                        }
                                        assert(stmt_fatal(
                                            old(self).aliases@,
                                            undefined@,
                                            thumb,
                                            has_call_metadata,
                                            meta_defs@,
                                            stmt_now,
                                        ));
                                        assert(define_fatal(
                                            old(self).aliases@,
                                            undefined@,
                                            thumb,
                                            has_call_metadata,
                                            meta_defs@,
                                            defines@[d as int],
                                        ));
                                    }
                                    return Err(
                                        BuildError::MetadataMismatch(defines[d].name.clone()),
                                    );
                                }
                            };
                            match find_meta(meta_defs, id) {
                                None => {
                                    proof {
                                        assert forall|m: int|
                                            #[trigger] first_rust_at(meta@, m)
                                                implies bad_call_meta(meta_defs@, meta@[m].id)
                                            by {
                                            lemma_first_rust_unique(meta@, m, first_m);
                                        }
                                        assert(stmt_fatal(
                                            old(self).aliases@,
                                            undefined@,
                                            thumb,
                                            has_call_metadata,
                                            meta_defs@,
                                            stmt_now,
                                        ));
                                        assert(define_fatal(
                                            old(self).aliases@,
                                            undefined@,
                                            thumb,
                                            has_call_metadata,
                                            meta_defs@,
                                            defines@[d as int],
                                        ));
                                    }
                                    return Err(
                                        BuildError::MetadataMismatch(defines[d].name.clone()),
                                    );
                                }
                                Some(kind) => match kind {
                                    MetadataKind::Group { .. } => {
                                        proof {
                                            assert forall|m: int|
                                                #[trigger] first_rust_at(meta@, m)
                                                    implies bad_call_meta(
                                                meta_defs@,
                                                meta@[m].id,
                                            ) by {
                                                lemma_first_rust_unique(meta@, m, first_m);
                                                assert forall|k: int|
                                                    #[trigger] first_id_at(meta_defs@, id, k)
                                                        implies meta_defs@[k].1 is Group by {
                                                    let k0 = choose|k0: int|
                                                        #[trigger] first_id_at(
                                                            meta_defs@,
                                                            id,
                                                            k0,
                                                        ) && *kind == meta_defs@[k0].1;
                                                    lemma_first_id_unique(
                                                        meta_defs@,
                                                        id,
                                                        k,
                                                        k0,
                                                    );
                                                }
                                            }
                                            assert(stmt_fatal(
                                                old(self).aliases@,
                                                undefined@,
                                                thumb,
                                                has_call_metadata,
                                                meta_defs@,
                                                stmt_now,
                                            ));
                                            assert(define_fatal(
                                                old(self).aliases@,
                                                undefined@,
                                                thumb,
                                                has_call_metadata,
                                                meta_defs@,
                                                defines@[d as int],
                                            ));
                                        }
                                        return Err(
                                            BuildError::MetadataMismatch(
                                                defines[d].name.clone(),
                                            ),
                                        );
                                    }
                                    MetadataKind::Fn { .. } => {
                                        proof {
                                            assert(!stmt_fatal(
                                                old(self).aliases@,
                                                undefined@,
                                                thumb,
                                                has_call_metadata,
                                                meta_defs@,
                                                stmt_now,
                                            )) by {
                                                assert(first_rust_at(meta@, first_m));
                                                let k0 = choose|k0: int|
                                                    #[trigger] first_id_at(meta_defs@, id, k0)
                                                        && *kind == meta_defs@[k0].1;
                                                assert(!bad_call_meta(meta_defs@, id));
                                            }
                                        }
                                        if sig_is_void_formatter_result(sig) {
                                            formatter_callers.push(caller);
                                            proof {
                                                assert(formatter_callers@.last() == caller);
                                                assert(formatter_callers@.contains(caller));
                                            }
                                            proof {
                                                assert(indirect_queued(
                                                    *self,
                                                    meta_callers@,
                                                    formatter_callers@,
                                                    meta_defs@,
                                                    has_call_metadata,
                                                    defines@,
                                                    d as int,
                                                    st as int,
                                                )) by {
                                                    match defines@[d as int].stmts@[st as int] {
                                                        Stmt::IndirectCall(sg, mt) => {
                                                            assert(resolved_node(
                                                                *self,
                                                                defines@[d as int].name@,
                                                                caller,
                                                            ));
                                                            assert forall|m: int|
                                                                #[trigger] first_rust_at(
                                                                mt@,
                                                                m,
                                                            ) implies forall|k: int|
                                                                #[trigger] first_id_at(
                                                                    meta_defs@,
                                                                    mt@[m].id,
                                                                    k,
                                                                ) ==> (match meta_defs@[k].1 {
                                                                MetadataKind::Fn { .. } => if crate::sig::is_void_formatter_sig(
                                                                    sig_view(sg),
                                                                ) {
                                                                    formatter_callers@.contains(caller)
                                                                } else {
                                                                    meta_caller_in(
                                                                        meta_callers@,
                                                                        mt@[m].id,
                                                                        caller,
                                                                    )
                                                                },
                                                                MetadataKind::Group { .. } => true,
                                                                _ => meta_caller_in(
                                                                    meta_callers@,
                                                                    mt@[m].id,
                                                                    caller,
                                                                ),
                                                            }) by {
                                                                lemma_first_rust_unique(
                                                                    mt@,
                                                                    m,
                                                                    first_m,
                                                                );
                                                                assert forall|k: int|
                                                                    #[trigger] first_id_at(
                                                                        meta_defs@,
                                                                        mt@[m].id,
                                                                        k,
                                                                    ) implies (match meta_defs@[
                                                                    k].1 {
                                                                    MetadataKind::Fn { .. } => if crate::sig::is_void_formatter_sig(
                                                                        sig_view(sg),
                                                                    ) {
                                                                        formatter_callers@.contains(caller)
                                                                    } else {
                                                                        meta_caller_in(
                                                                            meta_callers@,
                                                                            mt@[m].id,
                                                                            caller,
                                                                        )
                                                                    },
                                                                    MetadataKind::Group { .. } => true,
                                                                    _ => meta_caller_in(
                                                                        meta_callers@,
                                                                        mt@[m].id,
                                                                        caller,
                                                                    ),
                                                                }) by {
                                                                    let k0 = choose|k0: int|
                                                                        #[trigger] first_id_at(
                                                                            meta_defs@,
                                                                            id,
                                                                            k0,
                                                                        ) && *kind == meta_defs@[
                                                                        k0].1;
                                                                    lemma_first_id_unique(
                                                                        meta_defs@,
                                                                        id,
                                                                        k,
                                                                        k0,
                                                                    );
                                                                    assert(formatter_callers@.contains(caller));
                                                                }
                                                            }
                                                        }
                                                        _ => {}
                                                    }
                                                }
                                            }
                                        } else {
                                            let bound = self.graph.node_count();
                                            add_meta_caller(meta_callers, id, caller, bound);
                                            proof {
                                                assert(indirect_queued(
                                                    *self,
                                                    meta_callers@,
                                                    formatter_callers@,
                                                    meta_defs@,
                                                    has_call_metadata,
                                                    defines@,
                                                    d as int,
                                                    st as int,
                                                )) by {
                                                    match defines@[d as int].stmts@[st as int] {
                                                        Stmt::IndirectCall(sg, mt) => {
                                                            assert(resolved_node(
                                                                *self,
                                                                defines@[d as int].name@,
                                                                caller,
                                                            ));
                                                            assert forall|m: int|
                                                                #[trigger] first_rust_at(
                                                                mt@,
                                                                m,
                                                            ) implies forall|k: int|
                                                                #[trigger] first_id_at(
                                                                    meta_defs@,
                                                                    mt@[m].id,
                                                                    k,
                                                                ) ==> (match meta_defs@[k].1 {
                                                                MetadataKind::Fn { .. } => if crate::sig::is_void_formatter_sig(
                                                                    sig_view(sg),
                                                                ) {
                                                                    formatter_callers@.contains(caller)
                                                                } else {
                                                                    meta_caller_in(
                                                                        meta_callers@,
                                                                        mt@[m].id,
                                                                        caller,
                                                                    )
                                                                },
                                                                MetadataKind::Group { .. } => true,
                                                                _ => meta_caller_in(
                                                                    meta_callers@,
                                                                    mt@[m].id,
                                                                    caller,
                                                                ),
                                                            }) by {
                                                                lemma_first_rust_unique(
                                                                    mt@,
                                                                    m,
                                                                    first_m,
                                                                );
                                                                assert forall|k: int|
                                                                    #[trigger] first_id_at(
                                                                        meta_defs@,
                                                                        mt@[m].id,
                                                                        k,
                                                                    ) implies (match meta_defs@[
                                                                    k].1 {
                                                                    MetadataKind::Fn { .. } => if crate::sig::is_void_formatter_sig(
                                                                        sig_view(sg),
                                                                    ) {
                                                                        formatter_callers@.contains(caller)
                                                                    } else {
                                                                        meta_caller_in(
                                                                            meta_callers@,
                                                                            mt@[m].id,
                                                                            caller,
                                                                        )
                                                                    },
                                                                    MetadataKind::Group { .. } => true,
                                                                    _ => meta_caller_in(
                                                                        meta_callers@,
                                                                        mt@[m].id,
                                                                        caller,
                                                                    ),
                                                                }) by {
                                                                    let k0 = choose|k0: int|
                                                                        #[trigger] first_id_at(
                                                                            meta_defs@,
                                                                            id,
                                                                            k0,
                                                                        ) && *kind == meta_defs@[
                                                                        k0].1;
                                                                    lemma_first_id_unique(
                                                                        meta_defs@,
                                                                        id,
                                                                        k,
                                                                        k0,
                                                                    );
                                                                    assert(meta_caller_in(meta_callers@, id, caller));
                                                                }
                                                            }
                                                        }
                                                        _ => {}
                                                    }
                                                }
                                            }
                                        }
                                    }
                                    _ => {
                                        proof {
                                            assert(!stmt_fatal(
                                                old(self).aliases@,
                                                undefined@,
                                                thumb,
                                                has_call_metadata,
                                                meta_defs@,
                                                stmt_now,
                                            )) by {
                                                assert(first_rust_at(meta@, first_m));
                                                let k0 = choose|k0: int|
                                                    #[trigger] first_id_at(meta_defs@, id, k0)
                                                        && *kind == meta_defs@[k0].1;
                                                assert(!(meta_defs@[k0].1 is Group));
                                                assert(!bad_call_meta(meta_defs@, id));
                                            }
                                        }
                                        let bound = self.graph.node_count();
                                        add_meta_caller(meta_callers, id, caller, bound);
                                        proof {
                                                assert(indirect_queued(
                                                    *self,
                                                    meta_callers@,
                                                    formatter_callers@,
                                                    meta_defs@,
                                                    has_call_metadata,
                                                    defines@,
                                                    d as int,
                                                    st as int,
                                                )) by {
                                                    match defines@[d as int].stmts@[st as int] {
                                                        Stmt::IndirectCall(sg, mt) => {
                                                            assert(resolved_node(
                                                                *self,
                                                                defines@[d as int].name@,
                                                                caller,
                                                            ));
                                                            assert forall|m: int|
                                                                #[trigger] first_rust_at(
                                                                mt@,
                                                                m,
                                                            ) implies forall|k: int|
                                                                #[trigger] first_id_at(
                                                                    meta_defs@,
                                                                    mt@[m].id,
                                                                    k,
                                                                ) ==> (match meta_defs@[k].1 {
                                                                MetadataKind::Fn { .. } => if crate::sig::is_void_formatter_sig(
                                                                    sig_view(sg),
                                                                ) {
                                                                    formatter_callers@.contains(caller)
                                                                } else {
                                                                    meta_caller_in(
                                                                        meta_callers@,
                                                                        mt@[m].id,
                                                                        caller,
                                                                    )
                                                                },
                                                                MetadataKind::Group { .. } => true,
                                                                _ => meta_caller_in(
                                                                    meta_callers@,
                                                                    mt@[m].id,
                                                                    caller,
                                                                ),
                                                            }) by {
                                                                lemma_first_rust_unique(
                                                                    mt@,
                                                                    m,
                                                                    first_m,
                                                                );
                                                                assert forall|k: int|
                                                                    #[trigger] first_id_at(
                                                                        meta_defs@,
                                                                        mt@[m].id,
                                                                        k,
                                                                    ) implies (match meta_defs@[
                                                                    k].1 {
                                                                    MetadataKind::Fn { .. } => if crate::sig::is_void_formatter_sig(
                                                                        sig_view(sg),
                                                                    ) {
                                                                        formatter_callers@.contains(caller)
                                                                    } else {
                                                                        meta_caller_in(
                                                                            meta_callers@,
                                                                            mt@[m].id,
                                                                            caller,
                                                                        )
                                                                    },
                                                                    MetadataKind::Group { .. } => true,
                                                                    _ => meta_caller_in(
                                                                        meta_callers@,
                                                                        mt@[m].id,
                                                                        caller,
                                                                    ),
                                                                }) by {
                                                                    let k0 = choose|k0: int|
                                                                        #[trigger] first_id_at(
                                                                            meta_defs@,
                                                                            id,
                                                                            k0,
                                                                        ) && *kind == meta_defs@[
                                                                        k0].1;
                                                                    lemma_first_id_unique(
                                                                        meta_defs@,
                                                                        id,
                                                                        k,
                                                                        k0,
                                                                    );
                                                                    assert(meta_caller_in(meta_callers@, id, caller));
                                                                }
                                                            }
                                                        }
                                                        _ => {}
                                                    }
                                                }
                                            }
                                    }
                                },
                            }
                        } else {
                            let erased = sig.inputs.len() > 0 && sig.inputs[0].has_been_erased();
                            let bound = self.graph.node_count();
                            let dup = sig.duplicate();
                            proof {
                                assert(sig_view(dup) == sig_view(*sig));
                                crate::sig::lemma_types_view_index(sig.inputs@);
                            }
                            if erased {
                                bucket_mark_called(&mut self.dynamics, dup, caller, bound);
                                proof {
                                    assert(bucket_caller_in(
                                        self.dynamics@,
                                        sig_view(*sig),
                                        caller,
                                    ));
                                }
                            } else {
                                bucket_mark_called(&mut self.indirects, dup, caller, bound);
                                proof {
                                    assert(bucket_caller_in(
                                        self.indirects@,
                                        sig_view(*sig),
                                        caller,
                                    ));
                                }
                            }
                            proof {
                                lemma_resolved_stable(
                                    b_it,
                                    *self,
                                    defines@[d as int].name@,
                                    caller,
                                );
                                assert(indirect_queued(
                                    *self,
                                    meta_callers@,
                                    formatter_callers@,
                                    meta_defs@,
                                    has_call_metadata,
                                    defines@,
                                    d as int,
                                    st as int,
                                ));
                            }
                        }
                    }
                    Stmt::Other => {}
                }
                proof {
                    // the statement just handled is not a fatal one
                    assert forall|st2: int|
                        0 <= st2 < st + 1 implies !stmt_fatal(
                        old(self).aliases@,
                        undefined@,
                        thumb,
                        has_call_metadata,
                        meta_defs@,
                        #[trigger] defines@[d as int].stmts@[st2],
                    ) by {}
                    lemma_resolved_stable(
                        b_it,
                        *self,
                        defines@[d as int].name@,
                        caller,
                    );
                    // the indirect-call queues only grow
                    assert forall|sv: crate::sig::SigV, u: usize|
                        #[trigger] bucket_caller_in(b_it.indirects@, sv, u)
                            implies bucket_caller_in(self.indirects@, sv, u) by {}
                    assert forall|sv: crate::sig::SigV, u: usize|
                        #[trigger] bucket_caller_in(b_it.dynamics@, sv, u)
                            implies bucket_caller_in(self.dynamics@, sv, u) by {}
                    assert forall|id2: u64, u: usize|
                        #[trigger] meta_caller_in(mc_it, id2, u) implies meta_caller_in(
                        meta_callers@,
                        id2,
                        u,
                    ) by {}
                    assert(fc_it.len() <= formatter_callers@.len());
                    assert(forall|y: int| 0 <= y < fc_it.len() ==> formatter_callers@[y]
                        == #[trigger] fc_it[y]);
                    assert forall|d2: int, st2: int|
                        0 <= d2 < d && 0 <= st2 < defines@[d2].stmts@.len() && has_key(
                            self.aliases@,
                            defines@[d2].name@,
                        ) implies #[trigger] indirect_queued(
                        *self,
                        meta_callers@,
                        formatter_callers@,
                        meta_defs@,
                        has_call_metadata,
                        defines@,
                        d2,
                        st2,
                    ) by {
                        lemma_indirect_queued_stable(
                            b_it,
                            *self,
                            mc_it,
                            meta_callers@,
                            fc_it,
                            formatter_callers@,
                            meta_defs@,
                            has_call_metadata,
                            defines@,
                            d2,
                            st2,
                        );
                    }
                    assert forall|st2: int|
                        0 <= st2 < st + 1 implies #[trigger] indirect_queued(
                        *self,
                        meta_callers@,
                        formatter_callers@,
                        meta_defs@,
                        has_call_metadata,
                        defines@,
                        d as int,
                        st2,
                    ) by {
                        if st2 < st {
                            lemma_indirect_queued_stable(
                                b_it,
                                *self,
                                mc_it,
                                meta_callers@,
                                fc_it,
                                formatter_callers@,
                                meta_defs@,
                                has_call_metadata,
                                defines@,
                                d as int,
                                st2,
                            );
                        }
                    }
                    assert forall|d2: int, st2: int|
                        0 <= d2 < d && 0 <= st2 < defines@[d2].stmts@.len() && has_key(
                            self.aliases@,
                            defines@[d2].name@,
                        ) implies #[trigger] plain_direct_call_edge(
                        *self,
                        defines@,
                        d2,
                        st2,
                    ) by {
                        lemma_plain_edges_stable(b_it, *self, defines@, d2, st2);
                    }
                    assert forall|st2: int|
                        0 <= st2 < st + 1 implies #[trigger] plain_direct_call_edge(
                        *self,
                        defines@,
                        d as int,
                        st2,
                    ) by {
                        if st2 < st {
                            lemma_plain_edges_stable(b_it, *self, defines@, d as int, st2);
                        } else {
                            match defines@[d as int].stmts@[st as int] {
                                Stmt::DirectCall(f) => {
                                    if !intrinsic_call_name(f@) && has_key(
                                        self.aliases@,
                                        f@,
                                    ) {
                                        assert(direct_edge_ok(
                                            *self,
                                            defines@[d as int].name@,
                                            f@,
                                        ));
                                    }
                                }
                                _ => {}
                            }
                        }
                    }
                }
                st = st + 1;
            }
            proof {
                assert forall|d2: int, st2: int|
                    0 <= d2 < d + 1 && 0 <= st2 < defines@[d2].stmts@.len() && has_key(
                        self.aliases@,
                        defines@[d2].name@,
                    ) implies #[trigger] indirect_queued(
                    *self,
                    meta_callers@,
                    formatter_callers@,
                    meta_defs@,
                    has_call_metadata,
                    defines@,
                    d2,
                    st2,
                ) by {}
                assert(!define_fatal(
                    old(self).aliases@,
                    undefined@,
                    thumb,
                    has_call_metadata,
                    meta_defs@,
                    defines@[d as int],
                )) by {
                    if define_fatal(
                        old(self).aliases@,
                        undefined@,
                        thumb,
                        has_call_metadata,
                        meta_defs@,
                        defines@[d as int],
                    ) {
                        let stf = choose|stf: int|
                            0 <= stf < defines@[d as int].stmts@.len() && stmt_fatal(
                                old(self).aliases@,
                                undefined@,
                                thumb,
                                has_call_metadata,
                                meta_defs@,
                                #[trigger] defines@[d as int].stmts@[stf],
                            );
                        assert(!stmt_fatal(
                            old(self).aliases@,
                            undefined@,
                            thumb,
                            has_call_metadata,
                            meta_defs@,
                            defines@[d as int].stmts@[stf],
                        ));
                    }
                }
            }
            d = d + 1;
        }
        proof {
            assert(defines@.take(nd as int) =~= defines@);
            assert(!(exists|d2: int|
                0 <= d2 < defines@.len() && define_fatal(
                    old(self).aliases@,
                    undefined@,
                    thumb,
                    has_call_metadata,
                    meta_defs@,
                    #[trigger] defines@[d2],
                ))) by {
                if exists|d2: int|
                    0 <= d2 < defines@.len() && define_fatal(
                        old(self).aliases@,
                        undefined@,
                        thumb,
                        has_call_metadata,
                        meta_defs@,
                        #[trigger] defines@[d2],
                    ) {
                    let d2 = choose|d2: int|
                        0 <= d2 < defines@.len() && define_fatal(
                            old(self).aliases@,
                            undefined@,
                            thumb,
                            has_call_metadata,
                            meta_defs@,
                            #[trigger] defines@[d2],
                        );
                    assert(!define_fatal(
                        old(self).aliases@,
                        undefined@,
                        thumb,
                        has_call_metadata,
                        meta_defs@,
                        defines@[d2],
                    ));
                }
            }
        }
        Ok(ir_defined)
    }
}

/// The name resolves through the alias map's first entry and the
/// canonical's first index entry to node `x`.
pub open spec fn resolved_node(b: Builder, n: Seq<char>, x: usize) -> bool {
    exists|a: int, k: int|
        #![trigger first_key_at(b.aliases@, n, a), first_key_at(b.indices@, b.aliases@[a].1@, k)]
        first_key_at(b.aliases@, n, a) && first_key_at(b.indices@, b.aliases@[a].1@, k) && x
            == b.indices@[k].1
}

/// An edge runs from the caller name's node to the callee name's node.
pub open spec fn direct_edge_ok(b: Builder, caller_name: Seq<char>, callee_name: Seq<char>) -> bool {
    exists|u: usize, v: usize|
        #![trigger resolved_node(b, caller_name, u), resolved_node(b, callee_name, v)]
        resolved_node(b, caller_name, u) && resolved_node(b, callee_name, v) && spec_has_edge(
            b.graph.edges@,
            u,
            v,
        )
}

/// The callee names the edge phase treats as compiler intrinsics
/// rather than calls.
pub open spec fn intrinsic_call_name(f: Seq<char>) -> bool {
    ||| f == "llvm.dbg.value"@
    ||| f == "llvm.dbg.declare"@
    ||| f == "llvm.assume"@
    ||| f == "llvm.trap"@
    ||| crate::chars::is_prefix("llvm.lifetime.start"@, f)
    ||| crate::chars::is_prefix("llvm.lifetime.end"@, f)
    ||| crate::chars::is_prefix("llvm.memcpy."@, f)
    ||| crate::chars::is_prefix("llvm.memset."@, f)
    ||| crate::chars::is_prefix("llvm.memmove."@, f)
    ||| crate::chars::is_prefix("llvm.bswap."@, f)
    ||| crate::chars::is_prefix("llvm.ctlz."@, f)
    ||| crate::chars::is_prefix("llvm.uadd.with.overflow."@, f)
    ||| crate::chars::is_prefix("llvm.umul.with.overflow."@, f)
    ||| crate::chars::is_prefix("llvm.usub.with.overflow."@, f)
    ||| crate::chars::is_prefix("llvm."@, f)
}

/// The statement at `st` of definition `d`, when it is a plain direct
/// call (not a compiler intrinsic) to a symbol that survived linking,
/// has its edge.
pub open spec fn plain_direct_call_edge(b: Builder, defines: Seq<Define>, d: int, st: int) -> bool {
    match defines[d].stmts@[st] {
        Stmt::DirectCall(f) => (!intrinsic_call_name(f@) && has_key(b.aliases@, f@))
            ==> direct_edge_ok(b, defines[d].name@, f@),
        _ => true,
    }
}

/// The bucket of this shape was marked called with `u` among its
/// callers.
pub open spec fn bucket_caller_in(
    buckets: Seq<(FnSig, IndirectBucket)>,
    sv: crate::sig::SigV,
    u: usize,
) -> bool {
    exists|i: int|
        0 <= i < buckets.len() && sig_view((#[trigger] buckets[i]).0) == sv && buckets[i].1.called
            && buckets[i].1.callers@.contains(u)
}

/// The id's queue holds `u`.
pub open spec fn meta_caller_in(mc: Seq<(u64, Vec<usize>)>, id: u64, u: usize) -> bool {
    exists|i: int| 0 <= i < mc.len() && (#[trigger] mc[i]).0 == id && mc[i].1@.contains(u)
}

/// The statement at `st` of definition `d`, when it is an indirect
/// call, was queued: under its signature's bucket in the
/// signature-driven mode, under its first `rust` id (or among the
/// formatter callers) in the metadata mode.
pub open spec fn indirect_queued(
    b: Builder,
    mc: Seq<(u64, Vec<usize>)>,
    fc: Seq<usize>,
    meta_defs: Seq<(u64, MetadataKind)>,
    has_call_metadata: bool,
    defines: Seq<Define>,
    d: int,
    st: int,
) -> bool {
    match defines[d].stmts@[st] {
        Stmt::IndirectCall(sig, meta) => exists|u: usize|
            #[trigger] resolved_node(b, defines[d].name@, u) && (if has_call_metadata {
                forall|m: int|
                    #[trigger] first_rust_at(meta@, m) ==> forall|k: int|
                        #[trigger] first_id_at(meta_defs, meta@[m].id, k)
                            ==> (match meta_defs[k].1 {
                            MetadataKind::Fn { .. } => if crate::sig::is_void_formatter_sig(
                                sig_view(sig),
                            ) {
                                fc.contains(u)
                            } else {
                                meta_caller_in(mc, meta@[m].id, u)
                            },
                            MetadataKind::Group { .. } => true,
                            _ => meta_caller_in(mc, meta@[m].id, u),
                        })
            } else {
                if sig.inputs@.len() > 0 && crate::sig::type_view(sig.inputs@[0]) is Erased {
                    bucket_caller_in(b.dynamics@, sig_view(sig), u)
                } else {
                    bucket_caller_in(b.indirects@, sig_view(sig), u)
                }
            }),
        _ => true,
    }
}

/// A queued indirect call stays queued while the tables only grow.
proof fn lemma_indirect_queued_stable(
    b1: Builder,
    b2: Builder,
    mc1: Seq<(u64, Vec<usize>)>,
    mc2: Seq<(u64, Vec<usize>)>,
    fc1: Seq<usize>,
    fc2: Seq<usize>,
    meta_defs: Seq<(u64, MetadataKind)>,
    has_call_metadata: bool,
    defines: Seq<Define>,
    d: int,
    st: int,
)
    requires
        indirect_queued(b1, mc1, fc1, meta_defs, has_call_metadata, defines, d, st),
        b1.aliases == b2.aliases,
        b1.indices@.len() <= b2.indices@.len(),
        forall|y: int| 0 <= y < b1.indices@.len() ==> b2.indices@[y] == #[trigger] b1.indices@[y],
        forall|sv: crate::sig::SigV, u: usize| #[trigger] bucket_caller_in(b1.indirects@, sv, u)
            ==> bucket_caller_in(b2.indirects@, sv, u),
        forall|sv: crate::sig::SigV, u: usize| #[trigger] bucket_caller_in(b1.dynamics@, sv, u)
            ==> bucket_caller_in(b2.dynamics@, sv, u),
        forall|id: u64, u: usize| #[trigger] meta_caller_in(mc1, id, u) ==> meta_caller_in(
            mc2,
            id,
            u,
        ),
        fc1.len() <= fc2.len(),
        forall|y: int| 0 <= y < fc1.len() ==> fc2[y] == #[trigger] fc1[y],
    ensures
        indirect_queued(b2, mc2, fc2, meta_defs, has_call_metadata, defines, d, st),
{
    match defines[d].stmts@[st] {
        Stmt::IndirectCall(sig, meta) => {
            let u = choose|u: usize|
                #[trigger] resolved_node(b1, defines[d].name@, u) && (if has_call_metadata {
                    forall|m: int|
                        #[trigger] first_rust_at(meta@, m) ==> forall|k: int|
                            #[trigger] first_id_at(meta_defs, meta@[m].id, k)
                                ==> (match meta_defs[k].1 {
                                MetadataKind::Fn { .. } => if crate::sig::is_void_formatter_sig(
                                    sig_view(sig),
                                ) {
                                    fc1.contains(u)
                                } else {
                                    meta_caller_in(mc1, meta@[m].id, u)
                                },
                                MetadataKind::Group { .. } => true,
                                _ => meta_caller_in(mc1, meta@[m].id, u),
                            })
                } else {
                    if sig.inputs@.len() > 0 && crate::sig::type_view(sig.inputs@[0])
                        is Erased {
                        bucket_caller_in(b1.dynamics@, sig_view(sig), u)
                    } else {
                        bucket_caller_in(b1.indirects@, sig_view(sig), u)
                    }
                });
            lemma_resolved_stable(b1, b2, defines[d].name@, u);
            if has_call_metadata {
                assert forall|m: int|
                    #[trigger] first_rust_at(meta@, m) implies forall|k: int|
                    #[trigger] first_id_at(meta_defs, meta@[m].id, k)
                        ==> (match meta_defs[k].1 {
                        MetadataKind::Fn { .. } => if crate::sig::is_void_formatter_sig(
                            sig_view(sig),
                        ) {
                            fc2.contains(u)
                        } else {
                            meta_caller_in(mc2, meta@[m].id, u)
                        },
                        MetadataKind::Group { .. } => true,
                        _ => meta_caller_in(mc2, meta@[m].id, u),
                    }) by {
                    assert forall|k: int|
                        #[trigger] first_id_at(meta_defs, meta@[m].id, k)
                            implies (match meta_defs[k].1 {
                        MetadataKind::Fn { .. } => if crate::sig::is_void_formatter_sig(
                            sig_view(sig),
                        ) {
                            fc2.contains(u)
                        } else {
                            meta_caller_in(mc2, meta@[m].id, u)
                        },
                        MetadataKind::Group { .. } => true,
                        _ => meta_caller_in(mc2, meta@[m].id, u),
                    }) by {
                        match meta_defs[k].1 {
                            MetadataKind::Fn { .. } => {
                                if crate::sig::is_void_formatter_sig(sig_view(sig)) {
                                    let y = choose|y: int| 0 <= y < fc1.len() && fc1[y] == u;
                                    assert(fc2[y] == u);
                                }
                            }
                            _ => {}
                        }
                    }
                }
            }
            assert(resolved_node(b2, defines[d].name@, u));
        }
        _ => {}
    }
}

/// A resolution survives appending to the index.
proof fn lemma_resolved_stable(b1: Builder, b2: Builder, n: Seq<char>, x: usize)
    requires
        resolved_node(b1, n, x),
        b1.aliases == b2.aliases,
        b1.indices@.len() <= b2.indices@.len(),
        forall|y: int| 0 <= y < b1.indices@.len() ==> b2.indices@[y] == #[trigger] b1.indices@[y],
    ensures
        resolved_node(b2, n, x),
{
    let (a, k) = choose|a: int, k: int|
        #![trigger first_key_at(b1.aliases@, n, a), first_key_at(b1.indices@, b1.aliases@[a].1@, k)]
        first_key_at(b1.aliases@, n, a) && first_key_at(b1.indices@, b1.aliases@[a].1@, k) && x
            == b1.indices@[k].1;
    assert(first_key_at(b2.aliases@, n, a));
    assert(first_key_at(b2.indices@, b2.aliases@[a].1@, k)) by {
        assert(b2.indices@[k] == b1.indices@[k]);
        assert forall|j: int| 0 <= j < k implies (#[trigger] b2.indices@[j]).0@
            != b2.aliases@[a].1@ by {
            assert(b2.indices@[j] == b1.indices@[j]);
        }
    }
    assert(b2.indices@[k].1 == x);
}

/// A plain direct-call edge survives growth of the index and the edge
/// list.
proof fn lemma_plain_edges_stable(b1: Builder, b2: Builder, defines: Seq<Define>, d: int, st: int)
    requires
        plain_direct_call_edge(b1, defines, d, st),
        b1.aliases == b2.aliases,
        b1.indices@.len() <= b2.indices@.len(),
        forall|y: int| 0 <= y < b1.indices@.len() ==> b2.indices@[y] == #[trigger] b1.indices@[y],
        b1.graph.edges@.len() <= b2.graph.edges@.len(),
        forall|e: int| 0 <= e < b1.graph.edges@.len() ==> b2.graph.edges@[e]
            == #[trigger] b1.graph.edges@[e],
    ensures
        plain_direct_call_edge(b2, defines, d, st),
{
    match defines[d].stmts@[st] {
        Stmt::DirectCall(f) => {
            if !intrinsic_call_name(f@) && has_key(b2.aliases@, f@) {
                assert(direct_edge_ok(b1, defines[d].name@, f@));
                let (u, v) = choose|u: usize, v: usize|
                    #![trigger resolved_node(b1, defines[d].name@, u), resolved_node(b1, f@, v)]
                    resolved_node(b1, defines[d].name@, u) && resolved_node(b1, f@, v)
                        && spec_has_edge(b1.graph.edges@, u, v);
                lemma_resolved_stable(b1, b2, defines[d].name@, u);
                lemma_resolved_stable(b1, b2, f@, v);
                lemma_has_edge_extend(b1.graph.edges@, b2.graph.edges@, u, v);
                assert(direct_edge_ok(b2, defines[d].name@, f@));
            }
        }
        _ => {}
    }
}

/// The reference at `m` is the first `rust` metadata reference.
pub open spec fn first_rust_at(meta: Seq<crate::ir::MetaRef>, m: int) -> bool {
    0 <= m < meta.len() && meta[m].kind@ == "rust"@ && forall|m2: int|
        0 <= m2 < m ==> (#[trigger] meta[m2]).kind@ != "rust"@
}

/// The name stands among the undefined symbols.
pub open spec fn in_undefined(undefined: Seq<String>, f: Seq<char>) -> bool {
    exists|i: int| 0 <= i < undefined.len() && (#[trigger] undefined[i])@ == f
}

/// The metadata id is missing or registers a union, which a call site
/// must not reference directly.
pub open spec fn bad_call_meta(meta_defs: Seq<(u64, MetadataKind)>, id: u64) -> bool {
    ||| !has_id(meta_defs, id)
    ||| forall|k: int| #[trigger] first_id_at(meta_defs, id, k) ==> meta_defs[k].1 is Group
}

/// The statement makes the edge phase fail: a nameless bitcast call, an
/// intrinsic it does not understand, a direct call that is neither
/// defined nor declared undefined, or (in the metadata mode) an indirect
/// call without a usable `rust` id.
pub open spec fn stmt_fatal(
    aliases: Seq<(String, String)>,
    undefined: Seq<String>,
    thumb: bool,
    has_call_metadata: bool,
    meta_defs: Seq<(u64, MetadataKind)>,
    stmt: Stmt,
) -> bool {
    match stmt {
        Stmt::BitcastCall(sym) => sym is None,
        Stmt::DirectCall(f) => {
            if f@ == "llvm.dbg.value"@ || f@ == "llvm.dbg.declare"@ || f@ == "llvm.assume"@
                || f@ == "llvm.trap"@ || crate::chars::is_prefix("llvm.lifetime.start"@, f@)
                || crate::chars::is_prefix("llvm.lifetime.end"@, f@) {
                false
            } else if thumb && crate::chars::is_prefix("llvm."@, f@) {
                false
            } else if crate::chars::is_prefix("llvm.memcpy."@, f@) || crate::chars::is_prefix(
                "llvm.memset."@,
                f@,
            ) || crate::chars::is_prefix("llvm.memmove."@, f@) {
                false
            } else if crate::chars::is_prefix("llvm.bswap."@, f@) || crate::chars::is_prefix(
                "llvm.ctlz."@,
                f@,
            ) || crate::chars::is_prefix("llvm.uadd.with.overflow."@, f@)
                || crate::chars::is_prefix("llvm.umul.with.overflow."@, f@)
                || crate::chars::is_prefix("llvm.usub.with.overflow."@, f@) {
                false
            } else if crate::chars::is_prefix("llvm."@, f@) {
                true
            } else {
                !has_key(aliases, f@) && !in_undefined(undefined, f@)
            }
        }
        Stmt::IndirectCall(_, meta) => has_call_metadata && (!(exists|m: int|
            #[trigger] first_rust_at(meta@, m)) || (forall|m: int|
            #[trigger] first_rust_at(meta@, m) ==> bad_call_meta(meta_defs, meta@[m].id))),
        _ => false,
    }
}

/// The definition survived linking and holds a fatal statement.
pub open spec fn define_fatal(
    aliases: Seq<(String, String)>,
    undefined: Seq<String>,
    thumb: bool,
    has_call_metadata: bool,
    meta_defs: Seq<(u64, MetadataKind)>,
    def: Define,
) -> bool {
    has_key(aliases, def.name@) && exists|st: int|
        0 <= st < def.stmts@.len() && stmt_fatal(
            aliases,
            undefined,
            thumb,
            has_call_metadata,
            meta_defs,
            #[trigger] def.stmts@[st],
        )
}

/// Two first `rust` references coincide.
proof fn lemma_first_rust_unique(meta: Seq<crate::ir::MetaRef>, m1: int, m2: int)
    requires
        first_rust_at(meta, m1),
        first_rust_at(meta, m2),
    ensures
        m1 == m2,
{
    if m1 < m2 {
        assert(meta[m1].kind@ != "rust"@);
    } else if m2 < m1 {
        assert(meta[m2].kind@ != "rust"@);
    }
}

/// The names of the definitions that survived linking, in definition
/// order.
pub open spec fn surviving_names(defines: Seq<Define>, aliases: Seq<(String, String)>) -> Seq<
    Seq<char>,
>
    decreases defines,
{
    if defines.len() == 0 {
        Seq::empty()
    } else {
        let init = surviving_names(defines.drop_last(), aliases);
        if has_key(aliases, defines.last().name@) {
            init.push(defines.last().name@)
        } else {
            init
        }
    }
}

/// An edge survives any extension of the edge list.
proof fn lemma_has_edge_extend(e1: Seq<(usize, usize)>, e2: Seq<(usize, usize)>, a: usize, b: usize)
    requires
        e1.len() <= e2.len(),
        forall|x: int| 0 <= x < e1.len() ==> e2[x] == #[trigger] e1[x],
        spec_has_edge(e1, a, b),
    ensures
        spec_has_edge(e2, a, b),
{
    let e = choose|e: int| 0 <= e < e1.len() && #[trigger] e1[e] == (a, b);
    assert(e2[e] == (a, b));
}

/// A synthetic dispatch node for the given callers: dashed, wired from
/// every caller.
pub open spec fn dispatch_node_ok(g: Graph, callers: Seq<usize>, s: int) -> bool {
    &&& 0 <= s < g.nodes@.len()
    &&& g.nodes@[s].dashed
    &&& forall|j: int| 0 <= j < callers.len() ==> spec_has_edge(
        g.edges@,
        #[trigger] callers[j],
        s as usize,
    )
}

/// A synthetic dispatch node carrying the given display name, wired
/// from every caller and into every callee.
pub open spec fn dispatch_full_ok(
    g: Graph,
    name: Seq<char>,
    callers: Seq<usize>,
    callees: Seq<usize>,
    s: int,
) -> bool {
    &&& dispatch_node_ok(g, callers, s)
    &&& g.nodes@[s].name@ == name
    &&& forall|j: int| 0 <= j < callees.len() ==> spec_has_edge(
        g.edges@,
        s as usize,
        #[trigger] callees[j],
    )
}

/// The nodes a name list resolves to, unresolvable names dropped.
pub open spec fn resolved_seq(indices: Seq<(String, usize)>, names: Seq<String>) -> Seq<usize>
    decreases names,
{
    if names.len() == 0 {
        Seq::empty()
    } else {
        let init = resolved_seq(indices, names.drop_last());
        if has_key(indices, names.last()@) {
            init.push(indices[choose|k: int| first_key_at(indices, names.last()@, k)].1)
        } else {
            init
        }
    }
}

/// The callees the first group entry under an id resolves to.
pub open spec fn group_callees(
    indices: Seq<(String, usize)>,
    groups: Seq<(u64, Vec<String>)>,
    id: u64,
) -> Seq<usize> {
    if exists|g: int| #[trigger] first_id_at(groups, id, g) {
        resolved_seq(indices, groups[choose|g: int| #[trigger] first_id_at(groups, id, g)].1@)
    } else {
        Seq::empty()
    }
}

/// An edge runs from `s` to an unknown-callee sentinel node.
pub open spec fn sentinel_wired(g: Graph, s: int) -> bool {
    exists|q: usize| (q as int) < g.nodes@.len() && (#[trigger] g.nodes@[q as int]).name@
        == "?"@ && spec_has_edge(g.edges@, s as usize, q)
}

/// A sentinel edge survives any growth of the graph.
proof fn lemma_sentinel_preserved(g1: Graph, g2: Graph, s: int)
    requires
        g1.nodes@.len() <= g2.nodes@.len(),
        forall|x: int| 0 <= x < g1.nodes@.len() ==> g2.nodes@[x] == #[trigger] g1.nodes@[x],
        g1.edges@.len() <= g2.edges@.len(),
        forall|x: int| 0 <= x < g1.edges@.len() ==> g2.edges@[x] == #[trigger] g1.edges@[x],
        sentinel_wired(g1, s),
    ensures
        sentinel_wired(g2, s),
{
    let q = choose|q: usize|
        (q as int) < g1.nodes@.len() && (#[trigger] g1.nodes@[q as int]).name@ == "?"@
            && spec_has_edge(g1.edges@, s as usize, q);
    lemma_has_edge_extend(g1.edges@, g2.edges@, s as usize, q);
    assert((q as int) < g2.nodes@.len() && g2.nodes@[q as int].name@ == "?"@);
}

/// A given dispatch node survives any growth of the graph.
proof fn lemma_dispatch_at_preserved(
    g1: Graph,
    g2: Graph,
    name: Seq<char>,
    callers: Seq<usize>,
    callees: Seq<usize>,
    s: int,
)
    requires
        g1.nodes@.len() <= g2.nodes@.len(),
        forall|x: int| 0 <= x < g1.nodes@.len() ==> g2.nodes@[x] == #[trigger] g1.nodes@[x],
        g1.edges@.len() <= g2.edges@.len(),
        forall|x: int| 0 <= x < g1.edges@.len() ==> g2.edges@[x] == #[trigger] g1.edges@[x],
        dispatch_full_ok(g1, name, callers, callees, s),
    ensures
        dispatch_full_ok(g2, name, callers, callees, s),
{
    assert forall|j: int|
        0 <= j < callers.len() implies spec_has_edge(
        g2.edges@,
        #[trigger] callers[j],
        s as usize,
    ) by {
        lemma_has_edge_extend(g1.edges@, g2.edges@, callers[j], s as usize);
    }
    assert forall|j: int|
        0 <= j < callees.len() implies spec_has_edge(
        g2.edges@,
        s as usize,
        #[trigger] callees[j],
    ) by {
        lemma_has_edge_extend(g1.edges@, g2.edges@, s as usize, callees[j]);
    }
}

/// One queued metadata id got its synthetic node: named by its shape,
/// wired from the id's callers and into the id's resolved group
/// callees, with the unknown-callee sentinel attached when the group is
/// missing or (for a call-site shape) non-source symbols exist.
pub open spec fn meta_node_expanded(
    g: Graph,
    indices: Seq<(String, usize)>,
    groups: Seq<(u64, Vec<String>)>,
    has_non_rust: bool,
    id: u64,
    callers: Seq<usize>,
    kind: MetadataKind,
) -> bool {
    match kind {
        MetadataKind::Fn { sig_name } => exists|s: int|
            #[trigger] dispatch_full_ok(
                g,
                sig_name@,
                callers,
                group_callees(indices, groups, id),
                s,
            ) && ((!has_id(groups, id) || has_non_rust) ==> sentinel_wired(g, s)),
        MetadataKind::Dyn { trait_name, method } => exists|s: int|
            #[trigger] dispatch_full_ok(
                g,
                "(dyn "@ + trait_name@ + ")."@ + method@,
                callers,
                group_callees(indices, groups, id),
                s,
            ) && (!has_id(groups, id) ==> sentinel_wired(g, s)),
        MetadataKind::Drop { trait_name } => exists|s: int|
            #[trigger] dispatch_full_ok(
                g,
                "drop(dyn "@ + trait_name@ + ")"@,
                callers,
                group_callees(indices, groups, id),
                s,
            ) && (!has_id(groups, id) ==> sentinel_wired(g, s)),
        _ => true,
    }
}

/// An expanded metadata node survives any growth of the graph.
proof fn lemma_meta_node_preserved(
    g1: Graph,
    g2: Graph,
    indices: Seq<(String, usize)>,
    groups: Seq<(u64, Vec<String>)>,
    has_non_rust: bool,
    id: u64,
    callers: Seq<usize>,
    kind: MetadataKind,
)
    requires
        g1.nodes@.len() <= g2.nodes@.len(),
        forall|x: int| 0 <= x < g1.nodes@.len() ==> g2.nodes@[x] == #[trigger] g1.nodes@[x],
        g1.edges@.len() <= g2.edges@.len(),
        forall|x: int| 0 <= x < g1.edges@.len() ==> g2.edges@[x] == #[trigger] g1.edges@[x],
        meta_node_expanded(g1, indices, groups, has_non_rust, id, callers, kind),
    ensures
        meta_node_expanded(g2, indices, groups, has_non_rust, id, callers, kind),
{
    let gc = group_callees(indices, groups, id);
    match kind {
        MetadataKind::Fn { sig_name } => {
            let s = choose|s: int|
                #[trigger] dispatch_full_ok(g1, sig_name@, callers, gc, s) && ((!has_id(
                    groups,
                    id,
                ) || has_non_rust) ==> sentinel_wired(g1, s));
            lemma_dispatch_at_preserved(g1, g2, sig_name@, callers, gc, s);
            if !has_id(groups, id) || has_non_rust {
                lemma_sentinel_preserved(g1, g2, s);
            }
        }
        MetadataKind::Dyn { trait_name, method } => {
            let nm = "(dyn "@ + trait_name@ + ")."@ + method@;
            let s = choose|s: int|
                #[trigger] dispatch_full_ok(g1, nm, callers, gc, s) && (!has_id(groups, id)
                    ==> sentinel_wired(g1, s));
            lemma_dispatch_at_preserved(g1, g2, nm, callers, gc, s);
            if !has_id(groups, id) {
                lemma_sentinel_preserved(g1, g2, s);
            }
        }
        MetadataKind::Drop { trait_name } => {
            let nm = "drop(dyn "@ + trait_name@ + ")"@;
            let s = choose|s: int|
                #[trigger] dispatch_full_ok(g1, nm, callers, gc, s) && (!has_id(groups, id)
                    ==> sentinel_wired(g1, s));
            lemma_dispatch_at_preserved(g1, g2, nm, callers, gc, s);
            if !has_id(groups, id) {
                lemma_sentinel_preserved(g1, g2, s);
            }
        }
        _ => {}
    }
}

/// A dispatch node survives any growth of the graph.
proof fn lemma_dispatch_preserved(
    g1: Graph,
    g2: Graph,
    name: Seq<char>,
    callers: Seq<usize>,
    callees: Seq<usize>,
)
    requires
        g1.nodes@.len() <= g2.nodes@.len(),
        forall|x: int| 0 <= x < g1.nodes@.len() ==> g2.nodes@[x] == #[trigger] g1.nodes@[x],
        g1.edges@.len() <= g2.edges@.len(),
        forall|x: int| 0 <= x < g1.edges@.len() ==> g2.edges@[x] == #[trigger] g1.edges@[x],
    ensures
        (exists|s: int| dispatch_node_ok(g1, callers, s)) ==> (exists|s: int|
            dispatch_node_ok(g2, callers, s)),
        (exists|s: int| dispatch_full_ok(g1, name, callers, callees, s)) ==> (exists|s: int|
            dispatch_full_ok(g2, name, callers, callees, s)),
{
    if exists|s: int| dispatch_node_ok(g1, callers, s) {
        let s = choose|s: int| dispatch_node_ok(g1, callers, s);
        assert(dispatch_node_ok(g2, callers, s)) by {
            assert forall|j: int|
                0 <= j < callers.len() implies spec_has_edge(
                g2.edges@,
                #[trigger] callers[j],
                s as usize,
            ) by {
                lemma_has_edge_extend(g1.edges@, g2.edges@, callers[j], s as usize);
            }
        }
    }
    if exists|s: int| dispatch_full_ok(g1, name, callers, callees, s) {
        let s = choose|s: int| dispatch_full_ok(g1, name, callers, callees, s);
        assert(dispatch_full_ok(g2, name, callers, callees, s)) by {
            assert forall|j: int|
                0 <= j < callers.len() implies spec_has_edge(
                g2.edges@,
                #[trigger] callers[j],
                s as usize,
            ) by {
                lemma_has_edge_extend(g1.edges@, g2.edges@, callers[j], s as usize);
            }
            assert forall|j: int|
                0 <= j < callees.len() implies spec_has_edge(
                g2.edges@,
                s as usize,
                #[trigger] callees[j],
            ) by {
                lemma_has_edge_extend(g1.edges@, g2.edges@, s as usize, callees[j]);
            }
        }
    }
}

/// One function's worth of machine-code evidence, keyed by address.
pub struct MachineRecord {
    pub address: u64,
    pub size: u64,
    pub summary: crate::machine::MachineSummary,
}

impl Builder {
    /// Replaces one node's frame size, keeping everything else.
    fn set_local(&mut self, idx: usize, local: Local)
        requires
            old(self).wf(),
            idx < old(self).graph.nodes@.len(),
            old(self).graph.nodes@[idx as int].dashed ==> local == Local::Exact(0u64),
        ensures
            final(self).wf(),
            final(self).graph.nodes@.len() == old(self).graph.nodes@.len(),
            final(self).graph.edges@ == old(self).graph.edges@,
            final(self).indices == old(self).indices,
            final(self).aliases == old(self).aliases,
            final(self).addr2name == old(self).addr2name,
            final(self).warnings == old(self).warnings,
            final(self).graph.nodes@[idx as int].local == local,
            final(self).graph.nodes@[idx as int].name@ == old(self).graph.nodes@[
                idx as int].name@,
            final(self).graph.nodes@[idx as int].max == old(self).graph.nodes@[idx as int].max,
            final(self).graph.nodes@[idx as int].dashed == old(self).graph.nodes@[
                idx as int].dashed,
            forall|i: int|
                0 <= i < old(self).graph.nodes@.len() && i != idx as int ==> final(self).graph.nodes@[i] == old(self).graph.nodes@[i],
    {
        let nd = Node {
            name: self.graph.nodes[idx].name.clone(),
            local,
            max: self.graph.nodes[idx].max,
            dashed: self.graph.nodes[idx].dashed,
        };
        self.graph.nodes[idx] = nd;
    }

    /// The address resolves through its first address-map entry and
    /// that canonical name's first index entry to node `x`.
    pub open spec fn spec_record_target(
        addr2name: Seq<(u64, String)>,
        indices: Seq<(String, usize)>,
        addr: u64,
        x: usize,
    ) -> bool {
        exists|i: int, k: int|
            #![trigger first_id_at(addr2name, addr, i), first_key_at(indices, addr2name[i].1@, k)]
            first_id_at(addr2name, addr, i) && first_key_at(indices, addr2name[i].1@, k) && x
                == indices[k].1
    }

    /// Exactly record `ri` addresses node `x`.
    pub open spec fn spec_sole_target(
        addr2name: Seq<(u64, String)>,
        indices: Seq<(String, usize)>,
        records: Seq<MachineRecord>,
        ri: int,
        x: usize,
    ) -> bool {
        &&& 0 <= ri < records.len()
        &&& Builder::spec_record_target(addr2name, indices, records[ri].address, x)
        &&& forall|rj: int|
            0 <= rj < records.len() && rj != ri ==> !Builder::spec_record_target(
                addr2name,
                indices,
                (#[trigger] records[rj]).address,
                x,
            )
    }

    /// Some record before `upto` addresses the solid node `v`.
    pub open spec fn spec_written_by(
        addr2name: Seq<(u64, String)>,
        indices: Seq<(String, usize)>,
        nodes0: Seq<Node>,
        records: Seq<MachineRecord>,
        upto: int,
        v: usize,
    ) -> bool {
        exists|ri: int|
            0 <= ri < upto && Builder::spec_record_target(
                addr2name,
                indices,
                (#[trigger] records[ri]).address,
                v,
            ) && (v as int) < nodes0.len() && !nodes0[v as int].dashed
    }

    /// A node is addressed by at most one way.
    proof fn lemma_record_target_unique(
        addr2name: Seq<(u64, String)>,
        indices: Seq<(String, usize)>,
        addr: u64,
        x1: usize,
        x2: usize,
    )
        requires
            Builder::spec_record_target(addr2name, indices, addr, x1),
            Builder::spec_record_target(addr2name, indices, addr, x2),
        ensures
            x1 == x2,
    {
        let (i1, k1) = choose|i: int, k: int|
            #![trigger first_id_at(addr2name, addr, i), first_key_at(indices, addr2name[i].1@, k)]
            first_id_at(addr2name, addr, i) && first_key_at(indices, addr2name[i].1@, k) && x1
                == indices[k].1;
        let (i2, k2) = choose|i: int, k: int|
            #![trigger first_id_at(addr2name, addr, i), first_key_at(indices, addr2name[i].1@, k)]
            first_id_at(addr2name, addr, i) && first_key_at(indices, addr2name[i].1@, k) && x2
                == indices[k].1;
        lemma_first_id_unique(addr2name, addr, i1, i2);
        lemma_first_key_unique(indices, addr2name[i1].1@, k1, k2);
    }

    /// Phase D: reconciles every function's frame with the machine-code
    /// evidence, resolves branch targets through the address map, and
    /// accounts for unresolvable register-indirect branches.  A node
    /// addressed by exactly one record ends with the reconciled frame,
    /// and an accepted run never saw such a node's measurements
    /// contradict each other.
    pub fn refine_with_machine_code(
        &mut self,
        records: &Vec<MachineRecord>,
        ir_defined: &Vec<String>,
    ) -> (r: Result<(), BuildError>)
        requires
            old(self).wf(),
        ensures
            final(self).wf(),
            old(self).graph.nodes@.len() <= final(self).graph.nodes@.len(),
            final(self).addr2name == old(self).addr2name,
            final(self).indices == old(self).indices,
            final(self).aliases == old(self).aliases,
            forall|v: int|
                0 <= v < old(self).graph.nodes@.len() ==> {
                    let pre = old(self).graph.nodes@[v];
                    let post = (#[trigger] final(self).graph.nodes@[v]);
                    post.name@ == pre.name@ && post.max == pre.max && post.dashed == pre.dashed
                },
            r is Ok ==> forall|ri: int, x: usize|
                #[trigger] Builder::spec_sole_target(
                    old(self).addr2name@,
                    old(self).indices@,
                    records@,
                    ri,
                    x,
                ) && (x as int) < old(self).graph.nodes@.len() && !old(self).graph.nodes@[
                x as int].dashed ==> crate::machine::spec_reconcile(
                    old(self).graph.nodes@[x as int].local,
                    records@[ri].summary.modifies_sp,
                    records@[ri].summary.local,
                ) is Ok && final(self).graph.nodes@[x as int].local
                    == crate::machine::spec_reconcile(
                    old(self).graph.nodes@[x as int].local,
                    records@[ri].summary.modifies_sp,
                    records@[ri].summary.local,
                )->Ok_0.local,
            (exists|ri: int, x: usize|
                #[trigger] Builder::spec_sole_target(
                    old(self).addr2name@,
                    old(self).indices@,
                    records@,
                    ri,
                    x,
                ) && (x as int) < old(self).graph.nodes@.len() && !old(self).graph.nodes@[
                x as int].dashed && crate::machine::spec_reconcile(
                    old(self).graph.nodes@[x as int].local,
                    records@[ri].summary.modifies_sp,
                    records@[ri].summary.local,
                ) is Err) ==> r is Err,
    {
        let ghost a2n0 = old(self).addr2name@;
        let ghost idx0 = old(self).indices@;
        let ghost nodes0 = old(self).graph.nodes@;
        let nr = records.len();
        let mut ri: usize = 0;
        while ri < nr
            invariant
                ri <= nr,
                nr == records@.len(),
                self.wf(),
                a2n0 == old(self).addr2name@,
                idx0 == old(self).indices@,
                nodes0 == old(self).graph.nodes@,
                self.addr2name == old(self).addr2name,
                self.indices == old(self).indices,
                self.aliases == old(self).aliases,
                nodes0.len() <= self.graph.nodes@.len(),
                forall|v: int|
                    0 <= v < nodes0.len() ==> {
                        let pre = nodes0[v];
                        let post = (#[trigger] self.graph.nodes@[v]);
                        post.name@ == pre.name@ && post.max == pre.max && post.dashed
                            == pre.dashed
                    },
                forall|v: usize|
                    (v as int) < nodes0.len() && !Builder::spec_written_by(
                        a2n0,
                        idx0,
                        nodes0,
                        records@,
                        ri as int,
                        v,
                    ) ==> (#[trigger] self.graph.nodes@[v as int]).local
                        == nodes0[v as int].local,
                forall|ri2: int, x: usize|
                    0 <= ri2 < ri && #[trigger] Builder::spec_sole_target(
                        a2n0,
                        idx0,
                        records@,
                        ri2,
                        x,
                    ) && (x as int) < nodes0.len() && !nodes0[x as int].dashed
                        ==> crate::machine::spec_reconcile(
                        nodes0[x as int].local,
                        records@[ri2].summary.modifies_sp,
                        records@[ri2].summary.local,
                    ) is Ok && self.graph.nodes@[x as int].local
                        == crate::machine::spec_reconcile(
                        nodes0[x as int].local,
                        records@[ri2].summary.modifies_sp,
                        records@[ri2].summary.local,
                    )->Ok_0.local,
            decreases nr - ri,
        {
            let address = records[ri].address;
            let caller = match self.node_at_address(address) {
                Some(c) => c,
                None => {
                    proof {
                        assert forall|x: usize|
                            !Builder::spec_record_target(a2n0, idx0, address, x) by {
                            if Builder::spec_record_target(a2n0, idx0, address, x) {
                                let (i, k) = choose|i: int, k: int|
                                    #![trigger first_id_at(a2n0, address, i), first_key_at(idx0, a2n0[i].1@, k)]
                                    first_id_at(a2n0, address, i) && first_key_at(
                                        idx0,
                                        a2n0[i].1@,
                                        k,
                                    ) && x == idx0[k].1;
                                assert(has_key(idx0, a2n0[i].1@));
                            }
                        }
                        assert forall|ri2: int, x: usize|
                            0 <= ri2 < ri + 1 && #[trigger] Builder::spec_sole_target(
                                a2n0,
                                idx0,
                                records@,
                                ri2,
                                x,
                            ) && (x as int) < nodes0.len() && !nodes0[x as int].dashed
                                implies crate::machine::spec_reconcile(
                            nodes0[x as int].local,
                            records@[ri2].summary.modifies_sp,
                            records@[ri2].summary.local,
                        ) is Ok && self.graph.nodes@[x as int].local
                            == crate::machine::spec_reconcile(
                            nodes0[x as int].local,
                            records@[ri2].summary.modifies_sp,
                            records@[ri2].summary.local,
                        )->Ok_0.local by {
                            if ri2 == ri as int {
                                assert(!Builder::spec_record_target(
                                    a2n0,
                                    idx0,
                                    records@[ri2].address,
                                    x,
                                ));
                            }
                        }
                    }
                    ri = ri + 1;
                    continue ;
                }
            };
            proof {
                assert(Builder::spec_record_target(a2n0, idx0, address, caller)) by {
                    let i = choose|i: int| #[trigger] first_id_at(self.addr2name@, address, i);
                    assert(first_id_at(a2n0, address, i));
                    let k = choose|k: int|
                        #[trigger] first_key_at(self.indices@, self.addr2name@[i].1@, k)
                            && caller == self.indices@[k].1;
                    assert(first_key_at(idx0, a2n0[i].1@, k));
                }
            }
            let llvm = self.graph.nodes[caller].local;
            let dashed = self.graph.nodes[caller].dashed;
            let ghost nodes_pre_rec = self.graph.nodes@;
            if !dashed {
                let modifies_sp = records[ri].summary.modifies_sp;
                let our = records[ri].summary.local;
                match crate::machine::reconcile_local(llvm, modifies_sp, our) {
                    Err(cv) => {
                        return Err(
                            BuildError::Consistency(cv, self.graph.nodes[caller].name.clone()),
                        );
                    }
                    Ok(rec) => {
                        if rec.overrode {
                            self.warnings.push(
                                Warning::OverrodeCompilerStack(
                                    self.graph.nodes[caller].name.clone(),
                                ),
                            );
                        }
                        let is_unknown = match rec.local {
                            Local::Unknown => true,
                            Local::Exact(_) => false,
                        };
                        if is_unknown {
                            self.warnings.push(
                                Warning::NoStackInfo(self.graph.nodes[caller].name.clone()),
                            );
                        }
                        self.set_local(caller, rec.local);
                    }
                }
            }
            proof {
                assert forall|v: int|
                    0 <= v < nodes0.len() implies {
                    let pre = nodes0[v];
                    let post = (#[trigger] self.graph.nodes@[v]);
                    post.name@ == pre.name@ && post.max == pre.max && post.dashed == pre.dashed
                } by {
                    if v != caller as int {
                        assert(self.graph.nodes@[v] == nodes_pre_rec[v]);
                    } else {
                        assert(self.graph.nodes@[v].name@ == nodes_pre_rec[v].name@);
                        assert(self.graph.nodes@[v].max == nodes_pre_rec[v].max);
                        assert(self.graph.nodes@[v].dashed == nodes_pre_rec[v].dashed);
                    }
                    assert(nodes_pre_rec[v].name@ == nodes0[v].name@ && nodes_pre_rec[v].max
                        == nodes0[v].max && nodes_pre_rec[v].dashed == nodes0[v].dashed);
                }
                assert forall|ri2: int, x: usize|
                    0 <= ri2 < ri + 1 && #[trigger] Builder::spec_sole_target(
                        a2n0,
                        idx0,
                        records@,
                        ri2,
                        x,
                    ) && (x as int) < nodes0.len() && !nodes0[x as int].dashed
                        implies crate::machine::spec_reconcile(
                    nodes0[x as int].local,
                    records@[ri2].summary.modifies_sp,
                    records@[ri2].summary.local,
                ) is Ok && self.graph.nodes@[x as int].local
                    == crate::machine::spec_reconcile(
                    nodes0[x as int].local,
                    records@[ri2].summary.modifies_sp,
                    records@[ri2].summary.local,
                )->Ok_0.local by {
                    if ri2 == ri as int {
                        Builder::lemma_record_target_unique(a2n0, idx0, address, x, caller);
                        assert(x == caller);
                        assert(!dashed);
                        assert(!Builder::spec_written_by(
                            a2n0,
                            idx0,
                            nodes0,
                            records@,
                            ri as int,
                            caller,
                        )) by {
                            if Builder::spec_written_by(
                                a2n0,
                                idx0,
                                nodes0,
                                records@,
                                ri as int,
                                caller,
                            ) {
                                let rj = choose|rj: int|
                                    0 <= rj < ri && Builder::spec_record_target(
                                        a2n0,
                                        idx0,
                                        (#[trigger] records@[rj]).address,
                                        caller,
                                    ) && (caller as int) < nodes0.len() && !nodes0[
                                    caller as int].dashed;
                                assert(rj != ri2);
                            }
                        }
                        assert(llvm == nodes0[caller as int].local);
                    } else {
                        if x == caller {
                            assert(!Builder::spec_record_target(
                                a2n0,
                                idx0,
                                records@[ri as int].address,
                                x,
                            ));
                            assert(false);
                        }
                    }
                }
                assert forall|v: usize|
                    (v as int) < nodes0.len() && !Builder::spec_written_by(
                        a2n0,
                        idx0,
                        nodes0,
                        records@,
                        ri + 1,
                        v,
                    ) implies (#[trigger] self.graph.nodes@[v as int]).local == nodes0[
                    v as int].local by {
                    if v != caller || dashed {
                        assert(!Builder::spec_written_by(
                            a2n0,
                            idx0,
                            nodes0,
                            records@,
                            ri as int,
                            v,
                        )) by {
                            if Builder::spec_written_by(
                                a2n0,
                                idx0,
                                nodes0,
                                records@,
                                ri as int,
                                v,
                            ) {
                                let rj = choose|rj: int|
                                    0 <= rj < ri && Builder::spec_record_target(
                                        a2n0,
                                        idx0,
                                        (#[trigger] records@[rj]).address,
                                        v,
                                    ) && (v as int) < nodes0.len() && !nodes0[v as int].dashed;
                                assert(Builder::spec_written_by(
                                    a2n0,
                                    idx0,
                                    nodes0,
                                    records@,
                                    ri + 1,
                                    v,
                                ));
                            }
                        }
                    } else {
                        assert(Builder::spec_written_by(
                            a2n0,
                            idx0,
                            nodes0,
                            records@,
                            ri + 1,
                            v,
                        ));
                    }
                }
            }
            // a register-indirect branch in a body the IR knows nothing
            // about calls an unknown function with unknown stack usage
            let known_to_ir = {
                let mut known = false;
                let cname = self.graph.nodes[caller].name.clone();
                let ghost b_known = *self;
                let ni = ir_defined.len();
                let mut i: usize = 0;
                while i < ni
                    invariant
                        i <= ni,
                        ni == ir_defined@.len(),
                        *self == b_known,
                        self.wf(),
                        caller < self.graph.nodes@.len(),
                    decreases ni - i,
                {
                    if str_eq(ir_defined[i].as_str(), cname.as_str()) {
                        known = true;
                    }
                    i = i + 1;
                }
                known
            };
            if !known_to_ir && records[ri].summary.indirect {
                self.warnings.push(
                    Warning::IndirectWithoutType(self.graph.nodes[caller].name.clone()),
                );
                let unknown = self.graph.add_node(
                    make_node(String::from_str("?"), None, false),
                );
                self.graph.add_edge(caller, unknown);
            }
            proof {
                assert forall|v: int|
                    0 <= v < nodes0.len() implies {
                    let pre = nodes0[v];
                    let post = (#[trigger] self.graph.nodes@[v]);
                    post.name@ == pre.name@ && post.max == pre.max && post.dashed == pre.dashed
                } by {}
            }
            // branch-and-link targets are calls
            let nb = records[ri].summary.bl_offsets.len();
            let mut bi: usize = 0;
            while bi < nb
                invariant
                    bi <= nb,
                    nb == records@[ri as int].summary.bl_offsets@.len(),
                    0 <= (ri as int) < records@.len(),
                    self.wf(),
                    caller < self.graph.nodes@.len(),
                    a2n0 == old(self).addr2name@,
                    idx0 == old(self).indices@,
                    nodes0 == old(self).graph.nodes@,
                    self.addr2name == old(self).addr2name,
                    self.indices == old(self).indices,
                    self.aliases == old(self).aliases,
                    nr == records@.len(),
                    ri < nr,
                    nodes0.len() <= self.graph.nodes@.len(),
                    forall|v: int|
                        0 <= v < nodes0.len() ==> {
                            let pre = nodes0[v];
                            let post = (#[trigger] self.graph.nodes@[v]);
                            post.name@ == pre.name@ && post.max == pre.max && post.dashed
                                == pre.dashed
                        },
                    forall|v: usize|
                        (v as int) < nodes0.len() && !Builder::spec_written_by(
                            a2n0,
                            idx0,
                            nodes0,
                            records@,
                            ri + 1,
                            v,
                        ) ==> (#[trigger] self.graph.nodes@[v as int]).local == nodes0[
                        v as int].local,
                    forall|ri2: int, x: usize|
                        0 <= ri2 < ri + 1 && #[trigger] Builder::spec_sole_target(
                            a2n0,
                            idx0,
                            records@,
                            ri2,
                            x,
                        ) && (x as int) < nodes0.len() && !nodes0[x as int].dashed
                            ==> crate::machine::spec_reconcile(
                            nodes0[x as int].local,
                            records@[ri2].summary.modifies_sp,
                            records@[ri2].summary.local,
                        ) is Ok && self.graph.nodes@[x as int].local
                            == crate::machine::spec_reconcile(
                            nodes0[x as int].local,
                            records@[ri2].summary.modifies_sp,
                            records@[ri2].summary.local,
                        )->Ok_0.local,
                decreases nb - bi,
            {
                let offset = records[ri].summary.bl_offsets[bi];
                let target = address as i128 + offset as i128;
                if target < 0 || target > u64::MAX as i128 {
                    return Err(BuildError::UnknownCallTarget(address));
                }
                let taddr = target as u64;
                match self.node_at_address(taddr) {
                    Some(callee) => {
                        self.add_edge_once(caller, callee);
                    }
                    None => {
                        return Err(BuildError::UnknownCallTarget(taddr));
                    }
                }
                bi = bi + 1;
            }
            // plain branches that leave the function are tail calls
            let size = records[ri].size;
            let nb2 = records[ri].summary.b_offsets.len();
            let mut bi: usize = 0;
            while bi < nb2
                invariant
                    bi <= nb2,
                    nb2 == records@[ri as int].summary.b_offsets@.len(),
                    0 <= (ri as int) < records@.len(),
                    self.wf(),
                    caller < self.graph.nodes@.len(),
                    a2n0 == old(self).addr2name@,
                    idx0 == old(self).indices@,
                    nodes0 == old(self).graph.nodes@,
                    self.addr2name == old(self).addr2name,
                    self.indices == old(self).indices,
                    self.aliases == old(self).aliases,
                    nr == records@.len(),
                    ri < nr,
                    nodes0.len() <= self.graph.nodes@.len(),
                    forall|v: int|
                        0 <= v < nodes0.len() ==> {
                            let pre = nodes0[v];
                            let post = (#[trigger] self.graph.nodes@[v]);
                            post.name@ == pre.name@ && post.max == pre.max && post.dashed
                                == pre.dashed
                        },
                    forall|v: usize|
                        (v as int) < nodes0.len() && !Builder::spec_written_by(
                            a2n0,
                            idx0,
                            nodes0,
                            records@,
                            ri + 1,
                            v,
                        ) ==> (#[trigger] self.graph.nodes@[v as int]).local == nodes0[
                        v as int].local,
                    forall|ri2: int, x: usize|
                        0 <= ri2 < ri + 1 && #[trigger] Builder::spec_sole_target(
                            a2n0,
                            idx0,
                            records@,
                            ri2,
                            x,
                        ) && (x as int) < nodes0.len() && !nodes0[x as int].dashed
                            ==> crate::machine::spec_reconcile(
                            nodes0[x as int].local,
                            records@[ri2].summary.modifies_sp,
                            records@[ri2].summary.local,
                        ) is Ok && self.graph.nodes@[x as int].local
                            == crate::machine::spec_reconcile(
                            nodes0[x as int].local,
                            records@[ri2].summary.modifies_sp,
                            records@[ri2].summary.local,
                        )->Ok_0.local,
                decreases nb2 - bi,
            {
                let offset = records[ri].summary.b_offsets[bi];
                let target = address as i128 + offset as i128;
                if target < 0 || target > u64::MAX as i128 {
                    return Err(BuildError::UnknownCallTarget(address));
                }
                let taddr = target as u64;
                let intra = taddr >= address && (address as i128 + size as i128 > taddr as i128);
                if !intra {
                    match self.node_at_address(taddr) {
                        Some(callee) => {
                            self.add_edge_once(caller, callee);
                        }
                        None => {
                            return Err(BuildError::UnknownCallTarget(taddr));
                        }
                    }
                }
                bi = bi + 1;
            }
            ri = ri + 1;
        }
        proof {
            if exists|ri2: int, x: usize|
                #[trigger] Builder::spec_sole_target(a2n0, idx0, records@, ri2, x) && (
                x as int) < nodes0.len() && !nodes0[x as int].dashed
                    && crate::machine::spec_reconcile(
                    nodes0[x as int].local,
                    records@[ri2].summary.modifies_sp,
                    records@[ri2].summary.local,
                ) is Err {
                let (ri2, x) = choose|ri2: int, x: usize|
                    #[trigger] Builder::spec_sole_target(a2n0, idx0, records@, ri2, x) && (
                    x as int) < nodes0.len() && !nodes0[x as int].dashed
                        && crate::machine::spec_reconcile(
                        nodes0[x as int].local,
                        records@[ri2].summary.modifies_sp,
                        records@[ri2].summary.local,
                    ) is Err;
                assert(false);
            }
        }
        Ok(())
    }

    /// Adds one synthetic dispatch node with the given display name and
    /// wires the callers into it and it into the callees.
    fn add_dispatch_node(&mut self, name: String, callers: &Vec<usize>, callees: &Vec<usize>)
        requires
            old(self).wf(),
            forall|i: int| 0 <= i < callers@.len() ==> (#[trigger] callers@[i]) < old(self).graph.nodes@.len(),
            forall|i: int| 0 <= i < callees@.len() ==> (#[trigger] callees@[i]) < old(self).graph.nodes@.len(),
        ensures
            final(self).wf(),
            final(self).graph.nodes@.len() == old(self).graph.nodes@.len() + 1,
            final(self).graph.nodes@[old(self).graph.nodes@.len() as int].dashed,
            final(self).graph.nodes@[old(self).graph.nodes@.len() as int].local == Local::Exact(
                0u64,
            ),
            final(self).graph.nodes@[old(self).graph.nodes@.len() as int].name@ == name@,
            forall|i: int| 0 <= i < old(self).graph.nodes@.len() ==> final(self).graph.nodes@[i]
                == old(self).graph.nodes@[i],
            final(self).indices == old(self).indices,
            final(self).aliases == old(self).aliases,
            final(self).addr2name == old(self).addr2name,
            final(self).ambiguous == old(self).ambiguous,
            final(self).indirects == old(self).indirects,
            final(self).dynamics == old(self).dynamics,
            final(self).formatter_callees == old(self).formatter_callees,
            final(self).has_stack_usage_info == old(self).has_stack_usage_info,
            final(self).has_untyped_symbols == old(self).has_untyped_symbols,
            final(self).warnings == old(self).warnings,
            old(self).graph.edges@.len() <= final(self).graph.edges@.len(),
            forall|e: int| 0 <= e < old(self).graph.edges@.len() ==> final(self).graph.edges@[e]
                == #[trigger] old(self).graph.edges@[e],
            dispatch_full_ok(
                final(self).graph,
                name@,
                callers@,
                callees@,
                old(self).graph.nodes@.len() as int,
            ),
    {
        let call = self.graph.add_node(make_node(name, Some(0), true));
        let ghost added = self.graph.nodes@[call as int];
        let ghost base_edges = self.graph.edges@;
        proof {
            assert(added.dashed && added.local == Local::Exact(0u64));
        }
        let nc = callers.len();
        let mut i: usize = 0;
        while i < nc
            invariant
                i <= nc,
                nc == callers@.len(),
                self.wf(),
                call == old(self).graph.nodes@.len(),
                self.graph.nodes@ == old(self).graph.nodes@.push(added),
                base_edges == old(self).graph.edges@,
                base_edges.len() <= self.graph.edges@.len(),
                forall|e: int| 0 <= e < base_edges.len() ==> self.graph.edges@[e]
                    == #[trigger] base_edges[e],
                forall|j: int| 0 <= j < i ==> spec_has_edge(
                    self.graph.edges@,
                    #[trigger] callers@[j],
                    call,
                ),
                self.indices == old(self).indices,
                self.aliases == old(self).aliases,
                self.addr2name == old(self).addr2name,
                self.ambiguous == old(self).ambiguous,
                self.indirects == old(self).indirects,
                self.dynamics == old(self).dynamics,
                self.formatter_callees == old(self).formatter_callees,
                self.has_stack_usage_info == old(self).has_stack_usage_info,
                self.has_untyped_symbols == old(self).has_untyped_symbols,
                self.warnings == old(self).warnings,
                forall|i2: int| 0 <= i2 < callers@.len() ==> (#[trigger] callers@[i2])
                    < self.graph.nodes@.len(),
                forall|i2: int| 0 <= i2 < callees@.len() ==> (#[trigger] callees@[i2])
                    < self.graph.nodes@.len(),
            decreases nc - i,
        {
            let ghost before = self.graph.edges@;
            self.graph.add_edge(callers[i], call);
            proof {
                assert(self.graph.edges@.last() == (callers@[i as int], call));
                assert forall|j: int|
                    0 <= j < i + 1 implies spec_has_edge(
                    self.graph.edges@,
                    #[trigger] callers@[j],
                    call,
                ) by {
                    if j < i {
                        lemma_has_edge_extend(before, self.graph.edges@, callers@[j], call);
                    }
                }
            }
            i = i + 1;
        }
        let ne = callees.len();
        let mut i: usize = 0;
        while i < ne
            invariant
                i <= ne,
                ne == callees@.len(),
                nc == callers@.len(),
                self.wf(),
                call == old(self).graph.nodes@.len(),
                self.graph.nodes@ == old(self).graph.nodes@.push(added),
                base_edges == old(self).graph.edges@,
                base_edges.len() <= self.graph.edges@.len(),
                forall|e: int| 0 <= e < base_edges.len() ==> self.graph.edges@[e]
                    == #[trigger] base_edges[e],
                forall|j: int| 0 <= j < callers@.len() ==> spec_has_edge(
                    self.graph.edges@,
                    #[trigger] callers@[j],
                    call,
                ),
                forall|j: int| 0 <= j < i ==> spec_has_edge(
                    self.graph.edges@,
                    call,
                    #[trigger] callees@[j],
                ),
                self.indices == old(self).indices,
                self.aliases == old(self).aliases,
                self.addr2name == old(self).addr2name,
                self.ambiguous == old(self).ambiguous,
                self.indirects == old(self).indirects,
                self.dynamics == old(self).dynamics,
                self.formatter_callees == old(self).formatter_callees,
                self.has_stack_usage_info == old(self).has_stack_usage_info,
                self.has_untyped_symbols == old(self).has_untyped_symbols,
                self.warnings == old(self).warnings,
                forall|i2: int| 0 <= i2 < callees@.len() ==> (#[trigger] callees@[i2])
                    < self.graph.nodes@.len(),
            decreases ne - i,
        {
            let ghost before = self.graph.edges@;
            self.graph.add_edge(call, callees[i]);
            proof {
                assert(self.graph.edges@.last() == (call, callees@[i as int]));
                assert forall|j: int|
                    0 <= j < callers@.len() implies spec_has_edge(
                    self.graph.edges@,
                    #[trigger] callers@[j],
                    call,
                ) by {
                    lemma_has_edge_extend(before, self.graph.edges@, callers@[j], call);
                }
                assert forall|j: int|
                    0 <= j < i + 1 implies spec_has_edge(
                    self.graph.edges@,
                    call,
                    #[trigger] callees@[j],
                ) by {
                    if j < i {
                        lemma_has_edge_extend(before, self.graph.edges@, call, callees@[j]);
                    }
                }
            }
            i = i + 1;
        }
        proof {
            assert(self.graph.nodes@[call as int] == added);
            assert(dispatch_full_ok(self.graph, added.name@, callers@, callees@, call as int));
        }
    }

    /// Phase E, signature-driven: one synthetic node per called
    /// indirect-call shape (named by the signature, suffixed `*`) and
    /// per called dynamic-dispatch shape (named by the erased
    /// signature).  The formatter pseudo-dispatch shape is recognized
    /// through whatever alias names the formatter receiver this build,
    /// and takes the separately collected formatter callees.
    pub fn expand_signature_buckets(&mut self)
        requires
            old(self).wf(),
        ensures
            final(self).wf(),
            old(self).graph.nodes@.len() <= final(self).graph.nodes@.len(),
            forall|i: int| 0 <= i < old(self).graph.nodes@.len() ==> final(self).graph.nodes@[i]
                == old(self).graph.nodes@[i],
            final(self).indirects == old(self).indirects,
            final(self).dynamics == old(self).dynamics,
            // every called shape got its dashed node, wired from its callers
            forall|i: int|
                0 <= i < old(self).indirects@.len() && (#[trigger] old(
                    self,
                ).indirects@[i]).1.called ==> exists|s: int|
                    dispatch_node_ok(
                        final(self).graph,
                        old(self).indirects@[i].1.callers@,
                        s,
                    ),
            // away from the formatter special case, the node carries the
            // starred printable signature and reaches the shape's callees
            forall|i: int|
                0 <= i < old(self).indirects@.len() && (#[trigger] old(
                    self,
                ).indirects@[i]).1.called && !is_any_formatter_sig(
                    sig_view(old(self).indirects@[i].0),
                ) ==> exists|s: int|
                    dispatch_full_ok(
                        final(self).graph,
                        sig_name(sig_view(old(self).indirects@[i].0)) + seq!['*'],
                        old(self).indirects@[i].1.callers@,
                        old(self).indirects@[i].1.callees@,
                        s,
                    ),
            // every called dynamic-dispatch shape got its full node
            forall|i: int|
                0 <= i < old(self).dynamics@.len() && (#[trigger] old(
                    self,
                ).dynamics@[i]).1.called ==> exists|s: int|
                    dispatch_full_ok(
                        final(self).graph,
                        sig_name(sig_view(old(self).dynamics@[i].0)),
                        old(self).dynamics@[i].1.callers@,
                        old(self).dynamics@[i].1.callees@,
                        s,
                    ),
    {
        proof {
            reveal_strlit("fmt::Void");
            reveal_strlit("core::fmt::Void");
        }
        // find what stands for the formatter's erased receiver
        let mut all_maybe_void: Vec<String> = Vec::new();
        let nbk = self.indirects.len();
        let mut i: usize = 0;
        while i < nbk
            invariant
                i <= nbk,
                nbk == self.indirects@.len(),
                self.wf(),
            decreases nbk - i,
        {
            if sig_is_any_formatter_result(&self.indirects[i].0) {
                match &self.indirects[i].0.inputs[0] {
                    Type::Pointer(inner) => match &**inner {
                        Type::Alias(name) => {
                            all_maybe_void.push(name.clone());
                        }
                        _ => {}
                    },
                    _ => {}
                }
            }
            i = i + 1;
        }
        let mut one_true_void: Option<String> = None;
        if contains_str(&all_maybe_void, "fmt::Void") {
            one_true_void = Some(String::from_str("fmt::Void"));
        } else {
            let nv = all_maybe_void.len();
            let mut i: usize = 0;
            while i < nv
                invariant
                    i <= nv,
                    nv == all_maybe_void@.len(),
                decreases nv - i,
            {
                if one_true_void.is_none() {
                    let prefix = crate::chars::chars_of("core::fmt::Void");
                    let nm = crate::chars::chars_of(all_maybe_void[i].as_str());
                    if crate::chars::starts_with(nm.as_slice(), prefix.as_slice()) {
                        one_true_void = Some(all_maybe_void[i].clone());
                    }
                }
                i = i + 1;
            }
            if one_true_void.is_none() && nv == 1 {
                one_true_void = Some(all_maybe_void[0].clone());
            }
        }
        // expand the indirect-call shapes
        let nbk = self.indirects.len();
        let mut i: usize = 0;
        while i < nbk
            invariant
                i <= nbk,
                self.wf(),
                nbk == self.indirects@.len(),
                self.indirects == old(self).indirects,
                self.dynamics == old(self).dynamics,
                old(self).graph.nodes@.len() <= self.graph.nodes@.len(),
                forall|i2: int|
                    0 <= i2 < old(self).graph.nodes@.len() ==> self.graph.nodes@[i2] == old(
                        self,
                    ).graph.nodes@[i2],
                forall|i2: int|
                    0 <= i2 < i && (#[trigger] self.indirects@[i2]).1.called ==> exists|s: int|
                        dispatch_node_ok(self.graph, self.indirects@[i2].1.callers@, s),
                forall|i2: int|
                    0 <= i2 < i && (#[trigger] self.indirects@[i2]).1.called
                        && !is_any_formatter_sig(sig_view(self.indirects@[i2].0)) ==> exists|
                        s: int,
                    |
                        dispatch_full_ok(
                            self.graph,
                            sig_name(sig_view(self.indirects@[i2].0)) + seq!['*'],
                            self.indirects@[i2].1.callers@,
                            self.indirects@[i2].1.callees@,
                            s,
                        ),
            decreases nbk - i,
        {
            let ghost g_entry = self.graph;
            if self.indirects[i].1.called {
                let is_formatter_shape = match &one_true_void {
                    Some(v) => sig_is_any_formatter_result(&self.indirects[i].0) && (
                    match &self.indirects[i].0.inputs[0] {
                        Type::Pointer(inner) => match &**inner {
                            Type::Alias(name) => str_eq(name.as_str(), v.as_str()),
                            _ => false,
                        },
                        _ => false,
                    }),
                    None => false,
                };
                let any_shape = sig_is_any_formatter_result(&self.indirects[i].0);
                // display name: the printable signature, starred
                let mut namev: Vec<char> = Vec::new();
                if is_formatter_shape {
                    let mut sig2 = self.indirects[i].0.duplicate();
                    sig2.inputs[0] = Type::Pointer(
                        Box::new(Type::Alias(String::from_str("fmt::Void"))),
                    );
                    crate::sig::push_sig_name(&sig2, &mut namev);
                } else {
                    let sig2 = self.indirects[i].0.duplicate();
                    crate::sig::push_sig_name(&sig2, &mut namev);
                }
                namev.push('*');
                let name = crate::chars::string_from_chars(namev.as_slice());
                proof {
                    if !is_formatter_shape {
                        assert(name@ == sig_name(sig_view(self.indirects@[i as int].0))
                            + seq!['*']);
                    }
                }
                let callers = {
                    let mut v: Vec<usize> = Vec::new();
                    let nc = self.indirects[i].1.callers.len();
                    let mut j: usize = 0;
                    while j < nc
                        invariant
                            j <= nc,
                            0 <= (i as int) < self.indirects@.len(),
                            nc == self.indirects@[i as int].1.callers@.len(),
                            self.wf(),
                            v@ == self.indirects@[i as int].1.callers@.take(j as int),
                            forall|x: int| 0 <= x < v@.len() ==> (#[trigger] v@[x])
                                < self.graph.nodes@.len(),
                        decreases nc - j,
                    {
                        v.push(self.indirects[i].1.callers[j]);
                        proof {
                            assert(v@ =~= self.indirects@[i as int].1.callers@.take(j + 1));
                        }
                        j = j + 1;
                    }
                    proof {
                        assert(v@ =~= self.indirects@[i as int].1.callers@);
                    }
                    v
                };
                let callees = {
                    let mut v: Vec<usize> = Vec::new();
                    if is_formatter_shape {
                        let nc = self.formatter_callees.len();
                        let mut j: usize = 0;
                        while j < nc
                            invariant
                                j <= nc,
                                nc == self.formatter_callees@.len(),
                                self.wf(),
                                forall|x: int| 0 <= x < v@.len() ==> (#[trigger] v@[x])
                                    < self.graph.nodes@.len(),
                            decreases nc - j,
                        {
                            v.push(self.formatter_callees[j]);
                            j = j + 1;
                        }
                    } else {
                        let nc = self.indirects[i].1.callees.len();
                        let mut j: usize = 0;
                        while j < nc
                            invariant
                                j <= nc,
                                0 <= (i as int) < self.indirects@.len(),
                                nc == self.indirects@[i as int].1.callees@.len(),
                                self.wf(),
                                v@ == self.indirects@[i as int].1.callees@.take(j as int),
                                forall|x: int| 0 <= x < v@.len() ==> (#[trigger] v@[x])
                                    < self.graph.nodes@.len(),
                            decreases nc - j,
                        {
                            v.push(self.indirects[i].1.callees[j]);
                            proof {
                                assert(v@ =~= self.indirects@[i as int].1.callees@.take(
                                    j + 1,
                                ));
                            }
                            j = j + 1;
                        }
                        proof {
                            assert(v@ =~= self.indirects@[i as int].1.callees@);
                        }
                    }
                    v
                };
                // the formatter pseudo-dispatch reports empty callees
                // unconditionally; the generic shape only when typed
                if callees.len() == 0 && (is_formatter_shape || !self.has_untyped_symbols) {
                    self.warnings.push(Warning::NoCallees(name.clone()));
                }
                let ghost g_before = self.graph;
                let ghost name_view = name@;
                self.add_dispatch_node(name, &callers, &callees);
                let ghost s_idx = g_before.nodes@.len() as int;
                proof {
                    assert(dispatch_full_ok(
                        self.graph,
                        name_view,
                        callers@,
                        callees@,
                        s_idx,
                    ));
                }
                if self.has_untyped_symbols {
                    // a potential extern, untyped callee
                    let ghost g_mid = self.graph;
                    let call = self.graph.node_count() - 1;
                    let unknown = self.graph.add_node(
                        make_node(String::from_str("?"), None, false),
                    );
                    self.graph.add_edge(call, unknown);
                    proof {
                        lemma_dispatch_preserved(
                            g_mid,
                            self.graph,
                            name_view,
                            callers@,
                            callees@,
                        );
                    }
                }
                proof {
                    assert(exists|s: int|
                        dispatch_full_ok(self.graph, name_view, callers@, callees@, s));
                    if !is_formatter_shape {
                        assert(exists|s: int|
                            dispatch_full_ok(
                                self.graph,
                                sig_name(sig_view(self.indirects@[i as int].0)) + seq!['*'],
                                self.indirects@[i as int].1.callers@,
                                self.indirects@[i as int].1.callees@,
                                s,
                            ));
                    }
                    assert(exists|s: int|
                        dispatch_node_ok(self.graph, self.indirects@[i as int].1.callers@, s));
                }
            }
            proof {
                // earlier shapes keep their nodes as the graph grows
                assert forall|i2: int|
                    0 <= i2 < i + 1 && (#[trigger] self.indirects@[i2]).1.called implies exists|
                    s: int,
                |
                    dispatch_node_ok(self.graph, self.indirects@[i2].1.callers@, s) by {
                    if i2 < i {
                        lemma_dispatch_preserved(
                            g_entry,
                            self.graph,
                            Seq::empty(),
                            self.indirects@[i2].1.callers@,
                            Seq::empty(),
                        );
                    }
                }
                assert forall|i2: int|
                    0 <= i2 < i + 1 && (#[trigger] self.indirects@[i2]).1.called
                        && !is_any_formatter_sig(sig_view(self.indirects@[i2].0)) implies exists|
                    s: int,
                |
                    dispatch_full_ok(
                    self.graph,
                    sig_name(sig_view(self.indirects@[i2].0)) + seq!['*'],
                    self.indirects@[i2].1.callers@,
                    self.indirects@[i2].1.callees@,
                    s,
                ) by {
                    if i2 < i {
                        lemma_dispatch_preserved(
                            g_entry,
                            self.graph,
                            sig_name(sig_view(self.indirects@[i2].0)) + seq!['*'],
                            self.indirects@[i2].1.callers@,
                            self.indirects@[i2].1.callees@,
                        );
                    }
                }
            }
            i = i + 1;
        }
        // expand the dynamic-dispatch shapes
        let ghost g_after_ind = self.graph;
        let nbk = self.dynamics.len();
        let mut i: usize = 0;
        while i < nbk
            invariant
                i <= nbk,
                self.wf(),
                nbk == self.dynamics@.len(),
                self.indirects == old(self).indirects,
                self.dynamics == old(self).dynamics,
                old(self).graph.nodes@.len() <= self.graph.nodes@.len(),
                forall|i2: int|
                    0 <= i2 < old(self).graph.nodes@.len() ==> self.graph.nodes@[i2] == old(
                        self,
                    ).graph.nodes@[i2],
                g_after_ind.nodes@.len() <= self.graph.nodes@.len(),
                forall|i2: int|
                    0 <= i2 < g_after_ind.nodes@.len() ==> self.graph.nodes@[i2]
                        == g_after_ind.nodes@[i2],
                g_after_ind.edges@.len() <= self.graph.edges@.len(),
                forall|e: int| 0 <= e < g_after_ind.edges@.len() ==> self.graph.edges@[e]
                    == #[trigger] g_after_ind.edges@[e],
                forall|i2: int|
                    0 <= i2 < self.indirects@.len() && (#[trigger] self.indirects@[
                    i2]).1.called ==> exists|s: int|
                        dispatch_node_ok(self.graph, self.indirects@[i2].1.callers@, s),
                forall|i2: int|
                    0 <= i2 < self.indirects@.len() && (#[trigger] self.indirects@[
                    i2]).1.called && !is_any_formatter_sig(sig_view(self.indirects@[i2].0))
                        ==> exists|s: int|
                        dispatch_full_ok(
                            self.graph,
                            sig_name(sig_view(self.indirects@[i2].0)) + seq!['*'],
                            self.indirects@[i2].1.callers@,
                            self.indirects@[i2].1.callees@,
                            s,
                        ),
                forall|i2: int|
                    0 <= i2 < i && (#[trigger] self.dynamics@[i2]).1.called ==> exists|s: int|
                        dispatch_full_ok(
                            self.graph,
                            sig_name(sig_view(self.dynamics@[i2].0)),
                            self.dynamics@[i2].1.callers@,
                            self.dynamics@[i2].1.callees@,
                            s,
                        ),
            decreases nbk - i,
        {
            let ghost g_entry = self.graph;
            if self.dynamics[i].1.called {
                let mut namev: Vec<char> = Vec::new();
                let sig2 = self.dynamics[i].0.duplicate();
                crate::sig::push_sig_name(&sig2, &mut namev);
                let name = crate::chars::string_from_chars(namev.as_slice());
                proof {
                    assert(name@ == sig_name(sig_view(self.dynamics@[i as int].0)));
                }
                let callers = {
                    let mut v: Vec<usize> = Vec::new();
                    let nc = self.dynamics[i].1.callers.len();
                    let mut j: usize = 0;
                    while j < nc
                        invariant
                            j <= nc,
                            0 <= (i as int) < self.dynamics@.len(),
                            nc == self.dynamics@[i as int].1.callers@.len(),
                            self.wf(),
                            v@ == self.dynamics@[i as int].1.callers@.take(j as int),
                            forall|x: int| 0 <= x < v@.len() ==> (#[trigger] v@[x])
                                < self.graph.nodes@.len(),
                        decreases nc - j,
                    {
                        v.push(self.dynamics[i].1.callers[j]);
                        proof {
                            assert(v@ =~= self.dynamics@[i as int].1.callers@.take(j + 1));
                        }
                        j = j + 1;
                    }
                    proof {
                        assert(v@ =~= self.dynamics@[i as int].1.callers@);
                    }
                    v
                };
                let callees = {
                    let mut v: Vec<usize> = Vec::new();
                    let nc = self.dynamics[i].1.callees.len();
                    let mut j: usize = 0;
                    while j < nc
                        invariant
                            j <= nc,
                            0 <= (i as int) < self.dynamics@.len(),
                            nc == self.dynamics@[i as int].1.callees@.len(),
                            self.wf(),
                            v@ == self.dynamics@[i as int].1.callees@.take(j as int),
                            forall|x: int| 0 <= x < v@.len() ==> (#[trigger] v@[x])
                                < self.graph.nodes@.len(),
                        decreases nc - j,
                    {
                        v.push(self.dynamics[i].1.callees[j]);
                        proof {
                            assert(v@ =~= self.dynamics@[i as int].1.callees@.take(j + 1));
                        }
                        j = j + 1;
                    }
                    proof {
                        assert(v@ =~= self.dynamics@[i as int].1.callees@);
                    }
                    v
                };
                if callees.len() == 0 {
                    self.warnings.push(Warning::NoCallees(name.clone()));
                }
                let ghost g_before = self.graph;
                let ghost name_view = name@;
                self.add_dispatch_node(name, &callers, &callees);
                proof {
                    assert(dispatch_full_ok(
                        self.graph,
                        name_view,
                        callers@,
                        callees@,
                        g_before.nodes@.len() as int,
                    ));
                    assert(exists|s: int|
                        dispatch_full_ok(
                            self.graph,
                            sig_name(sig_view(self.dynamics@[i as int].0)),
                            self.dynamics@[i as int].1.callers@,
                            self.dynamics@[i as int].1.callees@,
                            s,
                        ));
                }
            }
            proof {
                assert forall|i2: int|
                    0 <= i2 < self.indirects@.len() && (#[trigger] self.indirects@[
                i2]).1.called implies exists|s: int|
                    dispatch_node_ok(self.graph, self.indirects@[i2].1.callers@, s) by {
                    lemma_dispatch_preserved(
                        g_entry,
                        self.graph,
                        Seq::empty(),
                        self.indirects@[i2].1.callers@,
                        Seq::empty(),
                    );
                }
                assert forall|i2: int|
                    0 <= i2 < self.indirects@.len() && (#[trigger] self.indirects@[
                i2]).1.called && !is_any_formatter_sig(sig_view(self.indirects@[i2].0))
                    implies exists|s: int|
                    dispatch_full_ok(
                    self.graph,
                    sig_name(sig_view(self.indirects@[i2].0)) + seq!['*'],
                    self.indirects@[i2].1.callers@,
                    self.indirects@[i2].1.callees@,
                    s,
                ) by {
                    lemma_dispatch_preserved(
                        g_entry,
                        self.graph,
                        sig_name(sig_view(self.indirects@[i2].0)) + seq!['*'],
                        self.indirects@[i2].1.callers@,
                        self.indirects@[i2].1.callees@,
                    );
                }
                assert forall|i2: int|
                    0 <= i2 < i + 1 && (#[trigger] self.dynamics@[i2]).1.called implies exists|
                    s: int,
                |
                    dispatch_full_ok(
                    self.graph,
                    sig_name(sig_view(self.dynamics@[i2].0)),
                    self.dynamics@[i2].1.callers@,
                    self.dynamics@[i2].1.callees@,
                    s,
                ) by {
                    if i2 < i {
                        lemma_dispatch_preserved(
                            g_entry,
                            self.graph,
                            sig_name(sig_view(self.dynamics@[i2].0)),
                            self.dynamics@[i2].1.callers@,
                            self.dynamics@[i2].1.callees@,
                        );
                    }
                }
            }
            i = i + 1;
        }
    }

    /// Phase E, metadata-driven: one synthetic node per called metadata
    /// id, named by the id's shape, plus the formatter pseudo-dispatch
    /// node; with non-source-language symbols present, a `?` sentinel
    /// keeps unresolved callees accounted for.
    pub fn expand_with_metadata(
        &mut self,
        meta_defs: &Vec<(u64, MetadataKind)>,
        meta_groups: &Vec<(u64, Vec<String>)>,
        meta_callers: &Vec<(u64, Vec<usize>)>,
        formatter_callers: &Vec<usize>,
        formatter_callee_names: &Vec<String>,
        has_non_rust_symbols: bool,
    )
        requires
            old(self).wf(),
            forall|i: int, j: int|
                0 <= i < meta_callers@.len() && 0 <= j < meta_callers@[i].1@.len() ==> (
                #[trigger] meta_callers@[i].1@[j]) < old(self).graph.nodes@.len(),
            forall|i: int| 0 <= i < formatter_callers@.len() ==> (
            #[trigger] formatter_callers@[i]) < old(self).graph.nodes@.len(),
        ensures
            final(self).wf(),
            old(self).graph.nodes@.len() <= final(self).graph.nodes@.len(),
            forall|i: int| 0 <= i < old(self).graph.nodes@.len() ==> final(self).graph.nodes@[i]
                == old(self).graph.nodes@[i],
            // the formatter pseudo-dispatch node, wired from its callers
            formatter_callers@.len() > 0 ==> exists|s: int|
                dispatch_full_ok(
                    final(self).graph,
                    "fn(&fmt::Void, &mut fmt::Formatter) -> fmt::Result"@,
                    formatter_callers@,
                    Seq::empty(),
                    s,
                ),
            final(self).indices == old(self).indices,
            // one dispatch node per queued metadata id, named by its
            // shape, wired from the id's callers, into the id's resolved
            // group callees, and to the unknown sentinel when owed
            forall|i: int|
                0 <= i < meta_callers@.len() ==> (forall|k: int|
                    #[trigger] first_id_at(meta_defs@, (#[trigger] meta_callers@[i]).0, k)
                        ==> meta_node_expanded(
                        final(self).graph,
                        old(self).indices@,
                        meta_groups@,
                        has_non_rust_symbols,
                        meta_callers@[i].0,
                        meta_callers@[i].1@,
                        meta_defs@[k].1,
                    )),
    {
        proof {
            reveal_strlit("fn(&fmt::Void, &mut fmt::Formatter) -> fmt::Result");
            reveal_strlit("(dyn ");
            reveal_strlit(").");
            reveal_strlit("drop(dyn ");
            reveal_strlit(")");
        }
        let mut had_formatter = false;
        let ghost fmt_name = "fn(&fmt::Void, &mut fmt::Formatter) -> fmt::Result"@;
        if formatter_callers.len() > 0 {
            let name = String::from_str("fn(&fmt::Void, &mut fmt::Formatter) -> fmt::Result");
            let callees = self.resolve_names(formatter_callee_names);
            if callees.len() == 0 {
                self.warnings.push(Warning::NoCallees(name.clone()));
            }
            let ghost g_before = self.graph;
            self.add_dispatch_node(name, formatter_callers, &callees);
            had_formatter = true;
            proof {
                assert(dispatch_full_ok(
                    self.graph,
                    fmt_name,
                    formatter_callers@,
                    Seq::empty(),
                    g_before.nodes@.len() as int,
                ));
            }
        }
        let nmc = meta_callers.len();
        let mut i: usize = 0;
        while i < nmc
            invariant
                i <= nmc,
                nmc == meta_callers@.len(),
                self.wf(),
                old(self).graph.nodes@.len() <= self.graph.nodes@.len(),
                forall|i2: int|
                    0 <= i2 < old(self).graph.nodes@.len() ==> self.graph.nodes@[i2] == old(
                        self,
                    ).graph.nodes@[i2],
                forall|i2: int, j: int|
                    0 <= i2 < meta_callers@.len() && 0 <= j < meta_callers@[i2].1@.len() ==> (
                    #[trigger] meta_callers@[i2].1@[j]) < self.graph.nodes@.len(),
                had_formatter == (formatter_callers@.len() > 0),
                had_formatter ==> exists|s: int|
                    dispatch_full_ok(
                        self.graph,
                        fmt_name,
                        formatter_callers@,
                        Seq::empty(),
                        s,
                    ),
                self.indices == old(self).indices,
                forall|i2: int|
                    0 <= i2 < i ==> (forall|k: int|
                        #[trigger] first_id_at(meta_defs@, (#[trigger] meta_callers@[i2]).0, k)
                            ==> meta_node_expanded(
                            self.graph,
                            old(self).indices@,
                            meta_groups@,
                            has_non_rust_symbols,
                            meta_callers@[i2].0,
                            meta_callers@[i2].1@,
                            meta_defs@[k].1,
                        )),
            decreases nmc - i,
        {
            let ghost g_entry = self.graph;
            let id = meta_callers[i].0;
            let mut name: Option<String> = None;
            let mut is_fn_kind = false;
            let ghost mut name_spec: Seq<char> = Seq::empty();
            let ghost mut kind_at: MetadataKind = MetadataKind::Other;
            match find_meta(meta_defs, id) {
                Some(kind) => match kind {
                    MetadataKind::Fn { sig_name } => {
                        name = Some(sig_name.clone());
                        is_fn_kind = true;
                        proof {
                            name_spec = sig_name@;
                            kind_at = *kind;
                        }
                    }
                    MetadataKind::Dyn { trait_name, method } => {
                        // (dyn Trait).method
                        let mut v = String::from_str("(dyn ");
                        v.append(trait_name.as_str());
                        v.append(").");
                        v.append(method.as_str());
                        proof {
                            name_spec = "(dyn "@ + trait_name@ + ")."@ + method@;
                            kind_at = *kind;
                            assert(v@ =~= name_spec);
                        }
                        name = Some(v);
                    }
                    MetadataKind::Drop { trait_name } => {
                        // drop(dyn Trait)
                        let mut v = String::from_str("drop(dyn ");
                        v.append(trait_name.as_str());
                        v.append(")");
                        proof {
                            name_spec = "drop(dyn "@ + trait_name@ + ")"@;
                            kind_at = *kind;
                            assert(v@ =~= name_spec);
                        }
                        name = Some(v);
                    }
                    _ => {}
                },
                None => {}
            }
            match name {
                None => {}
                Some(name) => {
                    proof {
                        assert(name@ == name_spec);
                    }
                    let mut callees: Vec<usize> = Vec::new();
                    let mut had_group = false;
                    match find_group(meta_groups, id) {
                        Some(names) => {
                            had_group = true;
                            proof {
                                let g0 = choose|g0: int|
                                    #[trigger] first_id_at(meta_groups@, id, g0) && *names
                                        == meta_groups@[g0].1;
                                let gw = choose|gw: int|
                                    #[trigger] first_id_at(meta_groups@, id, gw);
                                lemma_first_id_unique(meta_groups@, id, g0, gw);
                            }
                            callees = self.resolve_names(names);
                            proof {
                                assert(callees@ == group_callees(
                                    self.indices@,
                                    meta_groups@,
                                    id,
                                ));
                            }
                        }
                        None => {
                            self.warnings.push(Warning::NoCallees(name.clone()));
                            proof {
                                assert(!has_id(meta_groups@, id));
                                assert(!(exists|g0: int| #[trigger] first_id_at(
                                    meta_groups@,
                                    id,
                                    g0,
                                ))) by {
                                    if exists|g0: int| #[trigger] first_id_at(
                                        meta_groups@,
                                        id,
                                        g0,
                                    ) {
                                        let g0 = choose|g0: int| #[trigger] first_id_at(
                                            meta_groups@,
                                            id,
                                            g0,
                                        );
                                        assert(has_id(meta_groups@, id));
                                    }
                                }
                                assert(callees@ =~= group_callees(
                                    self.indices@,
                                    meta_groups@,
                                    id,
                                ));
                            }
                        }
                    }
                    proof {
                        assert(had_group == has_id(meta_groups@, id));
                    }
                    let ghost g_before = self.graph;
                    let ghost s_idx = self.graph.nodes@.len() as int;
                    self.add_dispatch_node(name, &meta_callers[i].1, &callees);
                    let call = self.graph.node_count() - 1;
                    proof {
                        assert(dispatch_full_ok(
                            self.graph,
                            name_spec,
                            meta_callers@[i as int].1@,
                            callees@,
                            s_idx,
                        ));
                    }
                    if !had_group || (is_fn_kind && has_non_rust_symbols) {
                        let ghost g_mid = self.graph;
                        let unknown = self.graph.add_node(
                            make_node(String::from_str("?"), None, false),
                        );
                        self.graph.add_edge(call, unknown);
                        proof {
                            reveal_strlit("?");
                            lemma_dispatch_at_preserved(
                                g_mid,
                                self.graph,
                                name_spec,
                                meta_callers@[i as int].1@,
                                callees@,
                                s_idx,
                            );
                            assert(self.graph.edges@.last() == (call, unknown));
                            assert(self.graph.nodes@[unknown as int].name@ == "?"@);
                            assert(sentinel_wired(self.graph, s_idx));
                        }
                    }
                    proof {
                        assert(meta_node_expanded(
                            self.graph,
                            old(self).indices@,
                            meta_groups@,
                            has_non_rust_symbols,
                            id,
                            meta_callers@[i as int].1@,
                            kind_at,
                        )) by {
                            match kind_at {
                                MetadataKind::Fn { sig_name } => {
                                    assert(dispatch_full_ok(
                                        self.graph,
                                        sig_name@,
                                        meta_callers@[i as int].1@,
                                        group_callees(old(self).indices@, meta_groups@, id),
                                        s_idx,
                                    ));
                                }
                                MetadataKind::Dyn { trait_name, method } => {
                                    assert(dispatch_full_ok(
                                        self.graph,
                                        "(dyn "@ + trait_name@ + ")."@ + method@,
                                        meta_callers@[i as int].1@,
                                        group_callees(old(self).indices@, meta_groups@, id),
                                        s_idx,
                                    ));
                                }
                                MetadataKind::Drop { trait_name } => {
                                    assert(dispatch_full_ok(
                                        self.graph,
                                        "drop(dyn "@ + trait_name@ + ")"@,
                                        meta_callers@[i as int].1@,
                                        group_callees(old(self).indices@, meta_groups@, id),
                                        s_idx,
                                    ));
                                }
                                _ => {}
                            }
                        }
                        let k0 = choose|k0: int|
                            #[trigger] first_id_at(meta_defs@, id, k0) && kind_at
                                == meta_defs@[k0].1;
                        assert forall|k: int|
                            #[trigger] first_id_at(meta_defs@, id, k)
                                implies meta_node_expanded(
                            self.graph,
                            old(self).indices@,
                            meta_groups@,
                            has_non_rust_symbols,
                            id,
                            meta_callers@[i as int].1@,
                            meta_defs@[k].1,
                        ) by {
                            lemma_first_id_unique(meta_defs@, id, k, k0);
                        }
                    }
                }
            }
            proof {
                if had_formatter {
                    lemma_dispatch_preserved(
                        g_entry,
                        self.graph,
                        fmt_name,
                        formatter_callers@,
                        Seq::empty(),
                    );
                }
                assert forall|i2: int|
                    0 <= i2 < i + 1 implies (forall|k: int|
                    #[trigger] first_id_at(meta_defs@, (#[trigger] meta_callers@[i2]).0, k)
                        ==> meta_node_expanded(
                        self.graph,
                        old(self).indices@,
                        meta_groups@,
                        has_non_rust_symbols,
                        meta_callers@[i2].0,
                        meta_callers@[i2].1@,
                        meta_defs@[k].1,
                    )) by {
                    assert forall|k: int|
                        #[trigger] first_id_at(meta_defs@, meta_callers@[i2].0, k)
                            implies meta_node_expanded(
                        self.graph,
                        old(self).indices@,
                        meta_groups@,
                        has_non_rust_symbols,
                        meta_callers@[i2].0,
                        meta_callers@[i2].1@,
                        meta_defs@[k].1,
                    ) by {
                        if i2 < i {
                            lemma_meta_node_preserved(
                                g_entry,
                                self.graph,
                                old(self).indices@,
                                meta_groups@,
                                has_non_rust_symbols,
                                meta_callers@[i2].0,
                                meta_callers@[i2].1@,
                                meta_defs@[k].1,
                            );
                        }
                    }
                }
            }
            i = i + 1;
        }
    }

    /// The node indices these symbol names resolve to; names the graph
    /// does not know are dropped.
    fn resolve_names(&self, names: &Vec<String>) -> (r: Vec<usize>)
        requires
            self.wf(),
        ensures
            forall|i: int| 0 <= i < r@.len() ==> (#[trigger] r@[i]) < self.graph.nodes@.len(),
            r@ == resolved_seq(self.indices@, names@),
    {
        let mut r: Vec<usize> = Vec::new();
        let n = names.len();
        let mut i: usize = 0;
        while i < n
            invariant
                i <= n,
                n == names@.len(),
                self.wf(),
                forall|x: int| 0 <= x < r@.len() ==> (#[trigger] r@[x])
                    < self.graph.nodes@.len(),
                r@ == resolved_seq(self.indices@, names@.take(i as int)),
            decreases n - i,
        {
            proof {
                assert(names@.take(i + 1).drop_last() =~= names@.take(i as int));
                assert(names@.take(i + 1).last() == names@[i as int]);
            }
            match self.node_index_of(names[i].as_str()) {
                Some(idx) => {
                    proof {
                        let k = choose|k: int|
                            #[trigger] first_key_at(self.indices@, names@[i as int]@, k)
                                && idx == self.indices@[k].1;
                        let w = choose|w: int|
                            #[trigger] first_key_at(self.indices@, names@[i as int]@, w);
                        lemma_first_key_unique(self.indices@, names@[i as int]@, k, w);
                    }
                    r.push(idx);
                }
                None => {}
            }
            proof {
                assert(r@ =~= resolved_seq(self.indices@, names@.take(i + 1)));
            }
            i = i + 1;
        }
        proof {
            assert(names@.take(n as int) =~= names@);
        }
        r
    }

    /// Rewrites every node's display name to its demangled form; the
    /// uniqueness hash is stripped exactly when the de-hashed form
    /// counts one node in the ambiguity table.
    pub fn shorten_names(&mut self)
        requires
            old(self).wf(),
        ensures
            final(self).wf(),
            final(self).graph.nodes@.len() == old(self).graph.nodes@.len(),
            final(self).graph.edges@ == old(self).graph.edges@,
            final(self).ambiguous == old(self).ambiguous,
            forall|i: int|
                0 <= i < final(self).graph.nodes@.len() ==> {
                    let pre = old(self).graph.nodes@[i];
                    let post = (#[trigger] final(self).graph.nodes@[i]);
                    let dm = demangled_of(pre.name@);
                    &&& post.local == pre.local
                    &&& post.max == pre.max
                    &&& post.dashed == pre.dashed
                    &&& post.name@ == (if has_hash_suffix(dm) && spec_count_of(
                        old(self).ambiguous@,
                        dm.take(dm.len() - 19),
                    ) == 1 {
                        dm.take(dm.len() - 19)
                    } else {
                        dm
                    })
                },
    {
        let n = self.graph.node_count();
        let mut i: usize = 0;
        while i < n
            invariant
                i <= n,
                n == self.graph.nodes@.len(),
                self.wf(),
                self.ambiguous == old(self).ambiguous,
                self.graph.nodes@.len() == old(self).graph.nodes@.len(),
                self.graph.edges@ == old(self).graph.edges@,
                forall|i2: int| i <= i2 < self.graph.nodes@.len() ==> self.graph.nodes@[i2]
                    == old(self).graph.nodes@[i2],
                forall|i2: int|
                    0 <= i2 < i ==> {
                        let pre = old(self).graph.nodes@[i2];
                        let post = (#[trigger] self.graph.nodes@[i2]);
                        let dm = demangled_of(pre.name@);
                        &&& post.local == pre.local
                        &&& post.max == pre.max
                        &&& post.dashed == pre.dashed
                        &&& post.name@ == (if has_hash_suffix(dm) && spec_count_of(
                            old(self).ambiguous@,
                            dm.take(dm.len() - 19),
                        ) == 1 {
                            dm.take(dm.len() - 19)
                        } else {
                            dm
                        })
                    },
            decreases n - i,
        {
            let dm = demangled(&self.graph.nodes[i].name);
            let shortened = match dehash(dm.as_str()) {
                Some(dh) => {
                    if self.ambiguity_of(dh.as_str()) == 1 {
                        dh
                    } else {
                        dm
                    }
                }
                None => dm,
            };
            let nd = Node {
                name: shortened,
                local: self.graph.nodes[i].local,
                max: self.graph.nodes[i].max,
                dashed: self.graph.nodes[i].dashed,
            };
            self.graph.nodes[i] = nd;
            i = i + 1;
        }
    }

    /// Looks the filter root up: an exact symbol match first, then the
    /// symbols whose demangled name begins with the root followed by
    /// `::h` — exactly one such match finds its node, several are
    /// ambiguous, none is not found.
    pub fn find_start(&self, start: &str) -> (r: StartLookup)
        requires
            self.wf(),
        ensures
            r is Found ==> r->Found_0 < self.graph.nodes@.len(),
            has_key(self.indices@, start@) ==> r is Found && exists|i: int|
                #[trigger] first_key_at(self.indices@, start@, i) && r->Found_0
                    == self.indices@[i].1,
            !has_key(self.indices@, start@) ==> {
                &&& ((r is NotFound) <==> (forall|i: int|
                    !(#[trigger] start_hit(self.indices@, start_needle(start@), i))))
                &&& ((r is Ambiguous) <==> (exists|i: int, j: int|
                    i != j && #[trigger] start_hit(
                        self.indices@,
                        start_needle(start@),
                        i,
                    ) && #[trigger] start_hit(
                        self.indices@,
                        start_needle(start@),
                        j,
                    )))
                &&& (r is Found ==> exists|i: int| #[trigger] start_hit(
                    self.indices@,
                    start_needle(start@),
                    i,
                ) && r->Found_0 == self.indices@[i].1)
            },
    {
        match self.node_index_of(start) {
            Some(i) => StartLookup::Found(i),
            None => {
                let startv = crate::chars::chars_of(start);
                let mut needle = startv;
                needle.push(':');
                needle.push(':');
                needle.push('h');
                let ghost nv = start_needle(start@);
                proof {
                    assert(needle@ =~= nv);
                }
                let mut hits: Vec<usize> = Vec::new();
                let n = self.indices.len();
                let mut i: usize = 0;
                while i < n
                    invariant
                        i <= n,
                        n == self.indices@.len(),
                        self.wf(),
                        needle@ == nv,
                        forall|x: int| 0 <= x < hits@.len() ==> (#[trigger] hits@[x]) < i
                            && start_hit(self.indices@, nv, hits@[x] as int),
                        forall|j: int| 0 <= j < i && start_hit(self.indices@, nv, j)
                            ==> hits@.contains(j as usize),
                        forall|x1: int, x2: int|
                            #![trigger hits@[x1], hits@[x2]]
                            0 <= x1 < x2 < hits@.len() ==> hits@[x1] < hits@[x2],
                    decreases n - i,
                {
                    let dm = demangled(&self.indices[i].0);
                    let dmv = crate::chars::chars_of(dm.as_str());
                    let ghost pre_hits = hits@;
                    if crate::chars::starts_with(dmv.as_slice(), needle.as_slice()) {
                        hits.push(i);
                        proof {
                            assert(start_hit(self.indices@, nv, i as int));
                        }
                    }
                    proof {
                        assert forall|j: int|
                            0 <= j < i + 1 && start_hit(self.indices@, nv, j)
                                implies hits@.contains(j as usize) by {
                            if j < i {
                                let x = choose|x: int|
                                    0 <= x < pre_hits.len() && pre_hits[x] == j as usize;
                                assert(hits@[x] == j as usize);
                            } else {
                                assert(hits@[hits@.len() - 1] == j as usize);
                            }
                        }
                    }
                    i = i + 1;
                }
                if hits.len() == 0 {
                    proof {
                        assert forall|j: int| !(#[trigger] start_hit(
                            self.indices@,
                            nv,
                            j,
                        )) by {
                            if start_hit(self.indices@, nv, j) {
                                assert(hits@.contains(j as usize));
                            }
                        }
                    }
                    StartLookup::NotFound
                } else if hits.len() == 1 {
                    proof {
                        assert(start_hit(self.indices@, nv, hits@[0] as int));
                        if exists|a: int, b: int|
                            a != b && #[trigger] start_hit(self.indices@, nv, a)
                                && #[trigger] start_hit(self.indices@, nv, b) {
                            let (a, b) = choose|a: int, b: int|
                                a != b && #[trigger] start_hit(self.indices@, nv, a)
                                    && #[trigger] start_hit(self.indices@, nv, b);
                            assert(hits@.contains(a as usize));
                            assert(hits@.contains(b as usize));
                            let xa = choose|x: int|
                                0 <= x < hits@.len() && hits@[x] == a as usize;
                            let xb = choose|x: int|
                                0 <= x < hits@.len() && hits@[x] == b as usize;
                            assert(xa == 0 && xb == 0);
                            assert(false);
                        }
                    }
                    let p = hits[0];
                    StartLookup::Found(self.indices[p].1)
                } else {
                    proof {
                        assert(start_hit(self.indices@, nv, hits@[0] as int));
                        assert(start_hit(self.indices@, nv, hits@[1] as int));
                        assert(hits@[0] < hits@[1]);
                    }
                    StartLookup::Ambiguous
                }
            }
        }
    }
}

/// The member names registered under this group id: the first entry.
pub fn find_group<'a>(groups: &'a Vec<(u64, Vec<String>)>, id: u64) -> (r: Option<
    &'a Vec<String>,
>)
    ensures
        r is Some <==> exists|i: int|
            0 <= i < groups@.len() && (#[trigger] groups@[i]).0 == id,
        r is Some ==> exists|i: int| #[trigger] first_id_at(groups@, id, i) && *r->Some_0
            == groups@[i].1,
{
    let n = groups.len();
    let mut i: usize = 0;
    while i < n
        invariant
            i <= n,
            n == groups@.len(),
            forall|j: int| 0 <= j < i ==> (#[trigger] groups@[j]).0 != id,
        decreases n - i,
    {
        if groups[i].0 == id {
            proof {
                assert(first_id_at(groups@, id, i as int));
            }
            return Some(&groups[i].1);
        }
        i = i + 1;
    }
    None
}

} // verus!
