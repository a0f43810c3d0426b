//! Per-node stack metrics.
//!
//! `Local` is a function's own frame size: an exact byte count when the
//! compiler or the disassembler proved one, `Unknown` otherwise.  `Max` is
//! the bound computed for a whole call chain: `Exact` when every
//! contribution was exact and no cycle was involved, `LowerBound`
//! otherwise.

use vstd::prelude::*;

verus! {

/// Local stack usage of one function.
#[derive(Clone, Copy, Debug, PartialEq, Eq, Structural)]
pub enum Local {
    Exact(u64),
    Unknown,
}

/// Bound on the total stack usage of a call chain.
#[derive(Clone, Copy, Debug, PartialEq, Eq, Structural)]
pub enum Max {
    Exact(u64),
    LowerBound(u64),
}

impl Max {
    /// The known part of the bound.
    pub open spec fn value(self) -> u64 {
        match self {
            Max::Exact(n) => n,
            Max::LowerBound(n) => n,
        }
    }

    /// True when the bound is only a lower bound.
    pub open spec fn is_lower_bound(self) -> bool {
        self is LowerBound
    }
}

/// What lifting a `Local` to a `Max` yields: an unknown frame contributes
/// a lower bound of zero.
pub open spec fn spec_lift(l: Local) -> Max {
    match l {
        Local::Exact(n) => Max::Exact(n),
        Local::Unknown => Max::LowerBound(0),
    }
}

/// Mathematical sum of a bound and a local frame: exact only when both
/// parts are exact, and always the sum of the known parts.
pub open spec fn spec_add_local(lhs: Max, rhs: Local) -> Max {
    match (lhs, rhs) {
        (Max::Exact(a), Local::Exact(b)) => Max::Exact((a + b) as u64),
        (Max::Exact(a), Local::Unknown) => Max::LowerBound(a),
        (Max::LowerBound(a), Local::Exact(b)) => Max::LowerBound((a + b) as u64),
        (Max::LowerBound(a), Local::Unknown) => Max::LowerBound(a),
    }
}

/// Mathematical sum of two bounds: exact only when both are exact, and
/// always the sum of the known parts.
pub open spec fn spec_add_max(lhs: Max, rhs: Max) -> Max {
    match (lhs, rhs) {
        (Max::Exact(a), Max::Exact(b)) => Max::Exact((a + b) as u64),
        (Max::Exact(a), Max::LowerBound(b)) => Max::LowerBound((a + b) as u64),
        (Max::LowerBound(a), Max::Exact(b)) => Max::LowerBound((a + b) as u64),
        (Max::LowerBound(a), Max::LowerBound(b)) => Max::LowerBound((a + b) as u64),
    }
}

/// The weaker of two bounds: the larger known part, tagged `LowerBound`
/// as soon as either operand is a `LowerBound`.
pub open spec fn spec_max(lhs: Max, rhs: Max) -> Max {
    let v = if lhs.value() >= rhs.value() {
        lhs.value()
    } else {
        rhs.value()
    };
    if lhs is LowerBound || rhs is LowerBound {
        Max::LowerBound(v)
    } else {
        Max::Exact(v)
    }
}

/// Fold of `spec_max` over a sequence; `None` for the empty sequence.
pub open spec fn spec_max_of(items: Seq<Max>) -> Option<Max>
    decreases items.len(),
{
    if items.len() == 0 {
        None
    } else if items.len() == 1 {
        Some(items[0])
    } else {
        match spec_max_of(items.drop_last()) {
            Some(m) => Some(spec_max(m, items.last())),
            None => Some(items.last()),
        }
    }
}

impl Local {
    /// Lift a local frame size to a chain bound: an unknown frame is at
    /// least zero bytes.
    pub fn lift(self) -> (r: Max)
        ensures
            r == spec_lift(self),
    {
        match self {
            Local::Exact(n) => Max::Exact(n),
            Local::Unknown => Max::LowerBound(0),
        }
    }
}

impl Max {
    /// Add a local frame to a chain bound.  Exactness survives only when
    /// both operands are exact; the known parts always add up.
    pub fn add(self, rhs: Local) -> (r: Max)
        requires
            self.value() + spec_lift(rhs).value() <= u64::MAX,
        ensures
            r == spec_add_local(self, rhs),
    {
        match (self, rhs) {
            (Max::Exact(lhs), Local::Exact(rhs)) => Max::Exact(lhs + rhs),
            (Max::Exact(lhs), Local::Unknown) => Max::LowerBound(lhs),
            (Max::LowerBound(lhs), Local::Exact(rhs)) => Max::LowerBound(lhs + rhs),
            (Max::LowerBound(lhs), Local::Unknown) => Max::LowerBound(lhs),
        }
    }

    /// Add two chain bounds.  Exactness survives only when both operands
    /// are exact; the known parts always add up.
    pub fn add_max(self, rhs: Max) -> (r: Max)
        requires
            self.value() + rhs.value() <= u64::MAX,
        ensures
            r == spec_add_max(self, rhs),
    {
        match (self, rhs) {
            (Max::Exact(lhs), Max::Exact(rhs)) => Max::Exact(lhs + rhs),
            (Max::Exact(lhs), Max::LowerBound(rhs)) => Max::LowerBound(lhs + rhs),
            (Max::LowerBound(lhs), Max::Exact(rhs)) => Max::LowerBound(lhs + rhs),
            (Max::LowerBound(lhs), Max::LowerBound(rhs)) => Max::LowerBound(lhs + rhs),
        }
    }
}

/// Sum of a bound and a local frame, total on all inputs: a sum past the
/// largest representable value is reported as that value, only ever a
/// lower bound of the true sum.
pub open spec fn spec_add_local_total(lhs: Max, rhs: Local) -> Max {
    if lhs.value() + spec_lift(rhs).value() <= u64::MAX {
        spec_add_local(lhs, rhs)
    } else {
        Max::LowerBound(u64::MAX)
    }
}

/// Sum of two bounds, total on all inputs, saturating as above.
pub open spec fn spec_add_max_total(lhs: Max, rhs: Max) -> Max {
    if lhs.value() + rhs.value() <= u64::MAX {
        spec_add_max(lhs, rhs)
    } else {
        Max::LowerBound(u64::MAX)
    }
}

/// The downgrade applied to a cycle's combined frame: a nonzero exact
/// value becomes a lower bound, since a cycle can repeat it.
pub open spec fn spec_downgrade(m: Max) -> Max {
    match m {
        Max::Exact(n) => if n != 0 {
            Max::LowerBound(n)
        } else {
            m
        },
        Max::LowerBound(_) => m,
    }
}

impl Max {
    /// The known part of the bound.
    pub fn value_of(self) -> (r: u64)
        ensures
            r == self.value(),
    {
        match self {
            Max::Exact(n) => n,
            Max::LowerBound(n) => n,
        }
    }

    /// Total addition of a local frame, saturating into a lower bound.
    pub fn add_capped(self, rhs: Local) -> (r: Max)
        ensures
            r == spec_add_local_total(self, rhs),
    {
        let rv = rhs.lift().value_of();
        if self.value_of() > u64::MAX - rv {
            Max::LowerBound(u64::MAX)
        } else {
            self.add(rhs)
        }
    }

    /// Total addition of two bounds, saturating into a lower bound.
    pub fn add_max_capped(self, rhs: Max) -> (r: Max)
        ensures
            r == spec_add_max_total(self, rhs),
    {
        if self.value_of() > u64::MAX - rhs.value_of() {
            Max::LowerBound(u64::MAX)
        } else {
            self.add_max(rhs)
        }
    }

    /// Downgrades a nonzero exact bound to a lower bound, for cycles.
    pub fn downgrade(self) -> (r: Max)
        ensures
            r == spec_downgrade(self),
    {
        match self {
            Max::Exact(n) => if n != 0 {
                Max::LowerBound(n)
            } else {
                Max::Exact(n)
            },
            Max::LowerBound(n) => Max::LowerBound(n),
        }
    }
}

/// The weaker of two bounds: `LowerBound` dominates `Exact`, and the
/// known part is the larger of the two.
pub fn max(lhs: Max, rhs: Max) -> (r: Max)
    ensures
        r == spec_max(lhs, rhs),
{
    match (lhs, rhs) {
        (Max::Exact(a), Max::Exact(b)) => Max::Exact(
            if a >= b {
                a
            } else {
                b
            },
        ),
        (Max::Exact(a), Max::LowerBound(b)) => Max::LowerBound(
            if a >= b {
                a
            } else {
                b
            },
        ),
        (Max::LowerBound(a), Max::Exact(b)) => Max::LowerBound(
            if a >= b {
                a
            } else {
                b
            },
        ),
        (Max::LowerBound(a), Max::LowerBound(b)) => Max::LowerBound(
            if a >= b {
                a
            } else {
                b
            },
        ),
    }
}

/// The weaker of a whole sequence of bounds; `None` when it is empty.
pub fn max_of(items: &[Max]) -> (r: Option<Max>)
    ensures
        r == spec_max_of(items@),
{
    let n = items.len();
    if n == 0 {
        return None;
    }
    let mut acc = items[0];
    let mut i: usize = 1;
    while i < n
        invariant
            1 <= i <= n,
            n == items@.len(),
            Some(acc) == spec_max_of(items@.take(i as int)),
        decreases n - i,
    {
        proof {
            assert(items@.take(i + 1).drop_last() =~= items@.take(i as int));
            assert(items@.take(i + 1).last() == items@[i as int]);
        }
        acc = max(acc, items[i]);
        i = i + 1;
    }
    proof {
        assert(items@.take(n as int) =~= items@);
    }
    Some(acc)
}

/// The weaker-tag law: the fold of `spec_max` over a non-empty sequence
/// is a `LowerBound` exactly when some element is, and its known part is
/// an upper bound for (and attained among) the elements' known parts.
pub proof fn lemma_max_of_weaker_tag(items: Seq<Max>)
    requires
        items.len() > 0,
    ensures
        spec_max_of(items) is Some,
        (spec_max_of(items)->Some_0 is LowerBound <==> exists|i: int|
            0 <= i < items.len() && items[i] is LowerBound),
        forall|i: int| 0 <= i < items.len() ==> items[i].value()
            <= spec_max_of(items)->Some_0.value(),
        exists|i: int| 0 <= i < items.len() && items[i].value()
            == spec_max_of(items)->Some_0.value(),
    decreases items.len(),
{
    if items.len() == 1 {
        assert(items[0].value() == spec_max_of(items)->Some_0.value());
    } else {
        lemma_max_of_weaker_tag(items.drop_last());
        let prefix = items.drop_last();
        let m = spec_max_of(prefix)->Some_0;
        let r = spec_max_of(items)->Some_0;
        assert(r == spec_max(m, items.last()));
        if r is LowerBound {
            if m is LowerBound {
                let i = choose|i: int|
                    0 <= i < prefix.len() && prefix[i] is LowerBound;
                assert(items[i] is LowerBound);
            } else {
                assert(items[items.len() - 1] is LowerBound);
            }
        }
        if exists|i: int| 0 <= i < items.len() && items[i] is LowerBound {
            let i = choose|i: int| 0 <= i < items.len() && items[i] is LowerBound;
            if i < prefix.len() {
                assert(prefix[i] is LowerBound);
            }
        }
        if m.value() >= items.last().value() {
            let i = choose|i: int|
                0 <= i < prefix.len() && prefix[i].value() == m.value();
            assert(items[i].value() == r.value());
        } else {
            assert(items[items.len() - 1].value() == r.value());
        }
        assert forall|i: int| 0 <= i < items.len() implies items[i].value()
            <= r.value() by {
            if i < prefix.len() {
                assert(prefix[i].value() <= m.value());
            }
        }
    }
}

} // verus!
