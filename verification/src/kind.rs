//! The severity lattice of version bumps.
//!
//! A bump kind is one of `NoBump < Patch < Minor < Major`, totally ordered.
//! Signals from several sources (change records, classified commits,
//! dependency propagation) are combined by taking the maximum, so the set of
//! kinds forms a join-semilattice under [`BumpKind::merge`].

use vstd::prelude::*;

verus! {

/// Severity of a version change, ordered `NoBump < Patch < Minor < Major`.
#[derive(Clone, Copy, PartialEq, Eq, Structural, Debug)]
pub enum BumpKind {
    NoBump,
    Patch,
    Minor,
    Major,
}

impl BumpKind {
    /// Numeric level of a kind in the lattice: `NoBump` is 0, `Major` is 3.
    pub open spec fn level(self) -> int {
        match self {
            BumpKind::NoBump => 0,
            BumpKind::Patch => 1,
            BumpKind::Minor => 2,
            BumpKind::Major => 3,
        }
    }

    /// Lattice order: `self` is at most `other`.
    pub open spec fn le(self, other: BumpKind) -> bool {
        self.level() <= other.level()
    }

    /// The join (maximum) of two kinds, as a specification.
    pub open spec fn spec_merge(self, other: BumpKind) -> BumpKind {
        if self.level() >= other.level() {
            self
        } else {
            other
        }
    }

    /// Combine two bump signals, keeping the more severe one.
    pub fn merge(self, other: BumpKind) -> (r: BumpKind)
        ensures
            r == self.spec_merge(other),
    {
        if self.level_exec() >= other.level_exec() {
            self
        } else {
            other
        }
    }

    /// Executable counterpart of [`BumpKind::level`].
    pub fn level_exec(self) -> (r: u8)
        ensures
            r as int == self.level(),
    {
        match self {
            BumpKind::NoBump => 0,
            BumpKind::Patch => 1,
            BumpKind::Minor => 2,
            BumpKind::Major => 3,
        }
    }
}

/// Equal levels mean equal kinds: the level function is injective.
pub proof fn lemma_level_injective(a: BumpKind, b: BumpKind)
    ensures
        a.level() == b.level() ==> a == b,
{
}

/// Merging bump kinds is commutative: the combined severity of two signals
/// does not depend on the order in which they arrive.
pub proof fn lemma_merge_commutative(a: BumpKind, b: BumpKind)
    ensures
        a.spec_merge(b) == b.spec_merge(a),
{
}

/// Merging bump kinds is associative: signals may be combined in any
/// grouping.
pub proof fn lemma_merge_associative(a: BumpKind, b: BumpKind, c: BumpKind)
    ensures
        a.spec_merge(b).spec_merge(c) == a.spec_merge(b.spec_merge(c)),
{
}

/// Merging a bump kind with itself changes nothing: repeated delivery of the
/// same signal is harmless.
pub proof fn lemma_merge_idempotent(a: BumpKind)
    ensures
        a.spec_merge(a) == a,
{
}

/// The merge is the least upper bound: it dominates both arguments, and any
/// kind dominating both arguments dominates the merge.
pub proof fn lemma_merge_is_join(a: BumpKind, b: BumpKind, c: BumpKind)
    ensures
        a.le(a.spec_merge(b)),
        b.le(a.spec_merge(b)),
        a.le(c) && b.le(c) ==> a.spec_merge(b).le(c),
{
}

} // verus!
