//! The bump resolution engine.
//!
//! [`get_bumps`] turns per-package change signals — explicit change records
//! and, when enabled, conventional-commit classifications — into a final
//! version-bump plan. Signals are merged over the bump-kind lattice, linked
//! groups are normalized to their maximal member signal, and bumps propagate
//! along the dependency graph: a package whose dependency moves by `minor`
//! or `major` is re-released with at least a `patch` bump (configurably
//! `minor` when the dependency moved by `major`). Propagation runs to a
//! fixpoint, which the contracts pin down: the final kinds dominate the
//! direct signals, are stable under one more pass, and lie below every other
//! stable assignment — the plan is the minimal consistent set of bumps. An
//! explicit release override fixes a package's target version exactly and
//! counts as a major signal for its dependents.

use vstd::prelude::*;
use crate::changes::{ChangeRecord, RecordView};
use crate::classify::{classify, classify_spec};
use crate::graph::{
    is_closed_dependent_set, is_topo_order, GraphCycleError, Package, PackageGraph,
};
use crate::kind::BumpKind;
use crate::semver::{bump_view, version_lt, Version, VersionView};
use crate::strutil::str_eq;

verus! {

/// A commit drawn from the history since a package's last publish tag.
#[derive(Clone, Debug, PartialEq, Eq)]
pub struct CommitInfo {
    pub sha: String,
    pub message: String,
    pub author_timestamp: u64,
}

/// Mathematical model of a commit.
pub ghost struct CommitView {
    pub sha: Seq<char>,
    pub message: Seq<char>,
    pub author_timestamp: int,
}

impl View for CommitInfo {
    type V = CommitView;

    open spec fn view(&self) -> CommitView {
        CommitView {
            sha: self.sha@,
            message: self.message@,
            author_timestamp: self.author_timestamp as int,
        }
    }
}

/// A configured set of packages that always bump together. The `fixed` flag
/// records that the group is configured to land on one shared resulting
/// version; this resolver synchronizes the members' bump kinds for both
/// flavors and computes each member's target from its own current version.
#[derive(Clone, Debug, PartialEq, Eq)]
pub struct LinkedGroup {
    pub members: Vec<String>,
    pub fixed: bool,
}

/// Mathematical model of a group.
pub ghost struct GroupView {
    pub members: Seq<Seq<char>>,
    pub fixed: bool,
}

impl View for LinkedGroup {
    type V = GroupView;

    open spec fn view(&self) -> GroupView {
        GroupView { members: crate::graph::string_views(self.members@), fixed: self.fixed }
    }
}

/// An explicit target version for one package, short-circuiting its
/// computed bump.
#[derive(Clone, Debug, PartialEq, Eq)]
pub struct ReleaseOverride {
    pub name: String,
    pub version: Version,
}

/// Mathematical model of an override.
pub ghost struct OverrideView {
    pub name: Seq<char>,
    pub version: VersionView,
}

impl View for ReleaseOverride {
    type V = OverrideView;

    open spec fn view(&self) -> OverrideView {
        OverrideView { name: self.name@, version: self.version@ }
    }
}

/// Configuration of one resolution run.
pub struct BumpOptions {
    pub conventional_commits: bool,
    pub preid: Option<String>,
    pub release_as: Vec<ReleaseOverride>,
    pub promote_minor_on_major_dep: bool,
}

/// Why a package moved: a change record on a branch, or a classified
/// commit.
#[derive(Clone, Debug, PartialEq, Eq)]
pub enum Cause {
    Branch(String),
    Commit(String),
}

/// Mathematical model of a cause.
pub ghost enum CauseView {
    Branch(Seq<char>),
    Commit(Seq<char>),
}

impl View for Cause {
    type V = CauseView;

    open spec fn view(&self) -> CauseView {
        match self {
            Cause::Branch(b) => CauseView::Branch(b@),
            Cause::Commit(s) => CauseView::Commit(s@),
        }
    }
}

/// One package's version transition in the plan.
#[derive(Clone, Debug, PartialEq, Eq)]
pub struct BumpPackage {
    pub name: String,
    pub from: Version,
    pub to: Version,
    pub kind: BumpKind,
    pub causes: Vec<Cause>,
    pub cascaded: bool,
}

/// Mathematical model of a plan entry.
pub ghost struct BumpView {
    pub name: Seq<char>,
    pub from: VersionView,
    pub to: VersionView,
    pub kind: BumpKind,
    pub causes: Seq<CauseView>,
    pub cascaded: bool,
}

impl View for BumpPackage {
    type V = BumpView;

    open spec fn view(&self) -> BumpView {
        BumpView {
            name: self.name@,
            from: self.from@,
            to: self.to@,
            kind: self.kind,
            causes: cause_views(self.causes@),
            cascaded: self.cascaded,
        }
    }
}

/// The models of a list of causes, in order.
pub open spec fn cause_views(s: Seq<Cause>) -> Seq<CauseView> {
    s.map_values(|c: Cause| c@)
}

/// The models of a list of commits, in order.
pub open spec fn commit_views(s: Seq<CommitInfo>) -> Seq<CommitView> {
    s.map_values(|c: CommitInfo| c@)
}

/// The models of the per-package commit lists, in order.
pub open spec fn commit_rows(s: Seq<Vec<CommitInfo>>) -> Seq<Seq<CommitView>> {
    s.map_values(|r: Vec<CommitInfo>| commit_views(r@))
}

/// The models of a list of groups, in order.
pub open spec fn group_views(s: Seq<LinkedGroup>) -> Seq<GroupView> {
    s.map_values(|g: LinkedGroup| g@)
}

/// The models of a list of overrides, in order.
pub open spec fn override_views(s: Seq<ReleaseOverride>) -> Seq<OverrideView> {
    s.map_values(|o: ReleaseOverride| o@)
}

/// The combined bump kind that the change records assign to `name`: the
/// merge of the kinds of every record listing that package.
pub open spec fn record_kind(records: Seq<RecordView>, name: Seq<char>) -> BumpKind
    decreases records.len(),
{
    if records.len() == 0 {
        BumpKind::NoBump
    } else {
        record_kind(records.drop_last(), name).spec_merge(
            if records.last().packages.contains(name) {
                records.last().bump
            } else {
                BumpKind::NoBump
            },
        )
    }
}

/// The combined bump kind of a package's commits: the merge of every
/// commit message's classification.
pub open spec fn commits_kind(row: Seq<CommitView>) -> BumpKind
    decreases row.len(),
{
    if row.len() == 0 {
        BumpKind::NoBump
    } else {
        commits_kind(row.drop_last()).spec_merge(classify_spec(row.last().message))
    }
}

/// The override lookup from index `i` on: the first matching override wins.
pub open spec fn override_from(
    overrides: Seq<OverrideView>,
    i: int,
    name: Seq<char>,
) -> Option<VersionView>
    decreases overrides.len() - i,
{
    if i < 0 || i >= overrides.len() {
        None
    } else if overrides[i].name == name {
        Some(overrides[i].version)
    } else {
        override_from(overrides, i + 1, name)
    }
}

/// The target version that the overrides force on `name`, if any; the first
/// matching override wins.
pub open spec fn override_of(overrides: Seq<OverrideView>, name: Seq<char>) -> Option<VersionView> {
    override_from(overrides, 0, name)
}

/// The direct signal of package `i`: major when an override forces its
/// version, otherwise the merge of its change-record kind and (when
/// conventional commits are enabled) its commit-derived kind.
pub open spec fn direct_signal(
    packages: Seq<Package>,
    records: Seq<RecordView>,
    rows: Seq<Seq<CommitView>>,
    overrides: Seq<OverrideView>,
    conventional: bool,
    i: int,
) -> BumpKind {
    if override_of(overrides, packages[i]@.name) is Some {
        BumpKind::Major
    } else {
        record_kind(records, packages[i]@.name).spec_merge(
            if conventional {
                commits_kind(rows[i])
            } else {
                BumpKind::NoBump
            },
        )
    }
}

/// All direct signals, by package index.
pub open spec fn direct_signals(
    packages: Seq<Package>,
    records: Seq<RecordView>,
    rows: Seq<Seq<CommitView>>,
    overrides: Seq<OverrideView>,
    conventional: bool,
) -> Seq<BumpKind> {
    Seq::new(
        packages.len(),
        |i: int| direct_signal(packages, records, rows, overrides, conventional, i),
    )
}

/// What a dependency's final kind demands of its dependents: a `minor` or
/// `major` dependency bump forces at least a `patch` re-release, and a
/// `major` bump forces `minor` when promotion is configured.
pub open spec fn cascade_req(k: BumpKind, promote: bool) -> BumpKind {
    match k {
        BumpKind::Major => if promote {
            BumpKind::Minor
        } else {
            BumpKind::Patch
        },
        BumpKind::Minor => BumpKind::Patch,
        _ => BumpKind::NoBump,
    }
}

/// The merge of the cascade requirements of the first `k` dependencies of
/// node `i`.
pub open spec fn deps_req(
    kinds: Seq<BumpKind>,
    deps: Seq<Seq<usize>>,
    i: int,
    k: int,
    promote: bool,
) -> BumpKind
    decreases k,
{
    if k <= 0 {
        BumpKind::NoBump
    } else {
        deps_req(kinds, deps, i, k - 1, promote).spec_merge(
            cascade_req(kinds[deps[i][k - 1] as int], promote),
        )
    }
}

/// The kinds after one propagation step at node `i`: `i`'s kind is raised
/// to cover all its dependencies' requirements.
pub open spec fn prop_step(
    kinds: Seq<BumpKind>,
    deps: Seq<Seq<usize>>,
    i: int,
    promote: bool,
) -> Seq<BumpKind> {
    kinds.update(
        i,
        kinds[i].spec_merge(deps_req(kinds, deps, i, deps[i].len() as int, promote)),
    )
}

/// The kinds after one propagation pass: the nodes are visited in the order
/// `ord`, from position `p` on, each seeing the updates made before it.
pub open spec fn prop_pass(
    kinds: Seq<BumpKind>,
    deps: Seq<Seq<usize>>,
    ord: Seq<usize>,
    p: int,
    promote: bool,
) -> Seq<BumpKind>
    decreases ord.len() - p,
{
    if p < 0 || p >= ord.len() {
        kinds
    } else {
        prop_pass(prop_step(kinds, deps, ord[p] as int, promote), deps, ord, p + 1, promote)
    }
}

/// The merge of the kinds of the group members that are packages, by name.
pub open spec fn group_max(
    kinds: Seq<BumpKind>,
    names: Seq<Seq<char>>,
    members: Seq<Seq<char>>,
) -> BumpKind
    decreases members.len(),
{
    if members.len() == 0 {
        BumpKind::NoBump
    } else {
        let j = crate::graph::index_of_name(names, members.last());
        group_max(kinds, names, members.drop_last()).spec_merge(
            if j == -1 {
                BumpKind::NoBump
            } else {
                kinds[j]
            },
        )
    }
}

/// The kinds after normalizing one group: every member is raised to the
/// group's maximal member kind.
pub open spec fn apply_group(
    kinds: Seq<BumpKind>,
    names: Seq<Seq<char>>,
    members: Seq<Seq<char>>,
) -> Seq<BumpKind> {
    Seq::new(
        kinds.len(),
        |i: int|
            if members.contains(names[i]) {
                kinds[i].spec_merge(group_max(kinds, names, members))
            } else {
                kinds[i]
            },
    )
}

/// The kinds after normalizing the groups from index `gi` on, in order.
pub open spec fn apply_groups(
    kinds: Seq<BumpKind>,
    names: Seq<Seq<char>>,
    groups: Seq<GroupView>,
    gi: int,
) -> Seq<BumpKind>
    decreases groups.len() - gi,
{
    if gi < 0 || gi >= groups.len() {
        kinds
    } else {
        apply_groups(apply_group(kinds, names, groups[gi].members), names, groups, gi + 1)
    }
}

/// One full round of the fixpoint: a propagation pass over the whole order,
/// then group normalization.
pub open spec fn resolve_round(
    kinds: Seq<BumpKind>,
    deps: Seq<Seq<usize>>,
    ord: Seq<usize>,
    names: Seq<Seq<char>>,
    groups: Seq<GroupView>,
    promote: bool,
) -> Seq<BumpKind> {
    apply_groups(prop_pass(kinds, deps, ord, 0, promote), names, groups, 0)
}

/// `a` is pointwise at most `b` over the bump-kind lattice.
pub open spec fn le_pointwise(a: Seq<BumpKind>, b: Seq<BumpKind>) -> bool {
    a.len() == b.len() && forall|i: int| 0 <= i < a.len() ==> a[i].le(#[trigger] b[i])
}

/// The total of all kind levels: the potential that every promotion raises.
pub open spec fn sum_levels(s: Seq<BumpKind>) -> int
    decreases s.len(),
{
    if s.len() == 0 {
        0
    } else {
        sum_levels(s.drop_last()) + s.last().level()
    }
}

/// The potential is bounded by three per package: no more than
/// `3 × |packages|` promotion steps can ever happen.
pub proof fn lemma_sum_levels_bounds(s: Seq<BumpKind>)
    ensures
        0 <= sum_levels(s) <= 3 * s.len(),
    decreases s.len(),
{
    if s.len() > 0 {
        lemma_sum_levels_bounds(s.drop_last());
    }
}

/// A pointwise-larger kind vector has a larger potential, strictly so when
/// the vectors differ.
pub proof fn lemma_sum_levels_lt(a: Seq<BumpKind>, b: Seq<BumpKind>)
    requires
        le_pointwise(a, b),
    ensures
        sum_levels(a) <= sum_levels(b),
        a != b ==> sum_levels(a) < sum_levels(b),
    decreases a.len(),
{
    if a.len() == 0 {
        assert(a =~= b);
    } else {
        assert(le_pointwise(a.drop_last(), b.drop_last())) by {
            assert(forall|i: int|
                0 <= i < a.len() - 1 ==> a.drop_last()[i] == a[i] && b.drop_last()[i] == #[trigger] b[i]);
        }
        lemma_sum_levels_lt(a.drop_last(), b.drop_last());
        assert(a.last().le(b.last()));
        if a != b {
            if a.last() == b.last() {
                assert(a.drop_last() != b.drop_last()) by {
                    if a.drop_last() == b.drop_last() {
                        assert(forall|i: int|
                            0 <= i < a.len() - 1 ==> a[i] == a.drop_last()[i] && #[trigger] b[i]
                                == b.drop_last()[i]);
                        assert(a =~= b);
                    }
                }
            } else {
                crate::kind::lemma_level_injective(a.last(), b.last());
            }
        }
    }
}

/// A propagation pass never lowers a kind and keeps the length.
proof fn lemma_prop_pass_monotone(
    kinds: Seq<BumpKind>,
    deps: Seq<Seq<usize>>,
    ord: Seq<usize>,
    p: int,
    promote: bool,
)
    requires
        0 <= p,
        forall|q: int| 0 <= q < ord.len() ==> (ord[q] as int) < kinds.len(),
    ensures
        prop_pass(kinds, deps, ord, p, promote).len() == kinds.len(),
        le_pointwise(kinds, prop_pass(kinds, deps, ord, p, promote)),
    decreases ord.len() - p,
{
    if p >= ord.len() {
    } else {
        let i = ord[p] as int;
        let step = prop_step(kinds, deps, i, promote);
        assert(le_pointwise(kinds, step)) by {
            assert(forall|t: int| 0 <= t < kinds.len() ==> kinds[t].le(#[trigger] step[t]));
        }
        lemma_prop_pass_monotone(step, deps, ord, p + 1, promote);
        let res = prop_pass(kinds, deps, ord, p, promote);
        assert(le_pointwise(kinds, res)) by {
            assert(forall|t: int|
                0 <= t < kinds.len() ==> kinds[t].le(step[t]) && step[t].le(#[trigger] res[t]));
        }
    }
}

/// Normalizing one group never lowers a kind and keeps the length.
proof fn lemma_apply_group_monotone(kinds: Seq<BumpKind>, names: Seq<Seq<char>>, members: Seq<Seq<char>>)
    ensures
        apply_group(kinds, names, members).len() == kinds.len(),
        le_pointwise(kinds, apply_group(kinds, names, members)),
{
}

/// Normalizing the groups never lowers a kind and keeps the length.
proof fn lemma_apply_groups_monotone(
    kinds: Seq<BumpKind>,
    names: Seq<Seq<char>>,
    groups: Seq<GroupView>,
    gi: int,
)
    requires
        0 <= gi,
    ensures
        apply_groups(kinds, names, groups, gi).len() == kinds.len(),
        le_pointwise(kinds, apply_groups(kinds, names, groups, gi)),
    decreases groups.len() - gi,
{
    if gi >= groups.len() {
    } else {
        let step = apply_group(kinds, names, groups[gi].members);
        lemma_apply_group_monotone(kinds, names, groups[gi].members);
        lemma_apply_groups_monotone(step, names, groups, gi + 1);
        let res = apply_groups(kinds, names, groups, gi);
        assert(le_pointwise(kinds, res)) by {
            assert(forall|t: int|
                0 <= t < kinds.len() ==> kinds[t].le(step[t]) && step[t].le(#[trigger] res[t]));
        }
    }
}

/// One full round never lowers a kind and keeps the length.
pub proof fn lemma_round_monotone(
    kinds: Seq<BumpKind>,
    deps: Seq<Seq<usize>>,
    ord: Seq<usize>,
    names: Seq<Seq<char>>,
    groups: Seq<GroupView>,
    promote: bool,
)
    requires
        forall|q: int| 0 <= q < ord.len() ==> (ord[q] as int) < kinds.len(),
    ensures
        resolve_round(kinds, deps, ord, names, groups, promote).len() == kinds.len(),
        le_pointwise(kinds, resolve_round(kinds, deps, ord, names, groups, promote)),
{
    let mid = prop_pass(kinds, deps, ord, 0, promote);
    lemma_prop_pass_monotone(kinds, deps, ord, 0, promote);
    lemma_apply_groups_monotone(mid, names, groups, 0);
    let res = resolve_round(kinds, deps, ord, names, groups, promote);
    assert(le_pointwise(kinds, res)) by {
        assert(forall|t: int|
            0 <= t < kinds.len() ==> kinds[t].le(mid[t]) && mid[t].le(#[trigger] res[t]));
    }
}

/// Every dependency index stays below `n`.
pub open spec fn deps_wf(deps: Seq<Seq<usize>>, n: int) -> bool {
    forall|i: int, k: int|
        0 <= i < deps.len() && 0 <= k < deps[i].len() ==> (#[trigger] deps[i][k] as int) < n
}

/// The cascade requirement grows with the dependency's kind.
proof fn lemma_cascade_req_monotone(a: BumpKind, b: BumpKind, promote: bool)
    requires
        a.le(b),
    ensures
        cascade_req(a, promote).le(cascade_req(b, promote)),
{
}

/// The combined dependency requirement grows pointwise with the kinds.
proof fn lemma_deps_req_monotone(
    a: Seq<BumpKind>,
    b: Seq<BumpKind>,
    deps: Seq<Seq<usize>>,
    i: int,
    k: int,
    promote: bool,
)
    requires
        le_pointwise(a, b),
        deps_wf(deps, a.len() as int),
        0 <= i < deps.len(),
        k <= deps[i].len(),
    ensures
        deps_req(a, deps, i, k, promote).le(deps_req(b, deps, i, k, promote)),
    decreases k,
{
    if k > 0 {
        lemma_deps_req_monotone(a, b, deps, i, k - 1, promote);
        let d = deps[i][k - 1] as int;
        lemma_cascade_req_monotone(a[d], b[d], promote);
    }
}

/// One propagation step is pointwise monotone in the kinds.
proof fn lemma_prop_step_monotone_arg(
    a: Seq<BumpKind>,
    b: Seq<BumpKind>,
    deps: Seq<Seq<usize>>,
    i: int,
    promote: bool,
)
    requires
        le_pointwise(a, b),
        deps_wf(deps, a.len() as int),
        0 <= i < deps.len(),
        i < a.len(),
    ensures
        le_pointwise(prop_step(a, deps, i, promote), prop_step(b, deps, i, promote)),
{
    lemma_deps_req_monotone(a, b, deps, i, deps[i].len() as int, promote);
    let sa = prop_step(a, deps, i, promote);
    let sb = prop_step(b, deps, i, promote);
    assert(forall|t: int| 0 <= t < sa.len() ==> sa[t].le(#[trigger] sb[t]));
}

/// A propagation pass is pointwise monotone in the kinds.
proof fn lemma_prop_pass_monotone_arg(
    a: Seq<BumpKind>,
    b: Seq<BumpKind>,
    deps: Seq<Seq<usize>>,
    ord: Seq<usize>,
    p: int,
    promote: bool,
)
    requires
        le_pointwise(a, b),
        deps_wf(deps, a.len() as int),
        deps.len() == a.len(),
        forall|q: int| 0 <= q < ord.len() ==> (ord[q] as int) < a.len(),
    ensures
        le_pointwise(prop_pass(a, deps, ord, p, promote), prop_pass(b, deps, ord, p, promote)),
    decreases ord.len() - p,
{
    if 0 <= p < ord.len() {
        let i = ord[p] as int;
        lemma_prop_step_monotone_arg(a, b, deps, i, promote);
        lemma_prop_pass_monotone_arg(
            prop_step(a, deps, i, promote),
            prop_step(b, deps, i, promote),
            deps,
            ord,
            p + 1,
            promote,
        );
    }
}

/// A group's maximal kind grows pointwise with the kinds.
proof fn lemma_group_max_monotone_arg(
    a: Seq<BumpKind>,
    b: Seq<BumpKind>,
    names: Seq<Seq<char>>,
    members: Seq<Seq<char>>,
)
    requires
        le_pointwise(a, b),
        names.len() <= a.len(),
    ensures
        group_max(a, names, members).le(group_max(b, names, members)),
    decreases members.len(),
{
    if members.len() > 0 {
        lemma_group_max_monotone_arg(a, b, names, members.drop_last());
        crate::graph::lemma_index_of_name_bounds(names, members.last());
    }
}

/// Normalizing one group is pointwise monotone in the kinds.
proof fn lemma_apply_group_monotone_arg(
    a: Seq<BumpKind>,
    b: Seq<BumpKind>,
    names: Seq<Seq<char>>,
    members: Seq<Seq<char>>,
)
    requires
        le_pointwise(a, b),
        names.len() <= a.len(),
    ensures
        le_pointwise(apply_group(a, names, members), apply_group(b, names, members)),
{
    lemma_group_max_monotone_arg(a, b, names, members);
    let sa = apply_group(a, names, members);
    let sb = apply_group(b, names, members);
    assert(forall|t: int| 0 <= t < sa.len() ==> sa[t].le(#[trigger] sb[t]));
}

/// Normalizing the groups is pointwise monotone in the kinds.
proof fn lemma_apply_groups_monotone_arg(
    a: Seq<BumpKind>,
    b: Seq<BumpKind>,
    names: Seq<Seq<char>>,
    groups: Seq<GroupView>,
    gi: int,
)
    requires
        le_pointwise(a, b),
        names.len() <= a.len(),
    ensures
        le_pointwise(apply_groups(a, names, groups, gi), apply_groups(b, names, groups, gi)),
    decreases groups.len() - gi,
{
    if 0 <= gi < groups.len() {
        lemma_apply_group_monotone_arg(a, b, names, groups[gi].members);
        lemma_apply_groups_monotone_arg(
            apply_group(a, names, groups[gi].members),
            apply_group(b, names, groups[gi].members),
            names,
            groups,
            gi + 1,
        );
    }
}

/// One full round is pointwise monotone in the kinds: raising a signal never
/// lowers any final kind.
pub proof fn lemma_round_monotone_arg(
    a: Seq<BumpKind>,
    b: Seq<BumpKind>,
    deps: Seq<Seq<usize>>,
    ord: Seq<usize>,
    names: Seq<Seq<char>>,
    groups: Seq<GroupView>,
    promote: bool,
)
    requires
        le_pointwise(a, b),
        deps_wf(deps, a.len() as int),
        deps.len() == a.len(),
        names.len() <= a.len(),
        forall|q: int| 0 <= q < ord.len() ==> (ord[q] as int) < a.len(),
    ensures
        le_pointwise(
            resolve_round(a, deps, ord, names, groups, promote),
            resolve_round(b, deps, ord, names, groups, promote),
        ),
{
    lemma_prop_pass_monotone_arg(a, b, deps, ord, 0, promote);
    lemma_prop_pass_monotone(a, deps, ord, 0, promote);
    lemma_apply_groups_monotone_arg(
        prop_pass(a, deps, ord, 0, promote),
        prop_pass(b, deps, ord, 0, promote),
        names,
        groups,
        0,
    );
}

/// `kinds` lies below every assignment that dominates the signals and is
/// stable under one round: the fixpoint is the least such assignment, so the
/// plan never bumps more than the signals and the graph force.
pub open spec fn minimal_for(
    kinds: Seq<BumpKind>,
    signals: Seq<BumpKind>,
    deps: Seq<Seq<usize>>,
    ord: Seq<usize>,
    names: Seq<Seq<char>>,
    groups: Seq<GroupView>,
    promote: bool,
) -> bool {
    forall|z: Seq<BumpKind>|
        le_pointwise(signals, z) && resolve_round(z, deps, ord, names, groups, promote) == z
            ==> #[trigger] le_pointwise(kinds, z)
}

/// Convergence of the fixpoint: the potential `sum_levels` never exceeds
/// three per package, and any round that changes the kinds strictly raises
/// it — so the fixpoint settles within `3 × |packages|` promotion steps,
/// and a settled kind vector is stable under re-running a round.
pub proof fn lemma_fixpoint_converges(
    kinds: Seq<BumpKind>,
    deps: Seq<Seq<usize>>,
    ord: Seq<usize>,
    names: Seq<Seq<char>>,
    groups: Seq<GroupView>,
    promote: bool,
)
    requires
        forall|q: int| 0 <= q < ord.len() ==> (ord[q] as int) < kinds.len(),
    ensures
        0 <= sum_levels(kinds) <= 3 * kinds.len(),
        resolve_round(kinds, deps, ord, names, groups, promote) != kinds ==> sum_levels(
            resolve_round(kinds, deps, ord, names, groups, promote),
        ) > sum_levels(kinds),
{
    lemma_sum_levels_bounds(kinds);
    lemma_round_monotone(kinds, deps, ord, names, groups, promote);
    lemma_sum_levels_lt(kinds, resolve_round(kinds, deps, ord, names, groups, promote));
}

/// The branch causes of a package: the branches of the records that list it
/// with a nontrivial kind, in store order.
pub open spec fn branch_causes(records: Seq<RecordView>, name: Seq<char>) -> Seq<CauseView>
    decreases records.len(),
{
    if records.len() == 0 {
        Seq::empty()
    } else {
        branch_causes(records.drop_last(), name) + (
        if records.last().packages.contains(name) && records.last().bump != BumpKind::NoBump {
            seq![CauseView::Branch(records.last().branch)]
        } else {
            Seq::empty()
        })
    }
}

/// The commit causes of a package: the shas of its commits whose messages
/// classify to a nontrivial kind, in history order.
pub open spec fn sha_causes(row: Seq<CommitView>) -> Seq<CauseView>
    decreases row.len(),
{
    if row.len() == 0 {
        Seq::empty()
    } else {
        sha_causes(row.drop_last()) + (
        if classify_spec(row.last().message) != BumpKind::NoBump {
            seq![CauseView::Commit(row.last().sha)]
        } else {
            Seq::empty()
        })
    }
}

/// The full audit trail of a package: its branch causes, then — when
/// conventional commits are enabled — its commit causes.
pub open spec fn causes_of(
    records: Seq<RecordView>,
    row: Seq<CommitView>,
    name: Seq<char>,
    conventional: bool,
) -> Seq<CauseView> {
    branch_causes(records, name) + (
    if conventional {
        sha_causes(row)
    } else {
        Seq::empty()
    })
}

/// The names of the packages, by index.
pub open spec fn package_names(packages: Seq<Package>) -> Seq<Seq<char>> {
    Seq::new(packages.len(), |i: int| packages[i]@.name)
}

/// The resolved dependency lists of the packages, by index.
pub open spec fn package_deps(packages: Seq<Package>) -> Seq<Seq<usize>> {
    Seq::new(
        packages.len(),
        |i: int| crate::graph::resolve_names(package_names(packages), packages[i]@.deps),
    )
}

/// The view of an optional string.
pub open spec fn opt_str_view(o: Option<String>) -> Option<Seq<char>> {
    match o {
        Some(s) => Some(s@),
        None => None,
    }
}

/// The models of the plan entries, in order.
pub open spec fn plan_views(s: Seq<BumpPackage>) -> Seq<BumpView> {
    s.map_values(|b: BumpPackage| b@)
}

/// The version's components leave room for one increment.
pub open spec fn version_bumpable(v: VersionView) -> bool {
    &&& v.major < u64::MAX
    &&& v.minor < u64::MAX
    &&& v.patch < u64::MAX
    &&& (v.pre matches Some(p) ==> p.num < u64::MAX)
}

/// The indices below `n` whose final kind asks for a release, ascending.
pub open spec fn bumped_upto(kinds: Seq<BumpKind>, n: int) -> Seq<int>
    decreases n,
{
    if n <= 0 {
        Seq::empty()
    } else {
        bumped_upto(kinds, n - 1) + (
        if kinds[n - 1] != BumpKind::NoBump {
            seq![n - 1]
        } else {
            Seq::empty()
        })
    }
}

/// What one plan entry must say about package `i`.
pub open spec fn entry_ok(
    e: BumpView,
    packages: Seq<Package>,
    records: Seq<RecordView>,
    rows: Seq<Seq<CommitView>>,
    overrides: Seq<OverrideView>,
    conventional: bool,
    preid: Option<Seq<char>>,
    kinds: Seq<BumpKind>,
    i: int,
) -> bool {
    &&& 0 <= i < packages.len()
    &&& e.name == packages[i]@.name
    &&& e.from == packages[i]@.version
    &&& e.kind == kinds[i]
    &&& e.kind != BumpKind::NoBump
    &&& e.cascaded == (direct_signal(packages, records, rows, overrides, conventional, i)
        == BumpKind::NoBump)
    &&& e.causes == causes_of(records, rows[i], packages[i]@.name, conventional)
    &&& match override_of(overrides, packages[i]@.name) {
        Some(v) => e.to == v,
        None => e.to == bump_view(e.from, kinds[i], preid) && version_lt(e.from, e.to),
    }
}

/// The whole contract of a successful resolution: `ord` is a topological
/// order of the dependency graph; the final kinds dominate every direct
/// signal and are a fixpoint of one more propagation-and-groups round; and
/// the plan lists, in ascending package order, exactly the packages whose
/// final kind asks for a release, each entry carrying the version
/// transition, audit trail and cascade flag that [`entry_ok`] pins down.
pub open spec fn plan_ok(
    plan: Seq<BumpView>,
    packages: Seq<Package>,
    records: Seq<RecordView>,
    rows: Seq<Seq<CommitView>>,
    overrides: Seq<OverrideView>,
    conventional: bool,
    preid: Option<Seq<char>>,
    groups: Seq<GroupView>,
    promote: bool,
    kinds: Seq<BumpKind>,
    ord: Seq<usize>,
) -> bool {
    &&& is_topo_order(package_deps(packages), ord)
    &&& kinds.len() == packages.len()
    &&& le_pointwise(direct_signals(packages, records, rows, overrides, conventional), kinds)
    &&& resolve_round(kinds, package_deps(packages), ord, package_names(packages), groups, promote)
        == kinds
    &&& minimal_for(
        kinds,
        direct_signals(packages, records, rows, overrides, conventional),
        package_deps(packages),
        ord,
        package_names(packages),
        groups,
        promote,
    )
    &&& plan.len() == bumped_upto(kinds, kinds.len() as int).len()
    &&& forall|t: int|
        0 <= t < plan.len() ==> #[trigger] entry_ok(
            plan[t],
            packages,
            records,
            rows,
            overrides,
            conventional,
            preid,
            kinds,
            bumped_upto(kinds, kinds.len() as int)[t],
        )
}

/// A successful plan is justified by some topological order and final kind
/// vector: see [`plan_ok`].
pub open spec fn plan_justified(
    plan: Seq<BumpView>,
    packages: Seq<Package>,
    records: Seq<RecordView>,
    rows: Seq<Seq<CommitView>>,
    overrides: Seq<OverrideView>,
    conventional: bool,
    preid: Option<Seq<char>>,
    groups: Seq<GroupView>,
    promote: bool,
) -> bool {
    exists|kinds: Seq<BumpKind>, ord: Seq<usize>|
        #[trigger] plan_ok(
            plan,
            packages,
            records,
            rows,
            overrides,
            conventional,
            preid,
            groups,
            promote,
            kinds,
            ord,
        )
}

/// Whether two kind vectors are equal.
fn kinds_eq(a: &Vec<BumpKind>, b: &Vec<BumpKind>) -> (r: bool)
    ensures
        r == (a@ == b@),
{
    if a.len() != b.len() {
        return false;
    }
    let n = a.len();
    let mut i: usize = 0;
    while i < n
        invariant
            0 <= i <= n,
            n == a@.len(),
            n == b@.len(),
            forall|t: int| 0 <= t < i ==> a@[t] == b@[t],
        decreases n - i,
    {
        if a[i] != b[i] {
            return false;
        }
        i = i + 1;
    }
    proof {
        assert(a@ =~= b@);
    }
    true
}

/// An element-wise copy of a kind vector.
fn dup_kinds(v: &Vec<BumpKind>) -> (r: Vec<BumpKind>)
    ensures
        r@ == v@,
{
    let mut r: Vec<BumpKind> = Vec::new();
    let mut i: usize = 0;
    while i < v.len()
        invariant
            0 <= i <= v@.len(),
            r@ =~= v@.subrange(0, i as int),
        decreases v@.len() - i,
    {
        r.push(v[i]);
        proof {
            assert(r@ =~= v@.subrange(0, i + 1));
        }
        i = i + 1;
    }
    proof {
        assert(v@.subrange(0, v@.len() as int) =~= v@);
    }
    r
}

/// Index of the first override for `name`, if any.
fn find_override(overrides: &Vec<ReleaseOverride>, name: &str) -> (r: Option<usize>)
    ensures
        match r {
            Some(j) => (j as int) < overrides@.len() && override_of(
                override_views(overrides@),
                name@,
            ) == Some(overrides@[j as int]@.version),
            None => override_of(override_views(overrides@), name@) is None,
        },
{
    let ghost ovs = override_views(overrides@);
    let n = overrides.len();
    let mut i: usize = 0;
    loop
        invariant
            0 <= i <= n,
            n == overrides@.len(),
            ovs == override_views(overrides@),
            ovs.len() == n,
            override_from(ovs, i as int, name@) == override_from(ovs, 0, name@),
        ensures
            i <= n,
            i < n ==> (overrides@[i as int]@.name == name@ && override_from(ovs, 0, name@)
                == Some(overrides@[i as int]@.version)),
            i == n ==> override_from(ovs, 0, name@) is None,
        decreases n - i,
    {
        if i >= n {
            break;
        }
        proof {
            assert(ovs[i as int] == overrides@[i as int]@);
        }
        if str_eq(overrides[i].name.as_str(), name) {
            break;
        }
        i = i + 1;
    }
    if i < n {
        Some(i)
    } else {
        None
    }
}

/// Whether any of the strings equals `name` (against the deep view).
fn names_contain(v: &Vec<String>, name: &str) -> (r: bool)
    ensures
        r == v.deep_view().contains(name@),
{
    let n = v.len();
    let mut i: usize = 0;
    while i < n
        invariant
            0 <= i <= n,
            n == v@.len(),
            forall|t: int| 0 <= t < i ==> v.deep_view()[t] != name@,
        decreases n - i,
    {
        if str_eq(v[i].as_str(), name) {
            proof {
                assert(v.deep_view()[i as int] == name@);
            }
            return true;
        }
        proof {
            assert(v.deep_view()[i as int] == v@[i as int]@);
        }
        i = i + 1;
    }
    proof {
        if v.deep_view().contains(name@) {
            let t = choose|t: int| 0 <= t < v.deep_view().len() && v.deep_view()[t] == name@;
            assert(v.deep_view()[t] != name@);
        }
    }
    false
}

/// The combined change-record kind for `name`.
fn record_kind_exec(records: &Vec<ChangeRecord>, name: &str) -> (k: BumpKind)
    ensures
        k == record_kind(crate::changes::views_of(records@), name@),
{
    let ghost rv = crate::changes::views_of(records@);
    let mut acc = BumpKind::NoBump;
    let mut i: usize = 0;
    while i < records.len()
        invariant
            0 <= i <= records@.len(),
            rv == crate::changes::views_of(records@),
            rv.len() == records@.len(),
            acc == record_kind(rv.subrange(0, i as int), name@),
        decreases records@.len() - i,
    {
        let contributes = if names_contain(&records[i].packages, name) {
            records[i].bump
        } else {
            BumpKind::NoBump
        };
        proof {
            assert(rv.subrange(0, i + 1).drop_last() =~= rv.subrange(0, i as int));
            assert(rv.subrange(0, i + 1).last() == rv[i as int]);
            assert(rv[i as int] == records@[i as int]@);
        }
        acc = acc.merge(contributes);
        i = i + 1;
    }
    proof {
        assert(rv.subrange(0, rv.len() as int) =~= rv);
    }
    acc
}

/// The combined commit-derived kind of one package's history.
fn commits_kind_exec(row: &Vec<CommitInfo>) -> (k: BumpKind)
    ensures
        k == commits_kind(commit_views(row@)),
{
    let ghost cv = commit_views(row@);
    let mut acc = BumpKind::NoBump;
    let mut i: usize = 0;
    while i < row.len()
        invariant
            0 <= i <= row@.len(),
            cv == commit_views(row@),
            cv.len() == row@.len(),
            acc == commits_kind(cv.subrange(0, i as int)),
        decreases row@.len() - i,
    {
        let k = classify(row[i].message.as_str());
        proof {
            assert(cv.subrange(0, i + 1).drop_last() =~= cv.subrange(0, i as int));
            assert(cv.subrange(0, i + 1).last() == cv[i as int]);
            assert(cv[i as int] == row@[i as int]@);
        }
        acc = acc.merge(k);
        i = i + 1;
    }
    proof {
        assert(cv.subrange(0, cv.len() as int) =~= cv);
    }
    acc
}

/// The direct signal of every package, by index.
fn compute_signals(
    packages: &Vec<Package>,
    records: &Vec<ChangeRecord>,
    commits: &Vec<Vec<CommitInfo>>,
    overrides: &Vec<ReleaseOverride>,
    conventional: bool,
) -> (s: Vec<BumpKind>)
    requires
        commits@.len() == packages@.len(),
    ensures
        s@ == direct_signals(
            packages@,
            crate::changes::views_of(records@),
            commit_rows(commits@),
            override_views(overrides@),
            conventional,
        ),
{
    let ghost rv = crate::changes::views_of(records@);
    let ghost rows = commit_rows(commits@);
    let ghost ovs = override_views(overrides@);
    let mut s: Vec<BumpKind> = Vec::new();
    let mut i: usize = 0;
    while i < packages.len()
        invariant
            0 <= i <= packages@.len(),
            commits@.len() == packages@.len(),
            rv == crate::changes::views_of(records@),
            rows == commit_rows(commits@),
            ovs == override_views(overrides@),
            s@.len() == i,
            forall|t: int|
                0 <= t < i ==> s@[t] == direct_signal(packages@, rv, rows, ovs, conventional, t),
        decreases packages@.len() - i,
    {
        let name = &packages[i].name;
        let has_override = match find_override(overrides, name.as_str()) {
            Some(_) => true,
            None => false,
        };
        let k = if has_override {
            BumpKind::Major
        } else {
            let rk = record_kind_exec(records, name.as_str());
            let ck = if conventional {
                commits_kind_exec(&commits[i])
            } else {
                BumpKind::NoBump
            };
            proof {
                assert(rows[i as int] == commit_views(commits@[i as int]@));
            }
            rk.merge(ck)
        };
        s.push(k);
        i = i + 1;
    }
    proof {
        assert(s@ =~= direct_signals(packages@, rv, rows, ovs, conventional));
    }
    s
}

/// The executable cascade requirement of one dependency kind.
fn cascade_req_exec(k: BumpKind, promote: bool) -> (r: BumpKind)
    ensures
        r == cascade_req(k, promote),
{
    match k {
        BumpKind::Major => if promote {
            BumpKind::Minor
        } else {
            BumpKind::Patch
        },
        BumpKind::Minor => BumpKind::Patch,
        _ => BumpKind::NoBump,
    }
}

/// Run one in-place propagation pass over the order.
fn run_prop_pass(
    g: &PackageGraph,
    ord: &Vec<usize>,
    kinds: &mut Vec<BumpKind>,
    promote: bool,
)
    requires
        g.wf(),
        old(kinds)@.len() == g.node_count(),
        forall|q: int| 0 <= q < ord@.len() ==> (ord@[q] as int) < g.node_count(),
    ensures
        final(kinds)@ == prop_pass(old(kinds)@, g.dep_lists(), ord@, 0, promote),
        final(kinds)@.len() == old(kinds)@.len(),
    {
    let ghost deps = g.dep_lists();
    let ghost start = kinds@;
    let mut p: usize = 0;
    while p < ord.len()
        invariant
            0 <= p <= ord@.len(),
            g.wf(),
            kinds@.len() == g.node_count(),
            deps == g.dep_lists(),
            forall|q: int| 0 <= q < ord@.len() ==> (ord@[q] as int) < g.node_count(),
            prop_pass(kinds@, deps, ord@, p as int, promote) == prop_pass(start, deps, ord@, 0, promote),
        decreases ord@.len() - p,
    {
        let i = ord[p];
        let row = g.dep_row(i);
        let m = row.len();
        let mut req = BumpKind::NoBump;
        let mut k: usize = 0;
        while k < m
            invariant
                0 <= k <= m,
                g.wf(),
                (i as int) < g.node_count(),
                kinds@.len() == g.node_count(),
                deps == g.dep_lists(),
                row@ == deps[i as int],
                m == row@.len(),
                req == deps_req(kinds@, deps, i as int, k as int, promote),
            decreases m - k,
        {
            let d = row[k];
            req = req.merge(cascade_req_exec(kinds[d], promote));
            k = k + 1;
        }
        let ghost before = kinds@;
        let merged = kinds[i].merge(req);
        kinds[i] = merged;
        proof {
            assert(kinds@ == prop_step(before, deps, i as int, promote));
        }
        p = p + 1;
    }
}

/// The maximal kind among a group's members, by name.
fn group_max_exec(g: &PackageGraph, kinds: &Vec<BumpKind>, members: &Vec<String>) -> (r: BumpKind)
    requires
        g.wf(),
        kinds@.len() == g.node_count(),
    ensures
        r == group_max(kinds@, g.names(), crate::graph::string_views(members@)),
{
    let ghost ms = crate::graph::string_views(members@);
    let mut acc = BumpKind::NoBump;
    let mut i: usize = 0;
    while i < members.len()
        invariant
            0 <= i <= members@.len(),
            g.wf(),
            kinds@.len() == g.node_count(),
            ms == crate::graph::string_views(members@),
            ms.len() == members@.len(),
            acc == group_max(kinds@, g.names(), ms.subrange(0, i as int)),
        decreases members@.len() - i,
    {
        let contributes = match g.find_package(members[i].as_str()) {
            Some(j) => kinds[j],
            None => BumpKind::NoBump,
        };
        proof {
            assert(ms.subrange(0, i + 1).drop_last() =~= ms.subrange(0, i as int));
            assert(ms.subrange(0, i + 1).last() == ms[i as int]);
            assert(ms[i as int] == members@[i as int]@);
        }
        acc = acc.merge(contributes);
        i = i + 1;
    }
    proof {
        assert(ms.subrange(0, ms.len() as int) =~= ms);
    }
    acc
}

/// Normalize the groups in order, raising each member to its group's
/// maximal kind.
fn run_group_pass(g: &PackageGraph, groups: &Vec<LinkedGroup>, kinds: &mut Vec<BumpKind>)
    requires
        g.wf(),
        old(kinds)@.len() == g.node_count(),
    ensures
        final(kinds)@ == apply_groups(old(kinds)@, g.names(), group_views(groups@), 0),
        final(kinds)@.len() == old(kinds)@.len(),
{
    let ghost gvs = group_views(groups@);
    let ghost start = kinds@;
    let n = g.size();
    let mut gi: usize = 0;
    while gi < groups.len()
        invariant
            0 <= gi <= groups@.len(),
            g.wf(),
            kinds@.len() == g.node_count(),
            n as int == g.node_count(),
            gvs == group_views(groups@),
            gvs.len() == groups@.len(),
            apply_groups(kinds@, g.names(), gvs, gi as int) == apply_groups(start, g.names(), gvs, 0),
        decreases groups@.len() - gi,
    {
        let ghost snapshot = kinds@;
        let members = &groups[gi].members;
        proof {
            assert(gvs[gi as int] == groups@[gi as int]@);
        }
        let gmax = group_max_exec(g, kinds, members);
        let mut i: usize = 0;
        while i < n
            invariant
                0 <= i <= n,
                g.wf(),
                n as int == g.node_count(),
                kinds@.len() == g.node_count(),
                gmax == group_max(snapshot, g.names(), crate::graph::string_views(members@)),
                forall|t: int|
                    0 <= t < kinds@.len() ==> kinds@[t] == (
                    if t < i && crate::graph::string_views(members@).contains(g.names()[t]) {
                        snapshot[t].spec_merge(gmax)
                    } else {
                        snapshot[t]
                    }),
            decreases n - i,
        {
            let name_i = g.name_of(i);
            if names_contain(members, name_i.as_str()) {
                proof {
                    assert(members.deep_view() =~= crate::graph::string_views(members@));
                }
                let merged = kinds[i].merge(gmax);
                kinds[i] = merged;
            } else {
                proof {
                    assert(members.deep_view() =~= crate::graph::string_views(members@));
                }
            }
            i = i + 1;
        }
        proof {
            assert(kinds@ =~= apply_group(snapshot, g.names(), gvs[gi as int].members));
        }
        gi = gi + 1;
    }
}

/// Run propagation and group normalization to a fixpoint: the result
/// dominates the starting signals and one further round changes nothing.
fn resolve_kinds(
    g: &PackageGraph,
    ord: &Vec<usize>,
    signals: &Vec<BumpKind>,
    groups: &Vec<LinkedGroup>,
    promote: bool,
) -> (r: Vec<BumpKind>)
    requires
        g.wf(),
        signals@.len() == g.node_count(),
        forall|q: int| 0 <= q < ord@.len() ==> (ord@[q] as int) < g.node_count(),
    ensures
        r@.len() == signals@.len(),
        le_pointwise(signals@, r@),
        resolve_round(r@, g.dep_lists(), ord@, g.names(), group_views(groups@), promote) == r@,
        minimal_for(r@, signals@, g.dep_lists(), ord@, g.names(), group_views(groups@), promote),
{
    let ghost deps = g.dep_lists();
    let ghost names = g.names();
    let ghost gvs = group_views(groups@);
    let n = g.size();
    let mut kinds = dup_kinds(signals);
    proof {
        assert forall|z: Seq<BumpKind>|
            le_pointwise(signals@, z) && resolve_round(z, deps, ord@, names, gvs, promote)
                == z implies #[trigger] le_pointwise(kinds@, z) by {
        }
    }
    let mut done = false;
    loop
        invariant
            g.wf(),
            kinds@.len() == g.node_count(),
            signals@.len() == g.node_count(),
            n as int == g.node_count(),
            deps == g.dep_lists(),
            names == g.names(),
            gvs == group_views(groups@),
            forall|q: int| 0 <= q < ord@.len() ==> (ord@[q] as int) < g.node_count(),
            le_pointwise(signals@, kinds@),
            minimal_for(kinds@, signals@, deps, ord@, names, gvs, promote),
            done ==> resolve_round(kinds@, deps, ord@, names, gvs, promote) == kinds@,
        ensures
            kinds@.len() == signals@.len(),
            le_pointwise(signals@, kinds@),
            minimal_for(kinds@, signals@, deps, ord@, names, gvs, promote),
            resolve_round(kinds@, deps, ord@, names, gvs, promote) == kinds@,
        decreases 3 * (n as int) - sum_levels(kinds@) + (if done {
            0int
        } else {
            1int
        }),
    {
        if done {
            break;
        }
        let mut next = dup_kinds(&kinds);
        run_prop_pass(g, ord, &mut next, promote);
        run_group_pass(g, groups, &mut next);
        proof {
            assert(next@ == resolve_round(kinds@, deps, ord@, names, gvs, promote));
            lemma_round_monotone(kinds@, deps, ord@, names, gvs, promote);
            lemma_sum_levels_lt(kinds@, next@);
            lemma_sum_levels_bounds(next@);
        }
        if kinds_eq(&next, &kinds) {
            done = true;
        } else {
            proof {
                assert(le_pointwise(signals@, next@)) by {
                    assert(forall|t: int|
                        0 <= t < signals@.len() ==> signals@[t].le(kinds@[t]) && kinds@[t].le(
                            #[trigger] next@[t],
                        ));
                }
                assert forall|z: Seq<BumpKind>|
                    le_pointwise(signals@, z) && resolve_round(z, deps, ord@, names, gvs, promote)
                        == z implies #[trigger] le_pointwise(next@, z) by {
                    assert(le_pointwise(kinds@, z));
                    lemma_round_monotone_arg(kinds@, z, deps, ord@, names, gvs, promote);
                }
            }
            kinds = next;
        }
    }
    kinds
}

/// The branch causes of `name`, in store order.
fn branch_causes_exec(records: &Vec<ChangeRecord>, name: &str) -> (r: Vec<Cause>)
    ensures
        cause_views(r@) == branch_causes(crate::changes::views_of(records@), name@),
{
    let ghost rv = crate::changes::views_of(records@);
    let mut out: Vec<Cause> = Vec::new();
    let mut i: usize = 0;
    while i < records.len()
        invariant
            0 <= i <= records@.len(),
            rv == crate::changes::views_of(records@),
            rv.len() == records@.len(),
            cause_views(out@) == branch_causes(rv.subrange(0, i as int), name@),
        decreases records@.len() - i,
    {
        proof {
            assert(rv.subrange(0, i + 1).drop_last() =~= rv.subrange(0, i as int));
            assert(rv.subrange(0, i + 1).last() == rv[i as int]);
            assert(rv[i as int] == records@[i as int]@);
        }
        let hit = names_contain(&records[i].packages, name) && !(records[i].bump
            == BumpKind::NoBump);
        if hit {
            let ghost before = out@;
            out.push(Cause::Branch(records[i].branch.clone()));
            proof {
                assert(cause_views(out@) =~= cause_views(before).push(
                    CauseView::Branch(records@[i as int].branch@),
                ));
                assert(branch_causes(rv.subrange(0, i + 1), name@) =~= branch_causes(
                    rv.subrange(0, i as int),
                    name@,
                ).push(CauseView::Branch(rv[i as int].branch)));
            }
        } else {
            proof {
                assert(branch_causes(rv.subrange(0, i + 1), name@) =~= branch_causes(
                    rv.subrange(0, i as int),
                    name@,
                ));
            }
        }
        i = i + 1;
    }
    proof {
        assert(rv.subrange(0, rv.len() as int) =~= rv);
    }
    out
}

/// The commit causes of one package's history, in history order.
fn sha_causes_exec(row: &Vec<CommitInfo>) -> (r: Vec<Cause>)
    ensures
        cause_views(r@) == sha_causes(commit_views(row@)),
{
    let ghost cv = commit_views(row@);
    let mut out: Vec<Cause> = Vec::new();
    let mut i: usize = 0;
    while i < row.len()
        invariant
            0 <= i <= row@.len(),
            cv == commit_views(row@),
            cv.len() == row@.len(),
            cause_views(out@) == sha_causes(cv.subrange(0, i as int)),
        decreases row@.len() - i,
    {
        proof {
            assert(cv.subrange(0, i + 1).drop_last() =~= cv.subrange(0, i as int));
            assert(cv.subrange(0, i + 1).last() == cv[i as int]);
            assert(cv[i as int] == row@[i as int]@);
        }
        let k = classify(row[i].message.as_str());
        if !(k == BumpKind::NoBump) {
            let ghost before = out@;
            out.push(Cause::Commit(row[i].sha.clone()));
            proof {
                assert(cause_views(out@) =~= cause_views(before).push(
                    CauseView::Commit(row@[i as int].sha@),
                ));
                assert(sha_causes(cv.subrange(0, i + 1)) =~= sha_causes(
                    cv.subrange(0, i as int),
                ).push(CauseView::Commit(cv[i as int].sha)));
            }
        } else {
            proof {
                assert(sha_causes(cv.subrange(0, i + 1)) =~= sha_causes(cv.subrange(0, i as int)));
            }
        }
        i = i + 1;
    }
    proof {
        assert(cv.subrange(0, cv.len() as int) =~= cv);
    }
    out
}

/// Compute the bump plan for the discovered packages, given the pending
/// change records, the per-package commit histories (aligned with
/// `packages` by index), the linked groups and the options. A package whose
/// history could not be gathered degrades gracefully: hand in an empty
/// commit list and it simply contributes no commit-derived signal. On
/// success the plan satisfies [`plan_ok`] for the topological order used
/// and the final kind of every package; a dependency cycle aborts
/// resolution with the closed set of packages caught in it, and no plan is
/// produced.
#[verifier::spinoff_prover]
#[verifier::rlimit(50)]
pub fn get_bumps(
    packages: &Vec<Package>,
    records: &Vec<ChangeRecord>,
    commits: &Vec<Vec<CommitInfo>>,
    groups: &Vec<LinkedGroup>,
    options: &BumpOptions,
) -> (r: Result<Vec<BumpPackage>, GraphCycleError>)
    requires
        commits@.len() == packages@.len(),
        forall|i: int|
            0 <= i < packages@.len() ==> version_bumpable(#[trigger] packages@[i]@.version),
    ensures
        match r {
            Ok(plan) => plan_justified(
                plan_views(plan@),
                packages@,
                crate::changes::views_of(records@),
                commit_rows(commits@),
                override_views(options.release_as@),
                options.conventional_commits,
                opt_str_view(options.preid),
                group_views(groups@),
                options.promote_minor_on_major_dep,
            ),
            Err(e) => is_closed_dependent_set(package_deps(packages@), e.members@),
        },
{
    let ghost rv = crate::changes::views_of(records@);
    let ghost rows = commit_rows(commits@);
    let ghost ovs = override_views(options.release_as@);
    let g = PackageGraph::build(packages);
    proof {
        assert(g.names() =~= package_names(packages@));
        assert(g.dep_lists() =~= package_deps(packages@));
    }
    let ord = match g.topological_order() {
        Ok(o) => o,
        Err(e) => {
            proof {
                assert(is_closed_dependent_set(package_deps(packages@), e.members@));
            }
            return Err(e);
        },
    };
    let signals = compute_signals(
        packages,
        records,
        commits,
        &options.release_as,
        options.conventional_commits,
    );
    let kinds = resolve_kinds(&g, &ord, &signals, groups, options.promote_minor_on_major_dep);
    let ghost kv = kinds@;
    let plan = assemble_plan(packages, records, commits, options, &signals, &kinds);
    proof {
        assert(plan_ok(
            plan_views(plan@),
            packages@,
            rv,
            rows,
            ovs,
            options.conventional_commits,
            opt_str_view(options.preid),
            group_views(groups@),
            options.promote_minor_on_major_dep,
            kv,
            ord@,
        ));
        assert(plan_justified(
            plan_views(plan@),
            packages@,
            crate::changes::views_of(records@),
            commit_rows(commits@),
            override_views(options.release_as@),
            options.conventional_commits,
            opt_str_view(options.preid),
            group_views(groups@),
            options.promote_minor_on_major_dep,
        )) by {
            assert(plan_ok(
                plan_views(plan@),
                packages@,
                crate::changes::views_of(records@),
                commit_rows(commits@),
                override_views(options.release_as@),
                options.conventional_commits,
                opt_str_view(options.preid),
                group_views(groups@),
                options.promote_minor_on_major_dep,
                kv,
                ord@,
            ));
        }
    }
    Ok(plan)
}


/// Build the plan entries for the packages whose final kind asks for a
/// release, in ascending package order.
fn assemble_plan(
    packages: &Vec<Package>,
    records: &Vec<ChangeRecord>,
    commits: &Vec<Vec<CommitInfo>>,
    options: &BumpOptions,
    signals: &Vec<BumpKind>,
    kinds: &Vec<BumpKind>,
) -> (plan: Vec<BumpPackage>)
    requires
        commits@.len() == packages@.len(),
        kinds@.len() == packages@.len(),
        signals@ == direct_signals(
            packages@,
            crate::changes::views_of(records@),
            commit_rows(commits@),
            override_views(options.release_as@),
            options.conventional_commits,
        ),
        forall|i: int|
            0 <= i < packages@.len() ==> version_bumpable(#[trigger] packages@[i]@.version),
    ensures
        plan_views(plan@).len() == bumped_upto(kinds@, kinds@.len() as int).len(),
        forall|t: int|
            0 <= t < plan@.len() ==> #[trigger] entry_ok(
                plan_views(plan@)[t],
                packages@,
                crate::changes::views_of(records@),
                commit_rows(commits@),
                override_views(options.release_as@),
                options.conventional_commits,
                opt_str_view(options.preid),
                kinds@,
                bumped_upto(kinds@, kinds@.len() as int)[t],
            ),
{
    let ghost rv = crate::changes::views_of(records@);
    let ghost rows = commit_rows(commits@);
    let ghost ovs = override_views(options.release_as@);
    let ghost kv = kinds@;
    let n = packages.len();
    let mut plan: Vec<BumpPackage> = Vec::new();
    let mut i: usize = 0;
    while i < n
        invariant
            0 <= i <= n,
            n as int == packages@.len(),
            kinds@ == kv,
            kv.len() == packages@.len(),
            commits@.len() == packages@.len(),
            rv == crate::changes::views_of(records@),
            rows == commit_rows(commits@),
            ovs == override_views(options.release_as@),
            signals@ == direct_signals(
                packages@,
                rv,
                rows,
                ovs,
                options.conventional_commits,
            ),
            forall|t: int|
                0 <= t < packages@.len() ==> version_bumpable(#[trigger] packages@[t]@.version),
            plan_views(plan@).len() == bumped_upto(kv, i as int).len(),
            forall|t: int|
                0 <= t < plan@.len() ==> #[trigger] entry_ok(
                    plan_views(plan@)[t],
                    packages@,
                    rv,
                    rows,
                    ovs,
                    options.conventional_commits,
                    opt_str_view(options.preid),
                    kv,
                    bumped_upto(kv, i as int)[t],
                ),
        decreases n - i,
    {
        let ki = kinds[i];
        if !(ki == BumpKind::NoBump) {
            let name = &packages[i].name;
            let from = packages[i].version.duplicate();
            let mut causes = branch_causes_exec(records, name.as_str());
            let ghost bc = cause_views(causes@);
            if options.conventional_commits {
                let mut extra = sha_causes_exec(&commits[i]);
                proof {
                    assert(rows[i as int] == commit_views(commits@[i as int]@));
                }
                causes.append(&mut extra);
                proof {
                    assert(cause_views(causes@) =~= bc + sha_causes(rows[i as int]));
                }
            } else {
                proof {
                    assert(cause_views(causes@) =~= bc + Seq::<CauseView>::empty());
                }
            }
            let cascaded = signals[i] == BumpKind::NoBump;
            proof {
                assert(version_bumpable(packages@[i as int]@.version));
                assert(from@ == packages@[i as int]@.version);
            }
            let to = match find_override(&options.release_as, name.as_str()) {
                Some(j) => options.release_as[j].version.duplicate(),
                None => from.bump(ki, options.preid.as_ref()),
            };
            let entry = BumpPackage {
                name: name.clone(),
                from,
                to,
                kind: ki,
                causes,
                cascaded,
            };
            let ghost before = plan@;
            let ghost ev = entry@;
            plan.push(entry);
            proof {
                assert(plan_views(plan@) =~= plan_views(before).push(ev));
                assert(bumped_upto(kv, i + 1) =~= bumped_upto(kv, i as int).push(i as int));
                assert(entry_ok(
                    ev,
                    packages@,
                    rv,
                    rows,
                    ovs,
                    options.conventional_commits,
                    opt_str_view(options.preid),
                    kv,
                    i as int,
                ));
                assert forall|t: int| 0 <= t < plan@.len() implies #[trigger] entry_ok(
                    plan_views(plan@)[t],
                    packages@,
                    rv,
                    rows,
                    ovs,
                    options.conventional_commits,
                    opt_str_view(options.preid),
                    kv,
                    bumped_upto(kv, i + 1)[t],
                ) by {
                    if t < before.len() {
                        assert(plan_views(plan@)[t] == plan_views(before)[t]);
                        assert(bumped_upto(kv, i + 1)[t] == bumped_upto(kv, i as int)[t]);
                    } else {
                        assert(plan_views(plan@)[t] == ev);
                        assert(bumped_upto(kv, i + 1)[t] == i as int);
                    }
                }
            }
        } else {
            proof {
                assert(bumped_upto(kv, i + 1) =~= bumped_upto(kv, i as int));
            }
        }
        i = i + 1;
    }
    plan
}

} // verus!
