//! The package dependency graph.
//!
//! A graph is built from the discovered packages: node `i` is the `i`-th
//! package, and an edge `i -> j` means package `i` depends on package `j`.
//! Dependency names that match no discovered package are external to the
//! repository and are ignored; a name that matches several packages resolves
//! to the first. [`PackageGraph::topological_order`] yields an order with
//! dependencies first, or reports the set of packages caught in cycles —
//! a nonempty set in which every member depends on another member, which
//! [`lemma_closed_set_blocks_topo`] shows admits no valid order at all.

use vstd::prelude::*;
use crate::semver::{Version, VersionView};
use crate::strutil::str_eq;

verus! {

/// A package discovered in the repository: its manifest data, immutable
/// during one resolution run.
#[derive(Clone, Debug, PartialEq, Eq)]
pub struct Package {
    pub name: String,
    pub version: Version,
    pub manifest_path: String,
    pub deps: Vec<String>,
    pub private: bool,
}

/// Mathematical model of a package.
pub ghost struct PackageView {
    pub name: Seq<char>,
    pub version: VersionView,
    pub manifest_path: Seq<char>,
    pub deps: Seq<Seq<char>>,
    pub private: bool,
}

impl View for Package {
    type V = PackageView;

    open spec fn view(&self) -> PackageView {
        PackageView {
            name: self.name@,
            version: self.version@,
            manifest_path: self.manifest_path@,
            deps: string_views(self.deps@),
            private: self.private,
        }
    }
}

impl Package {
    /// Build a package from raw manifest data, parsing its version string.
    /// An unparseable version is rejected here, before any resolution
    /// starts: a run never works with a half-read package set.
    pub fn from_manifest(
        name: String,
        version: &str,
        manifest_path: String,
        deps: Vec<String>,
        private: bool,
    ) -> (r: Result<Package, crate::parse::InvalidSemverError>)
        ensures
            match r {
                Ok(p) => {
                    &&& crate::parse::parse_view(version@) == Some(p@.version)
                    &&& p@.name == name@
                    &&& p@.manifest_path == manifest_path@
                    &&& p@.deps == string_views(deps@)
                    &&& p@.private == private
                },
                Err(_) => crate::parse::parse_view(version@) is None,
            },
    {
        let parsed = crate::parse::parse_version(version)?;
        Ok(Package { name, version: parsed, manifest_path, deps, private })
    }
}

/// The character sequences of a list of strings, in order.
pub open spec fn string_views(v: Seq<String>) -> Seq<Seq<char>> {
    v.map_values(|s: String| s@)
}

/// The index sequences of a list of index vectors, in order.
pub open spec fn row_views(v: Seq<Vec<usize>>) -> Seq<Seq<usize>> {
    v.map_values(|r: Vec<usize>| r@)
}

/// Index of the first name equal to `d` at or after `i`, or `-1`.
pub open spec fn index_of_name_from(names: Seq<Seq<char>>, i: int, d: Seq<char>) -> int
    decreases names.len() - i,
{
    if i < 0 || i >= names.len() {
        -1
    } else if names[i] == d {
        i
    } else {
        index_of_name_from(names, i + 1, d)
    }
}

/// Index of the first name equal to `d`, or `-1` when no package has it.
pub open spec fn index_of_name(names: Seq<Seq<char>>, d: Seq<char>) -> int {
    index_of_name_from(names, 0, d)
}

/// The dependency indices a list of dependency names resolves to, in order,
/// names foreign to `names` skipped.
pub open spec fn resolve_names(names: Seq<Seq<char>>, deps: Seq<Seq<char>>) -> Seq<usize>
    decreases deps.len(),
{
    if deps.len() == 0 {
        Seq::empty()
    } else {
        let rest = resolve_names(names, deps.drop_last());
        let i = index_of_name(names, deps.last());
        if i == -1 {
            rest
        } else {
            rest.push(i as usize)
        }
    }
}

/// A resolved index is a real index into `names`.
proof fn lemma_index_of_name_from_bounds(names: Seq<Seq<char>>, i: int, d: Seq<char>)
    requires
        0 <= i <= names.len(),
    ensures
        index_of_name_from(names, i, d) == -1 || i <= index_of_name_from(names, i, d)
            < names.len(),
    decreases names.len() - i,
{
    if i < names.len() && names[i] != d {
        lemma_index_of_name_from_bounds(names, i + 1, d);
    }
}

/// A found name index is a real index into `names`.
pub proof fn lemma_index_of_name_bounds(names: Seq<Seq<char>>, d: Seq<char>)
    ensures
        index_of_name(names, d) == -1 || 0 <= index_of_name(names, d) < names.len(),
{
    lemma_index_of_name_from_bounds(names, 0, d);
}

/// Every index a name list resolves to is a real index into `names`.
proof fn lemma_resolve_names_bounds(names: Seq<Seq<char>>, deps: Seq<Seq<char>>)
    ensures
        forall|k: int| 0 <= k < resolve_names(names, deps).len() ==> (resolve_names(names, deps)[k]
            as int) < names.len(),
    decreases deps.len(),
{
    if deps.len() > 0 {
        lemma_resolve_names_bounds(names, deps.drop_last());
        lemma_index_of_name_from_bounds(names, 0, deps.last());
        let r = resolve_names(names, deps);
        let rest = resolve_names(names, deps.drop_last());
        let i = index_of_name(names, deps.last());
        assert forall|k: int| 0 <= k < r.len() implies (r[k] as int) < names.len() by {
            if i == -1 {
                assert(r[k] == rest[k]);
            } else if k < rest.len() {
                assert(r[k] == rest[k]);
            } else {
                assert(r[k] == i as usize);
            }
        }
    }
}

/// The number of `true` entries.
pub open spec fn count_true(s: Seq<bool>) -> int
    decreases s.len(),
{
    if s.len() == 0 {
        0
    } else {
        count_true(s.drop_last()) + if s.last() {
            1int
        } else {
            0int
        }
    }
}

/// Counting is bounded by the length, and a full count means every entry is
/// `true`.
proof fn lemma_count_true_bounds(s: Seq<bool>)
    ensures
        0 <= count_true(s) <= s.len(),
        count_true(s) == s.len() ==> forall|i: int| 0 <= i < s.len() ==> s[i],
        (forall|i: int| 0 <= i < s.len() ==> s[i]) ==> count_true(s) == s.len(),
    decreases s.len(),
{
    if s.len() > 0 {
        lemma_count_true_bounds(s.drop_last());
        assert(forall|i: int| 0 <= i < s.len() - 1 ==> s.drop_last()[i] == s[i]);
    }
}

/// Turning one `false` entry `true` raises the count by one.
proof fn lemma_count_true_set(s: Seq<bool>, i: int)
    requires
        0 <= i < s.len(),
        !s[i],
    ensures
        count_true(s.update(i, true)) == count_true(s) + 1,
    decreases s.len(),
{
    let t = s.update(i, true);
    if i == s.len() - 1 {
        assert(t.drop_last() =~= s.drop_last());
    } else {
        assert(t.drop_last() =~= s.drop_last().update(i, true));
        lemma_count_true_set(s.drop_last(), i);
    }
}

/// Node `d` stands at some position strictly before `p` in `order`.
pub open spec fn appears_before(order: Seq<usize>, p: int, d: usize) -> bool {
    exists|q: int| 0 <= q < p && order[q] == d
}

/// `ord` is a valid topological order for the dependency lists `deps`:
/// it lists every node exactly once, and every dependency of a node stands
/// earlier in the order than the node itself.
pub open spec fn is_topo_order(deps: Seq<Seq<usize>>, ord: Seq<usize>) -> bool {
    &&& ord.len() == deps.len()
    &&& forall|p: int| 0 <= p < ord.len() ==> (ord[p] as int) < deps.len()
    &&& forall|p: int, q: int| 0 <= p < q < ord.len() ==> ord[p] != ord[q]
    &&& forall|i: usize| (i as int) < deps.len() ==> #[trigger] ord.contains(i)
    &&& forall|p: int, k: int|
        0 <= p < ord.len() && 0 <= k < deps[ord[p] as int].len() ==> #[trigger] appears_before(
            ord,
            p,
            deps[ord[p] as int][k],
        )
}

/// Some dependency of node `m` is itself a member of `members`.
pub open spec fn has_member_dep(deps: Seq<Seq<usize>>, members: Seq<usize>, m: usize) -> bool {
    exists|k: int| 0 <= k < deps[m as int].len() && members.contains(deps[m as int][k])
}

/// `members` is a nonempty set of nodes each of which depends on another
/// member: the witness of a dependency cycle.
pub open spec fn is_closed_dependent_set(deps: Seq<Seq<usize>>, members: Seq<usize>) -> bool {
    &&& members.len() > 0
    &&& forall|p: int| 0 <= p < members.len() ==> (members[p] as int) < deps.len()
    &&& forall|p: int|
        0 <= p < members.len() ==> #[trigger] has_member_dep(deps, members, members[p])
}

/// Invariant of the order-building loop: `placed` marks exactly the nodes of
/// `order`, which is a duplicate-free sequence of in-range nodes whose
/// dependencies all stand earlier.
pub open spec fn kahn_inv(deps: Seq<Seq<usize>>, order: Seq<usize>, placed: Seq<bool>) -> bool {
    &&& placed.len() == deps.len()
    &&& count_true(placed) == order.len()
    &&& order.len() <= deps.len()
    &&& forall|p: int| 0 <= p < order.len() ==> (order[p] as int) < deps.len()
    &&& forall|i: usize| (i as int) < deps.len() ==> (placed[i as int] <==> #[trigger] order.contains(i))
    &&& forall|p: int, q: int| 0 <= p < q < order.len() ==> order[p] != order[q]
    &&& forall|p: int, k: int|
        0 <= p < order.len() && 0 <= k < deps[order[p] as int].len() ==> #[trigger] appears_before(
            order,
            p,
            deps[order[p] as int][k],
        )
}

/// Every unplaced node still waits for an unplaced dependency: no further
/// node can ever be placed.
pub open spec fn kahn_blocked(deps: Seq<Seq<usize>>, placed: Seq<bool>) -> bool {
    forall|i: int|
        0 <= i < deps.len() && !placed[i] ==> exists|k: int|
            0 <= k < deps[i].len() && !placed[#[trigger] deps[i][k] as int]
}

/// No prefix of a topological order may touch a closed dependent set: each
/// member waits for another member, so none can come first.
proof fn lemma_no_member_before(deps: Seq<Seq<usize>>, members: Seq<usize>, ord: Seq<usize>, q: int)
    requires
        is_closed_dependent_set(deps, members),
        is_topo_order(deps, ord),
        0 <= q <= ord.len(),
    ensures
        forall|p: int| 0 <= p < q ==> !members.contains(ord[p]),
    decreases q,
{
    if q > 0 {
        lemma_no_member_before(deps, members, ord, q - 1);
        if members.contains(ord[q - 1]) {
            let mp = choose|mp: int| 0 <= mp < members.len() && members[mp] == ord[q - 1];
            assert(has_member_dep(deps, members, members[mp]));
            let k = choose|k: int|
                0 <= k < deps[members[mp] as int].len() && members.contains(
                    deps[members[mp] as int][k],
                );
            let d = deps[members[mp] as int][k];
            assert(appears_before(ord, q - 1, d));
            let r = choose|r: int| 0 <= r < q - 1 && ord[r] == d;
            assert(members.contains(ord[r]));
        }
    }
}

/// A dependency graph holding a closed dependent set — a cycle — admits no
/// topological order: resolution fails exactly on the graphs where no valid
/// order exists.
pub proof fn lemma_closed_set_blocks_topo(
    deps: Seq<Seq<usize>>,
    members: Seq<usize>,
    ord: Seq<usize>,
)
    requires
        is_closed_dependent_set(deps, members),
    ensures
        !is_topo_order(deps, ord),
{
    if is_topo_order(deps, ord) {
        lemma_no_member_before(deps, members, ord, ord.len() as int);
        let m = members[0];
        assert(ord.contains(m));
        let p = choose|p: int| 0 <= p < ord.len() && ord[p] == m;
        assert(members.contains(ord[p]));
    }
}

/// The set of nodes caught in dependency cycles; resolution aborts rather
/// than silently breaking them.
#[derive(Clone, Debug, PartialEq, Eq)]
pub struct GraphCycleError {
    pub members: Vec<usize>,
}

/// The dependency graph over the discovered packages.
pub struct PackageGraph {
    names: Vec<String>,
    deps_idx: Vec<Vec<usize>>,
}

impl PackageGraph {
    /// The package names, by node index.
    pub closed spec fn names(self) -> Seq<Seq<char>> {
        string_views(self.names@)
    }

    /// The dependency lists, by node index.
    pub closed spec fn dep_lists(self) -> Seq<Seq<usize>> {
        row_views(self.deps_idx@)
    }

    /// Number of nodes.
    pub open spec fn node_count(self) -> int {
        self.names().len() as int
    }

    /// Well-formed: one dependency list per node, every index in range.
    pub open spec fn wf(self) -> bool {
        &&& self.dep_lists().len() == self.names().len()
        &&& forall|i: int, k: int|
            0 <= i < self.dep_lists().len() && 0 <= k < self.dep_lists()[i].len() ==> (
            self.dep_lists()[i][k] as int) < self.names().len()
    }

    /// Number of packages in the graph.
    pub fn size(&self) -> (n: usize)
        ensures
            n as int == self.node_count(),
    {
        self.names.len()
    }

    /// The name of package `i`.
    pub fn name_of(&self, i: usize) -> (r: &String)
        requires
            (i as int) < self.node_count(),
        ensures
            r@ == self.names()[i as int],
    {
        proof {
            assert(self.names()[i as int] == self.names@[i as int]@);
        }
        &self.names[i]
    }

    /// The dependency list of package `i`.
    pub fn dep_row(&self, i: usize) -> (r: &Vec<usize>)
        requires
            (i as int) < self.dep_lists().len(),
        ensures
            r@ == self.dep_lists()[i as int],
    {
        proof {
            assert(self.dep_lists()[i as int] == self.deps_idx@[i as int]@);
        }
        &self.deps_idx[i]
    }

    /// Index of the first package named `name`, if any.
    pub fn find_package(&self, name: &str) -> (r: Option<usize>)
        ensures
            match r {
                Some(i) => i < self.names().len() && index_of_name(self.names(), name@) == i as int,
                None => index_of_name(self.names(), name@) == -1,
            },
    {
        find_name(&self.names, name)
    }

    /// Build the graph: resolve each package's dependency names against the
    /// discovered package set, ignoring names that point outside it.
    pub fn build(packages: &Vec<Package>) -> (g: PackageGraph)
        ensures
            g.wf(),
            g.names().len() == packages@.len(),
            forall|i: int| 0 <= i < packages@.len() ==> g.names()[i] == packages@[i]@.name,
            g.dep_lists().len() == packages@.len(),
            forall|i: int| 0 <= i < packages@.len() ==> g.dep_lists()[i] == resolve_names(
                g.names(),
                packages@[i]@.deps,
            ),
    {
        let mut names: Vec<String> = Vec::new();
        let mut i: usize = 0;
        while i < packages.len()
            invariant
                0 <= i <= packages@.len(),
                names@.len() == i,
                forall|t: int| 0 <= t < i ==> names@[t]@ == packages@[t]@.name,
            decreases packages@.len() - i,
        {
            let ghost bv = names@;
            names.push(packages[i].name.clone());
            proof {
                assert forall|t: int| 0 <= t < i + 1 implies names@[t]@ == packages@[t]@.name by {
                    if t < i {
                        assert(names@[t] == bv[t]);
                    } else {
                        assert(names@[t]@ == packages@[t].name@);
                    }
                }
            }
            i = i + 1;
        }
        let mut deps_idx: Vec<Vec<usize>> = Vec::new();
        let mut i: usize = 0;
        while i < packages.len()
            invariant
                0 <= i <= packages@.len(),
                names@.len() == packages@.len(),
                forall|t: int| 0 <= t < packages@.len() ==> names@[t]@ == packages@[t]@.name,
                deps_idx@.len() == i,
                forall|t: int| 0 <= t < i ==> deps_idx@[t]@ == resolve_names(
                    string_views(names@),
                    packages@[t]@.deps,
                ),
            decreases packages@.len() - i,
        {
            let row = resolve_list(&names, &packages[i].deps);
            let ghost dv = deps_idx@;
            deps_idx.push(row);
            proof {
                assert forall|t: int| 0 <= t < i + 1 implies deps_idx@[t]@ == resolve_names(
                    string_views(names@),
                    packages@[t]@.deps,
                ) by {
                    if t < i {
                        assert(deps_idx@[t] == dv[t]);
                    } else {
                        assert(deps_idx@[t]@ == row@);
                    }
                }
            }
            i = i + 1;
        }
        let g = PackageGraph { names, deps_idx };
        proof {
            assert forall|t: int| 0 <= t < packages@.len() implies g.names()[t] == packages@[t]@.name by {
                assert(g.names()[t] == names@[t]@);
            }
            assert forall|t: int| 0 <= t < packages@.len() implies g.dep_lists()[t] == resolve_names(
                g.names(),
                packages@[t]@.deps,
            ) by {
                assert(g.dep_lists()[t] == deps_idx@[t]@);
            }
        }
        proof {
            assert forall|i: int, k: int|
                0 <= i < g.dep_lists().len() && 0 <= k < g.dep_lists()[i].len() implies (
            g.dep_lists()[i][k] as int) < g.names().len() by {
                lemma_resolve_names_bounds(g.names(), packages@[i]@.deps);
            }
        }
        g
    }

    /// The node indices of the packages that directly depend on `name`, in
    /// ascending order; empty when `name` is not a package.
    pub fn dependents_of(&self, name: &str) -> (r: Vec<usize>)
        requires
            self.wf(),
        ensures
            forall|i: int| 0 <= i < r@.len() ==> (r@[i] as int) < self.node_count(),
            forall|i: int, j: int| 0 <= i < j < r@.len() ==> r@[i] < r@[j],
            forall|t: usize|
                (t as int) < self.dep_lists().len() ==> (#[trigger] r@.contains(t) <==> (
                index_of_name(self.names(), name@) >= 0 && self.dep_lists()[t as int].contains(
                    index_of_name(self.names(), name@) as usize,
                ))),
    {
        let mut out: Vec<usize> = Vec::new();
        let j = match self.find_package(name) {
            Some(j) => j,
            None => {
                return out;
            },
        };
        let n = self.deps_idx.len();
        let mut i: usize = 0;
        while i < n
            invariant
                0 <= i <= n,
                n == self.dep_lists().len(),
                j as int == index_of_name(self.names(), name@),
                forall|p: int| 0 <= p < out@.len() ==> (out@[p] as int) < i,
                forall|p: int, q: int| 0 <= p < q < out@.len() ==> out@[p] < out@[q],
                forall|t: usize|
                    (t as int) < i ==> (#[trigger] out@.contains(t) <==> self.dep_lists()[t
                        as int].contains(j)),
            decreases n - i,
        {
            if contains_idx(&self.deps_idx[i], j) {
                let ghost before = out@;
                out.push(i);
                proof {
                    assert(out@ == before.push(i));
                    assert forall|t: usize|
                        (t as int) < i + 1 implies (#[trigger] out@.contains(t)
                        <==> self.dep_lists()[t as int].contains(j)) by {
                        if out@.contains(t) {
                            let p = choose|p: int| 0 <= p < out@.len() && out@[p] == t;
                            if p < before.len() {
                                assert(before.contains(t));
                            }
                        }
                        if (t as int) < i && self.dep_lists()[t as int].contains(j) {
                            assert(before.contains(t));
                            let p = choose|p: int|
                                0 <= p < before.len() && before[p] == t;
                            assert(out@[p] == t);
                        }
                        if t == i {
                            assert(out@[before.len() as int] == t);
                        }
                    }
                }
            } else {
                proof {
                    assert forall|t: usize|
                        (t as int) < i + 1 implies (#[trigger] out@.contains(t)
                        <==> self.dep_lists()[t as int].contains(j)) by {
                        if out@.contains(t) {
                            let p = choose|p: int| 0 <= p < out@.len() && out@[p] == t;
                            assert((out@[p] as int) < i);
                        }
                    }
                }
            }
            i = i + 1;
        }
        out
    }

    /// A topological order of the packages, dependencies first, or the set
    /// of packages caught in cycles. The `Err` set is closed — every member
    /// depends on another member — so by
    /// [`lemma_closed_set_blocks_topo`] the graph has no topological order
    /// at all.
    pub fn topological_order(&self) -> (r: Result<Vec<usize>, GraphCycleError>)
        requires
            self.wf(),
        ensures
            match r {
                Ok(ord) => is_topo_order(self.dep_lists(), ord@),
                Err(e) => is_closed_dependent_set(self.dep_lists(), e.members@),
            },
    {
        let n = self.names.len();
        let mut order: Vec<usize> = Vec::new();
        let mut placed: Vec<bool> = Vec::new();
        let mut i: usize = 0;
        while i < n
            invariant
                0 <= i <= n,
                placed@.len() == i,
                forall|t: int| 0 <= t < i ==> !placed@[t],
                count_true(placed@) == 0,
            decreases n - i,
        {
            let ghost before = placed@;
            placed.push(false);
            proof {
                assert(placed@.drop_last() =~= before);
            }
            i = i + 1;
        }
        let mut stalled = false;
        loop
            invariant
                n == self.names().len(),
                n == self.dep_lists().len(),
                self.wf(),
                kahn_inv(self.dep_lists(), order@, placed@),
                stalled ==> kahn_blocked(self.dep_lists(), placed@),
            ensures
                n == self.dep_lists().len(),
                kahn_inv(self.dep_lists(), order@, placed@),
                order@.len() == n || kahn_blocked(self.dep_lists(), placed@),
            decreases n - order@.len() + (if stalled { 0int } else { 1int }),
        {
            if stalled || order.len() == n {
                break;
            }
            let ghost len0 = order@.len();
            let mut progress = false;
            let mut i: usize = 0;
            while i < n
                invariant
                    0 <= i <= n,
                    n == self.dep_lists().len(),
                    self.wf(),
                    kahn_inv(self.dep_lists(), order@, placed@),
                    order@.len() >= len0,
                    progress ==> order@.len() > len0,
                    !progress ==> forall|i2: int|
                        0 <= i2 < i && !placed@[i2] ==> exists|k: int|
                            0 <= k < self.dep_lists()[i2].len() && !placed@[#[trigger] self.dep_lists()[i2][k]
                                as int],
                decreases n - i,
            {
                if !placed[i] && self.deps_placed(i, &placed) {
                    self.place_node(i, &mut order, &mut placed);
                    progress = true;
                }
                i = i + 1;
            }
            if !progress {
                stalled = true;
            }
        }
        if order.len() == n {
            proof {
                lemma_count_true_bounds(placed@);
                assert forall|i2: usize| (i2 as int) < n implies #[trigger] order@.contains(
                    i2,
                ) by {
                    assert(placed@[i2 as int]);
                }
            }
            Ok(order)
        } else {
            let members = collect_unplaced(&placed);
            proof {
                lemma_count_true_bounds(placed@);
                assert(members@.len() > 0) by {
                    if forall|i2: int| 0 <= i2 < placed@.len() ==> placed@[i2] {
                        assert(count_true(placed@) == n);
                    } else {
                        let i2 = choose|i2: int| 0 <= i2 < placed@.len() && !placed@[i2];
                        assert(members@.contains(i2 as usize));
                        assert(members@.len() > 0);
                    }
                }
                assert forall|p: int| 0 <= p < members@.len() implies #[trigger] has_member_dep(
                    self.dep_lists(),
                    members@,
                    members@[p],
                ) by {
                    let m = members@[p];
                    assert(members@.contains(m));
                    assert(!placed@[m as int]);
                    let k = choose|k: int|
                        0 <= k < self.dep_lists()[m as int].len() && !placed@[self.dep_lists()[m
                            as int][k] as int];
                    assert(members@.contains(self.dep_lists()[m as int][k]));
                    assert(0 <= k < self.dep_lists()[m as int].len() && members@.contains(
                        self.dep_lists()[m as int][k],
                    ));
                }
            }
            Err(GraphCycleError { members })
        }
    }

    /// Append node `i`, whose dependencies are all placed, to the order.
    fn place_node(&self, i: usize, order: &mut Vec<usize>, placed: &mut Vec<bool>)
        requires
            self.wf(),
            kahn_inv(self.dep_lists(), old(order)@, old(placed)@),
            (i as int) < self.dep_lists().len(),
            !old(placed)@[i as int],
            forall|k: int|
                0 <= k < self.dep_lists()[i as int].len() ==> old(placed)@[self.dep_lists()[i
                    as int][k] as int],
        ensures
            kahn_inv(self.dep_lists(), final(order)@, final(placed)@),
            final(order)@.len() == old(order)@.len() + 1,
    {
        let ghost deps = self.dep_lists();
        let ghost before_placed = placed@;
        let ghost before_order = order@;
        proof {
            lemma_count_true_bounds(placed@);
            lemma_count_true_set(placed@, i as int);
        }
        order.push(i);
        placed[i] = true;
        proof {
            assert(placed@ == before_placed.update(i as int, true));
            assert(order@ == before_order.push(i));
            lemma_count_true_bounds(placed@);
            assert forall|i2: usize|
                (i2 as int) < deps.len() implies (placed@[i2 as int] <==> #[trigger] order@.contains(
                i2,
            )) by {
                if i2 == i {
                    assert(order@[before_order.len() as int] == i);
                    assert(order@.contains(i2));
                } else {
                    if placed@[i2 as int] {
                        assert(before_placed[i2 as int]);
                        assert(before_order.contains(i2));
                        let p = choose|p: int|
                            0 <= p < before_order.len() && before_order[p] == i2;
                        assert(order@[p] == i2);
                        assert(order@.contains(i2));
                    }
                    if order@.contains(i2) {
                        let p = choose|p: int| 0 <= p < order@.len() && order@[p] == i2;
                        if p == before_order.len() {
                            assert(order@[p] == i);
                        }
                        assert(p < before_order.len());
                        assert(before_order.contains(i2));
                        assert(before_placed[i2 as int]);
                        assert(placed@[i2 as int]);
                    }
                }
            }
            assert forall|p: int, q: int| 0 <= p < q < order@.len() implies order@[p]
                != order@[q] by {
                if q == before_order.len() {
                    if order@[p] == i {
                        assert(before_order.contains(i));
                    }
                }
            }
            assert forall|p: int, k: int|
                0 <= p < order@.len() && 0 <= k < deps[order@[p] as int].len() implies #[trigger] appears_before(
                order@,
                p,
                deps[order@[p] as int][k],
            ) by {
                if p == before_order.len() {
                    let d = deps[i as int][k];
                    assert(before_placed[d as int]);
                    assert(before_order.contains(d));
                    let q = choose|q: int| 0 <= q < before_order.len() && before_order[q] == d;
                    assert(0 <= q < p && order@[q] == d);
                } else {
                    assert(order@[p] == before_order[p]);
                    assert(deps[before_order[p] as int][k] == deps[order@[p] as int][k]);
                    assert(appears_before(before_order, p, deps[before_order[p] as int][k]));
                    let q = choose|q: int|
                        0 <= q < p && before_order[q] == deps[before_order[p] as int][k];
                    assert(0 <= q < p && order@[q] == deps[order@[p] as int][k]);
                }
            }
        }
    }


    /// Whether every dependency of node `i` is already placed.
    fn deps_placed(&self, i: usize, placed: &Vec<bool>) -> (r: bool)
        requires
            self.wf(),
            (i as int) < self.dep_lists().len(),
            placed@.len() == self.names().len(),
        ensures
            r <==> forall|k: int|
                0 <= k < self.dep_lists()[i as int].len() ==> placed@[self.dep_lists()[i as int][k]
                    as int],
    {
        let row = &self.deps_idx[i];
        let m = row.len();
        let mut k: usize = 0;
        while k < m
            invariant
                0 <= k <= m,
                m == self.dep_lists()[i as int].len(),
                (i as int) < self.dep_lists().len(),
                self.wf(),
                row@ == self.dep_lists()[i as int],
                placed@.len() == self.names().len(),
                forall|t: int| 0 <= t < k ==> placed@[self.dep_lists()[i as int][t] as int],
            decreases m - k,
        {
            if !placed[row[k]] {
                return false;
            }
            k = k + 1;
        }
        true
    }
}

/// Index of the first string in `names` equal to `d`, if any.
fn find_name(names: &Vec<String>, d: &str) -> (r: Option<usize>)
    ensures
        match r {
            Some(i) => (i as int) < names@.len() && index_of_name(string_views(names@), d@)
                == i as int,
            None => index_of_name(string_views(names@), d@) == -1,
        },
{
    let n = names.len();
    let mut i: usize = 0;
    loop
        invariant
            0 <= i <= n,
            n == names@.len(),
            index_of_name_from(string_views(names@), i as int, d@) == index_of_name(
                string_views(names@),
                d@,
            ),
        ensures
            i <= n,
            n == names@.len(),
            i < n ==> index_of_name(string_views(names@), d@) == i as int,
            i == n ==> index_of_name(string_views(names@), d@) == -1,
        decreases n - i,
    {
        if i >= n {
            break;
        }
        if str_eq(names[i].as_str(), d) {
            proof {
                assert(string_views(names@)[i as int] == names@[i as int]@);
            }
            break;
        }
        proof {
            assert(string_views(names@)[i as int] == names@[i as int]@);
        }
        i = i + 1;
    }
    if i < n {
        Some(i)
    } else {
        None
    }
}

/// Resolve a list of dependency names against the package names.
fn resolve_list(names: &Vec<String>, deps: &Vec<String>) -> (r: Vec<usize>)
    ensures
        r@ == resolve_names(string_views(names@), string_views(deps@)),
{
    let ghost dv = string_views(deps@);
    let mut out: Vec<usize> = Vec::new();
    let mut i: usize = 0;
    while i < deps.len()
        invariant
            0 <= i <= deps@.len(),
            dv == string_views(deps@),
            dv.len() == deps@.len(),
            out@ == resolve_names(string_views(names@), dv.subrange(0, i as int)),
        decreases deps@.len() - i,
    {
        let ghost prefix = dv.subrange(0, i as int);
        let ghost prefix1 = dv.subrange(0, i + 1);
        proof {
            assert(prefix1.drop_last() =~= prefix);
            assert(prefix1.last() == dv[i as int]);
            assert(dv[i as int] == deps@[i as int]@);
        }
        match find_name(names, deps[i].as_str()) {
            Some(j) => {
                out.push(j);
            },
            None => {},
        }
        i = i + 1;
    }
    proof {
        assert(dv.subrange(0, dv.len() as int) =~= dv);
    }
    out
}

/// The indices of the `false` entries of `placed`, in ascending order.
fn collect_unplaced(placed: &Vec<bool>) -> (members: Vec<usize>)
    ensures
        forall|p: int| 0 <= p < members@.len() ==> (members@[p] as int) < placed@.len(),
        forall|t: usize| (t as int) < placed@.len() ==> (#[trigger] members@.contains(t)
            <==> !placed@[t as int]),
{
    let n = placed.len();
    let mut members: Vec<usize> = Vec::new();
    let mut i: usize = 0;
    while i < n
        invariant
            0 <= i <= n,
            n == placed@.len(),
            forall|p: int| 0 <= p < members@.len() ==> (members@[p] as int) < i,
            forall|t: usize| (t as int) < i ==> (#[trigger] members@.contains(t)
                <==> !placed@[t as int]),
        decreases n - i,
    {
        if !placed[i] {
            let ghost before = members@;
            members.push(i);
            proof {
                assert forall|t: usize|
                    (t as int) < i + 1 implies (#[trigger] members@.contains(t)
                    <==> !placed@[t as int]) by {
                    if members@.contains(t) {
                        let p = choose|p: int| 0 <= p < members@.len() && members@[p] == t;
                        if p < before.len() {
                            assert(before.contains(t));
                        }
                    }
                    if (t as int) < i && !placed@[t as int] {
                        assert(before.contains(t));
                        let p = choose|p: int| 0 <= p < before.len() && before[p] == t;
                        assert(members@[p] == t);
                    }
                    if t == i {
                        assert(members@[before.len() as int] == t);
                    }
                }
            }
        } else {
            proof {
                assert forall|t: usize|
                    (t as int) < i + 1 implies (#[trigger] members@.contains(t)
                    <==> !placed@[t as int]) by {
                    if members@.contains(t) {
                        let p = choose|p: int| 0 <= p < members@.len() && members@[p] == t;
                        assert((members@[p] as int) < i);
                    }
                }
            }
        }
        i = i + 1;
    }
    members
}

/// Whether `row` holds the index `j`.
fn contains_idx(row: &Vec<usize>, j: usize) -> (r: bool)
    ensures
        r == row@.contains(j),
{
    let m = row.len();
    let mut k: usize = 0;
    while k < m
        invariant
            0 <= k <= m,
            m == row@.len(),
            forall|t: int| 0 <= t < k ==> row@[t] != j,
        decreases m - k,
    {
        if row[k] == j {
            assert(row@[k as int] == j);
            return true;
        }
        k = k + 1;
    }
    false
}

} // verus!
