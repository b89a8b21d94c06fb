//! Pending change records, keyed by contributing branch.
//!
//! A change record declares which packages a branch touched and at what
//! severity. A store holds at most one record per branch: adding a record
//! for a branch that already has one silently overwrites it (the record
//! moves to the end of the store, so `all_changes` lists records in order of
//! most recent addition). Lookups by branch use exact, case-sensitive
//! matching. The store itself is a pure in-memory value; reading and writing
//! a change-records location on disk is the caller's concern.

use vstd::prelude::*;
use crate::kind::BumpKind;
use crate::strutil::{dup_strings, str_eq};

verus! {

/// A contributor-authored note: the packages changed on a branch and the
/// severity of the change.
#[derive(Clone, Debug, PartialEq, Eq)]
pub struct ChangeRecord {
    pub branch: String,
    pub packages: Vec<String>,
    pub bump: BumpKind,
    pub summary: String,
}

/// Mathematical model of a change record.
pub ghost struct RecordView {
    pub branch: Seq<char>,
    pub packages: Seq<Seq<char>>,
    pub bump: BumpKind,
    pub summary: Seq<char>,
}

impl View for ChangeRecord {
    type V = RecordView;

    open spec fn view(&self) -> RecordView {
        RecordView {
            branch: self.branch@,
            packages: self.packages.deep_view(),
            bump: self.bump,
            summary: self.summary@,
        }
    }
}

impl ChangeRecord {
    /// An exact copy, with the copy's contents known to the verifier.
    pub fn duplicate(&self) -> (r: ChangeRecord)
        ensures
            r@ == self@,
    {
        let r = ChangeRecord {
            branch: self.branch.clone(),
            packages: dup_strings(&self.packages),
            bump: self.bump,
            summary: self.summary.clone(),
        };
        proof {
            assert(r.packages.deep_view() =~= self.packages.deep_view());
        }
        r
    }
}

/// The models of a list of records, in order.
pub open spec fn views_of(s: Seq<ChangeRecord>) -> Seq<RecordView> {
    s.map_values(|r: ChangeRecord| r@)
}

/// No two records share a branch.
pub open spec fn unique_branches(s: Seq<RecordView>) -> bool {
    forall|i: int, j: int| 0 <= i < j < s.len() ==> s[i].branch != s[j].branch
}

/// Some record in `s` belongs to branch `b`.
pub open spec fn spec_has(s: Seq<RecordView>, b: Seq<char>) -> bool {
    exists|i: int| 0 <= i < s.len() && s[i].branch == b
}

/// `s` with the first record of branch `b` removed (and `s` itself when no
/// record matches).
pub open spec fn spec_remove(s: Seq<RecordView>, b: Seq<char>) -> Seq<RecordView>
    decreases s.len(),
{
    if s.len() == 0 {
        Seq::empty()
    } else if s[0].branch == b {
        s.skip(1)
    } else {
        seq![s[0]] + spec_remove(s.skip(1), b)
    }
}

/// The store after adding `r`: any existing record of the same branch is
/// dropped and `r` goes to the end.
pub open spec fn spec_add(s: Seq<RecordView>, r: RecordView) -> Seq<RecordView> {
    spec_remove(s, r.branch).push(r)
}

/// The records of branch `b` in `s`: a singleton holding the first match,
/// or empty.
pub open spec fn spec_get(s: Seq<RecordView>, b: Seq<char>) -> Seq<RecordView>
    decreases s.len(),
{
    if s.len() == 0 {
        Seq::empty()
    } else if s[0].branch == b {
        seq![s[0]]
    } else {
        spec_get(s.skip(1), b)
    }
}

/// On a store with unique branches, removal keeps branches unique, leaves no
/// record of the removed branch, and introduces no branch.
pub proof fn lemma_spec_remove_props(s: Seq<RecordView>, b: Seq<char>)
    requires
        unique_branches(s),
    ensures
        unique_branches(spec_remove(s, b)),
        !spec_has(spec_remove(s, b), b),
        forall|c: Seq<char>| #[trigger] spec_has(spec_remove(s, b), c) ==> spec_has(s, c),
    decreases s.len(),
{
    if s.len() == 0 {
    } else if s[0].branch == b {
        let t = s.skip(1);
        assert forall|c: Seq<char>| #[trigger] spec_has(t, c) implies spec_has(s, c) by {
            let i = choose|i: int| 0 <= i < t.len() && t[i].branch == c;
            assert(s[i + 1].branch == c);
        }
        if spec_has(t, b) {
            let i = choose|i: int| 0 <= i < t.len() && t[i].branch == b;
            assert(s[i + 1].branch == s[0].branch);
        }
    } else {
        let t = s.skip(1);
        assert(unique_branches(t));
        lemma_spec_remove_props(t, b);
        let u = spec_remove(t, b);
        let r = seq![s[0]] + u;
        assert(spec_remove(s, b) == r);
        assert forall|c: Seq<char>| #[trigger] spec_has(r, c) implies spec_has(s, c) by {
            let i = choose|i: int| 0 <= i < r.len() && r[i].branch == c;
            if i == 0 {
                assert(s[0].branch == c);
            } else {
                assert(u[i - 1].branch == c);
                assert(spec_has(u, c));
                let k = choose|k: int| 0 <= k < t.len() && t[k].branch == c;
                assert(s[k + 1].branch == c);
            }
        }
        assert(!spec_has(r, b)) by {
            if spec_has(r, b) {
                let i = choose|i: int| 0 <= i < r.len() && r[i].branch == b;
                if i > 0 {
                    assert(u[i - 1].branch == b);
                    assert(spec_has(u, b));
                }
            }
        }
        assert(unique_branches(r)) by {
            assert forall|i: int, j: int| 0 <= i < j < r.len() implies r[i].branch
                != r[j].branch by {
                if i == 0 {
                    assert(u[j - 1].branch == r[j].branch);
                    assert(spec_has(u, u[j - 1].branch));
                    assert(spec_has(t, u[j - 1].branch));
                    let k = choose|k: int| 0 <= k < t.len() && t[k].branch == u[j - 1].branch;
                    assert(s[k + 1].branch == u[j - 1].branch);
                } else {
                    assert(u[i - 1].branch != u[j - 1].branch);
                }
            }
        }
    }
}

/// When the first record of branch `b` stands at index `i`, removal takes
/// exactly that record out.
proof fn lemma_spec_remove_at(s: Seq<RecordView>, b: Seq<char>, i: int)
    requires
        0 <= i < s.len(),
        s[i].branch == b,
        forall|k: int| 0 <= k < i ==> s[k].branch != b,
    ensures
        spec_remove(s, b) == s.remove(i),
    decreases i,
{
    if i == 0 {
        assert(spec_remove(s, b) =~= s.remove(0));
    } else {
        let t = s.skip(1);
        assert(t[i - 1].branch == b);
        assert(forall|k: int| 0 <= k < i - 1 ==> t[k].branch != b);
        lemma_spec_remove_at(t, b, i - 1);
        assert(seq![s[0]] + t.remove(i - 1) =~= s.remove(i));
    }
}

/// When no record matches, removal changes nothing.
proof fn lemma_spec_remove_absent(s: Seq<RecordView>, b: Seq<char>)
    requires
        !spec_has(s, b),
    ensures
        spec_remove(s, b) == s,
    decreases s.len(),
{
    if s.len() > 0 {
        assert(s[0].branch != b);
        let t = s.skip(1);
        assert(!spec_has(t, b)) by {
            if spec_has(t, b) {
                let k = choose|k: int| 0 <= k < t.len() && t[k].branch == b;
                assert(s[k + 1].branch == b);
            }
        }
        lemma_spec_remove_absent(t, b);
        assert(seq![s[0]] + t =~= s);
    }
}

/// When the first record of branch `b` stands at index `i`, the lookup
/// returns exactly that record.
proof fn lemma_spec_get_at(s: Seq<RecordView>, b: Seq<char>, i: int)
    requires
        0 <= i < s.len(),
        s[i].branch == b,
        forall|k: int| 0 <= k < i ==> s[k].branch != b,
    ensures
        spec_get(s, b) == seq![s[i]],
    decreases i,
{
    if i > 0 {
        let t = s.skip(1);
        assert(t[i - 1].branch == b);
        assert(forall|k: int| 0 <= k < i - 1 ==> t[k].branch != b);
        lemma_spec_get_at(t, b, i - 1);
    }
}

/// When no record matches, the lookup returns nothing.
proof fn lemma_spec_get_absent(s: Seq<RecordView>, b: Seq<char>)
    requires
        !spec_has(s, b),
    ensures
        spec_get(s, b) == Seq::<RecordView>::empty(),
    decreases s.len(),
{
    if s.len() > 0 {
        assert(s[0].branch != b);
        let t = s.skip(1);
        assert(!spec_has(t, b)) by {
            if spec_has(t, b) {
                let k = choose|k: int| 0 <= k < t.len() && t[k].branch == b;
                assert(s[k + 1].branch == b);
            }
        }
        lemma_spec_get_absent(t, b);
    }
}

/// Adding a record to a store that lacks its branch appends it, so the
/// lookup of its branch finds exactly it.
proof fn lemma_spec_get_pushed(t: Seq<RecordView>, r: RecordView)
    requires
        !spec_has(t, r.branch),
    ensures
        spec_get(t.push(r), r.branch) == seq![r],
    decreases t.len(),
{
    if t.len() == 0 {
        assert(t.push(r)[0] == r);
        assert(spec_get(t.push(r), r.branch) =~= seq![r]);
    } else {
        assert(t[0].branch != r.branch);
        let u = t.skip(1);
        assert(!spec_has(u, r.branch)) by {
            if spec_has(u, r.branch) {
                let k = choose|k: int| 0 <= k < u.len() && u[k].branch == r.branch;
                assert(t[k + 1].branch == r.branch);
            }
        }
        lemma_spec_get_pushed(u, r);
        assert(t.push(r).skip(1) =~= u.push(r));
        assert(t.push(r)[0] == t[0]);
    }
}

/// Round trip, adding side: after `spec_add(s, r)`, the lookup of `r`'s
/// branch returns exactly `r`, whether or not the branch already had a
/// record.
pub proof fn lemma_add_then_get(s: Seq<RecordView>, r: RecordView)
    requires
        unique_branches(s),
    ensures
        spec_get(spec_add(s, r), r.branch) == seq![r],
{
    lemma_spec_remove_props(s, r.branch);
    lemma_spec_get_pushed(spec_remove(s, r.branch), r);
}

/// Round trip, removing side: after `spec_remove(s, b)`, branch `b` has no
/// record.
pub proof fn lemma_remove_then_absent(s: Seq<RecordView>, b: Seq<char>)
    requires
        unique_branches(s),
    ensures
        !spec_has(spec_remove(s, b), b),
{
    lemma_spec_remove_props(s, b);
}

/// The pending change records of a repository, at most one per branch.
pub struct ChangeStore {
    records: Vec<ChangeRecord>,
}

impl ChangeStore {
    /// The record models, in store order.
    pub closed spec fn records(self) -> Seq<RecordView> {
        views_of(self.records@)
    }

    /// Well-formed: no two records share a branch.
    pub open spec fn wf(self) -> bool {
        unique_branches(self.records())
    }

    /// An empty store.
    pub fn new() -> (s: ChangeStore)
        ensures
            s.wf(),
            s.records() == Seq::<RecordView>::empty(),
    {
        let s = ChangeStore { records: Vec::new() };
        proof {
            assert(s.records() =~= Seq::<RecordView>::empty());
        }
        s
    }

    /// Index of the first record of `branch`, if any.
    fn find_branch(&self, branch: &str) -> (r: Option<usize>)
        ensures
            match r {
                Some(i) => i < self.records().len() && self.records()[i as int].branch == branch@
                    && forall|k: int| 0 <= k < i ==> self.records()[k].branch != branch@,
                None => !spec_has(self.records(), branch@),
            },
    {
        let n = self.records.len();
        let mut i: usize = 0;
        while i < n
            invariant
                0 <= i <= n,
                n == self.records().len(),
                n == self.records@.len(),
                forall|k: int| 0 <= k < i ==> self.records()[k].branch != branch@,
            decreases n - i,
        {
            if str_eq(self.records[i].branch.as_str(), branch) {
                return Some(i);
            }
            i = i + 1;
        }
        None
    }

    /// Whether a record exists for `branch`.
    pub fn change_exist(&self, branch: &str) -> (r: bool)
        ensures
            r == spec_has(self.records(), branch@),
    {
        match self.find_branch(branch) {
            Some(_) => true,
            None => false,
        }
    }

    /// Remove the record of `branch`; `true` when one existed.
    pub fn remove_change(&mut self, branch: &str) -> (r: bool)
        requires
            old(self).wf(),
        ensures
            final(self).wf(),
            r == spec_has(old(self).records(), branch@),
            final(self).records() == spec_remove(old(self).records(), branch@),
    {
        proof {
            lemma_spec_remove_props(self.records(), branch@);
        }
        match self.find_branch(branch) {
            Some(i) => {
                proof {
                    lemma_spec_remove_at(self.records(), branch@, i as int);
                }
                let ghost before = self.records@;
                self.records.remove(i);
                proof {
                    assert(views_of(before.remove(i as int)) =~= views_of(before).remove(
                        i as int,
                    ));
                }
                true
            },
            None => {
                proof {
                    lemma_spec_remove_absent(self.records(), branch@);
                }
                false
            },
        }
    }

    /// Add `record`, silently overwriting any record of the same branch.
    pub fn add_change(&mut self, record: ChangeRecord)
        requires
            old(self).wf(),
        ensures
            final(self).wf(),
            final(self).records() == spec_add(old(self).records(), record@),
    {
        proof {
            lemma_spec_remove_props(self.records(), record@.branch);
        }
        let _ = self.remove_change(record.branch.as_str());
        let ghost t = self.records();
        let ghost before = self.records@;
        self.records.push(record);
        proof {
            assert(views_of(before.push(record)) =~= views_of(before).push(record@));
            assert(unique_branches(self.records())) by {
                assert forall|i: int, j: int|
                    0 <= i < j < self.records().len() implies self.records()[i].branch
                    != self.records()[j].branch by {
                    if j == t.len() {
                        assert(t[i].branch == self.records()[i].branch);
                        assert(spec_has(t, t[i].branch));
                    }
                }
            }
        }
    }

    /// The records of `branch`: a singleton when one exists, empty
    /// otherwise.
    pub fn get_change(&self, branch: &str) -> (r: Vec<ChangeRecord>)
        ensures
            views_of(r@) == spec_get(self.records(), branch@),
    {
        let mut out: Vec<ChangeRecord> = Vec::new();
        match self.find_branch(branch) {
            Some(i) => {
                proof {
                    lemma_spec_get_at(self.records(), branch@, i as int);
                }
                out.push(self.records[i].duplicate());
                assert(views_of(out@) =~= spec_get(self.records(), branch@));
            },
            None => {
                proof {
                    lemma_spec_get_absent(self.records(), branch@);
                }
                assert(views_of(out@) =~= spec_get(self.records(), branch@));
            },
        }
        out
    }

    /// All records, in store order: earlier additions first, an overwriting
    /// addition counting as new.
    pub fn all_changes(&self) -> (r: &Vec<ChangeRecord>)
        ensures
            views_of(r@) == self.records(),
    {
        &self.records
    }
}

} // verus!
