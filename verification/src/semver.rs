//! Semantic versions and the standard bump rules.
//!
//! A version is `major.minor.patch`, optionally followed by a prerelease
//! suffix `-id.num` (one alphanumeric identifier and a counter, the shape the
//! release flow produces and consumes). Bumping a version follows the
//! standard rules: a major bump increments `major` and resets `minor` and
//! `patch` to 0, a minor bump increments `minor` and resets `patch`, a patch
//! bump increments `patch` only. When a prerelease identifier (`preid`) is
//! supplied and the current version is already a prerelease with that same
//! identifier, only the prerelease counter is incremented; otherwise the base
//! is bumped and the counter starts at 0.

use vstd::prelude::*;
use crate::kind::BumpKind;

verus! {

/// Prerelease suffix of a version: `-id.num`, as in `1.2.0-beta.3`.
#[derive(Clone, Debug, PartialEq, Eq)]
pub struct Prerelease {
    pub id: String,
    pub num: u64,
}

/// A semantic version `major.minor.patch` with an optional prerelease
/// suffix.
#[derive(Clone, Debug, PartialEq, Eq)]
pub struct Version {
    pub major: u64,
    pub minor: u64,
    pub patch: u64,
    pub pre: Option<Prerelease>,
}

/// Mathematical model of a prerelease suffix.
pub ghost struct PreView {
    pub id: Seq<char>,
    pub num: int,
}

/// Mathematical model of a version.
pub ghost struct VersionView {
    pub major: int,
    pub minor: int,
    pub patch: int,
    pub pre: Option<PreView>,
}

impl View for Prerelease {
    type V = PreView;

    open spec fn view(&self) -> PreView {
        PreView { id: self.id@, num: self.num as int }
    }
}

impl View for Version {
    type V = VersionView;

    open spec fn view(&self) -> VersionView {
        VersionView {
            major: self.major as int,
            minor: self.minor as int,
            patch: self.patch as int,
            pre: match self.pre {
                Some(p) => Some(p@),
                None => None,
            },
        }
    }
}

/// The base triples `(major, minor, patch)` are equal.
pub open spec fn base_eq(a: VersionView, b: VersionView) -> bool {
    a.major == b.major && a.minor == b.minor && a.patch == b.patch
}

/// The base triple of `a` is lexicographically below that of `b`.
pub open spec fn base_lt(a: VersionView, b: VersionView) -> bool {
    a.major < b.major
    || (a.major == b.major && a.minor < b.minor)
    || (a.major == b.major && a.minor == b.minor && a.patch < b.patch)
}

/// Lexicographic order on character sequences, by unicode scalar value.
pub open spec fn chars_lt(a: Seq<char>, b: Seq<char>) -> bool
    decreases a.len(),
{
    if b.len() == 0 {
        false
    } else if a.len() == 0 {
        true
    } else if a[0] != b[0] {
        (a[0] as int) < (b[0] as int)
    } else {
        chars_lt(a.skip(1), b.skip(1))
    }
}

/// Strict semver order. Bases compare lexicographically; on equal bases a
/// prerelease precedes the plain release; two prereleases compare by
/// identifier, then by counter.
pub open spec fn version_lt(a: VersionView, b: VersionView) -> bool {
    base_lt(a, b)
    || (base_eq(a, b) && match (a.pre, b.pre) {
        (Some(_), None) => true,
        (Some(pa), Some(pb)) => chars_lt(pa.id, pb.id) || (pa.id == pb.id && pa.num < pb.num),
        _ => false,
    })
}

/// The base triple after a bump of kind `k`, with no prerelease.
pub open spec fn bump_base(v: VersionView, k: BumpKind) -> VersionView {
    match k {
        BumpKind::Major => VersionView { major: v.major + 1, minor: 0, patch: 0, pre: None },
        BumpKind::Minor => VersionView { major: v.major, minor: v.minor + 1, patch: 0, pre: None },
        BumpKind::Patch => VersionView { major: v.major, minor: v.minor, patch: v.patch + 1, pre: None },
        BumpKind::NoBump => VersionView { pre: None, ..v },
    }
}

/// The version after a bump of kind `k`, honoring a prerelease identifier.
/// With no `preid` the base is bumped and any prerelease suffix is dropped.
/// With a `preid`, if the current version is already a prerelease with that
/// identifier only the counter advances; otherwise the base is bumped and a
/// fresh `-preid.0` suffix is attached.
pub open spec fn bump_view(v: VersionView, k: BumpKind, preid: Option<Seq<char>>) -> VersionView {
    match preid {
        None => bump_base(v, k),
        Some(id) => match v.pre {
            Some(p) => if p.id == id {
                VersionView { pre: Some(PreView { id: id, num: p.num + 1 }), ..v }
            } else {
                VersionView { pre: Some(PreView { id: id, num: 0 }), ..bump_base(v, k) }
            },
            None => VersionView { pre: Some(PreView { id: id, num: 0 }), ..bump_base(v, k) },
        },
    }
}

/// Monotonicity of bumping: any bump other than `NoBump` yields a strictly
/// larger version under semver order, for every prerelease configuration.
pub proof fn lemma_bump_increases(v: VersionView, k: BumpKind, preid: Option<Seq<char>>)
    requires
        k != BumpKind::NoBump,
    ensures
        version_lt(v, bump_view(v, k, preid)),
{
}

impl Version {
    /// Compute the version after a bump of kind `k`, honoring the prerelease
    /// identifier `preid` as [`bump_view`] describes.
    pub fn bump(&self, k: BumpKind, preid: Option<&String>) -> (r: Version)
        requires
            k != BumpKind::NoBump,
            self.major < u64::MAX,
            self.minor < u64::MAX,
            self.patch < u64::MAX,
            self.pre matches Some(p) ==> p.num < u64::MAX,
        ensures
            r@ == bump_view(self@, k, match preid {
                Some(s) => Some(s@),
                None => None,
            }),
            version_lt(self@, r@),
    {
        proof {
            lemma_bump_increases(self@, k, match preid {
                Some(s) => Some(s@),
                None => None,
            });
        }
        match preid {
            None => self.bump_plain(k),
            Some(id) => match &self.pre {
                Some(p) => if p.id == *id {
                    Version {
                        major: self.major,
                        minor: self.minor,
                        patch: self.patch,
                        pre: Some(Prerelease { id: id.clone(), num: p.num + 1 }),
                    }
                } else {
                    let mut r = self.bump_plain(k);
                    r.pre = Some(Prerelease { id: id.clone(), num: 0 });
                    r
                },
                None => {
                    let mut r = self.bump_plain(k);
                    r.pre = Some(Prerelease { id: id.clone(), num: 0 });
                    r
                },
            },
        }
    }

    /// Bump the base triple by `k` and drop any prerelease suffix.
    fn bump_plain(&self, k: BumpKind) -> (r: Version)
        requires
            k != BumpKind::NoBump,
            self.major < u64::MAX,
            self.minor < u64::MAX,
            self.patch < u64::MAX,
        ensures
            r@ == bump_base(self@, k),
    {
        match k {
            BumpKind::Major => Version { major: self.major + 1, minor: 0, patch: 0, pre: None },
            BumpKind::Minor => Version {
                major: self.major,
                minor: self.minor + 1,
                patch: 0,
                pre: None,
            },
            BumpKind::Patch => Version {
                major: self.major,
                minor: self.minor,
                patch: self.patch + 1,
                pre: None,
            },
            BumpKind::NoBump => Version {
                major: self.major,
                minor: self.minor,
                patch: self.patch,
                pre: None,
            },
        }
    }

    /// An exact copy, with the copy's contents known to the verifier.
    pub fn duplicate(&self) -> (r: Version)
        ensures
            r == *self,
    {
        Version {
            major: self.major,
            minor: self.minor,
            patch: self.patch,
            pre: match &self.pre {
                Some(p) => Some(Prerelease { id: p.id.clone(), num: p.num }),
                None => None,
            },
        }
    }
}

} // verus!
