//! Verified bump resolution engine for coordinated semantic-version releases
//! in a multi-package repository.
//!
//! Contributors record intended changes as change records tied to a branch;
//! at release time the engine combines those records (and, optionally,
//! conventional-commit classifications of raw commit messages) with the
//! package dependency graph to compute a consistent set of version bumps,
//! propagating bumps to dependents so no package ships referencing an
//! incompatible version of another.

pub mod changes;
pub mod classify;
pub mod graph;
pub mod kind;
pub mod manager;
pub mod parse;
pub mod resolver;
pub mod semver;
pub mod strutil;

use vstd::prelude::*;

verus! {

} // verus!
