//! Package-manager identification.
//!
//! The manager in use is a closed variant, never inferred from runtime
//! shape: it is decided purely by which lockfile markers are present at the
//! repository root. The caller inspects the filesystem and hands in one
//! boolean per marker; `npm` wins over `yarn`, `yarn` over `pnpm`, `pnpm`
//! over `bun`, matching the marker precedence of the release flow.

use vstd::prelude::*;

verus! {

/// The supported package managers, plus `Unknown` when no marker is found.
#[derive(Clone, Copy, Debug, PartialEq, Eq, Structural)]
pub enum PackageManager {
    Npm,
    Yarn,
    Pnpm,
    Bun,
    Unknown,
}

/// The manager that a set of marker files identifies.
pub open spec fn manager_of(
    has_package_lock: bool,
    has_yarn_lock: bool,
    has_pnpm_lock: bool,
    has_bun_lock: bool,
) -> PackageManager {
    if has_package_lock {
        PackageManager::Npm
    } else if has_yarn_lock {
        PackageManager::Yarn
    } else if has_pnpm_lock {
        PackageManager::Pnpm
    } else if has_bun_lock {
        PackageManager::Bun
    } else {
        PackageManager::Unknown
    }
}

/// Decide the package manager from the markers found at the repository
/// root: `package-lock.json`, `yarn.lock`, `pnpm-lock.yaml`, `bun.lockb`,
/// in that precedence.
pub fn detect_package_manager(
    has_package_lock: bool,
    has_yarn_lock: bool,
    has_pnpm_lock: bool,
    has_bun_lock: bool,
) -> (r: PackageManager)
    ensures
        r == manager_of(has_package_lock, has_yarn_lock, has_pnpm_lock, has_bun_lock),
{
    if has_package_lock {
        PackageManager::Npm
    } else if has_yarn_lock {
        PackageManager::Yarn
    } else if has_pnpm_lock {
        PackageManager::Pnpm
    } else if has_bun_lock {
        PackageManager::Bun
    } else {
        PackageManager::Unknown
    }
}

} // verus!
