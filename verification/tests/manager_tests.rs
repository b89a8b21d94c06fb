use bump_engine::manager::{detect_package_manager, PackageManager};

#[test]
fn each_marker_identifies_its_manager() {
    assert_eq!(detect_package_manager(true, false, false, false), PackageManager::Npm);
    assert_eq!(detect_package_manager(false, true, false, false), PackageManager::Yarn);
    assert_eq!(detect_package_manager(false, false, true, false), PackageManager::Pnpm);
    assert_eq!(detect_package_manager(false, false, false, true), PackageManager::Bun);
}

#[test]
fn no_marker_is_unknown() {
    assert_eq!(detect_package_manager(false, false, false, false), PackageManager::Unknown);
}

#[test]
fn npm_marker_takes_precedence() {
    assert_eq!(detect_package_manager(true, true, true, true), PackageManager::Npm);
    assert_eq!(detect_package_manager(false, true, true, false), PackageManager::Yarn);
}
