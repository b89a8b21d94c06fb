use bump_engine::kind::BumpKind;
use bump_engine::parse::parse_version;
use bump_engine::semver::{Prerelease, Version};

fn v(major: u64, minor: u64, patch: u64) -> Version {
    Version { major, minor, patch, pre: None }
}

fn vpre(major: u64, minor: u64, patch: u64, id: &str, num: u64) -> Version {
    Version { major, minor, patch, pre: Some(Prerelease { id: id.to_string(), num }) }
}

#[test]
fn patch_bump_increments_patch_only() {
    assert_eq!(v(1, 2, 3).bump(BumpKind::Patch, None), v(1, 2, 4));
}

#[test]
fn minor_bump_resets_patch() {
    assert_eq!(v(1, 2, 3).bump(BumpKind::Minor, None), v(1, 3, 0));
}

#[test]
fn major_bump_resets_minor_and_patch() {
    assert_eq!(v(1, 2, 3).bump(BumpKind::Major, None), v(2, 0, 0));
}

#[test]
fn plain_bump_drops_a_prerelease() {
    assert_eq!(vpre(1, 2, 3, "beta", 0).bump(BumpKind::Patch, None), v(1, 2, 4));
}

#[test]
fn preid_bump_starts_a_prerelease() {
    let preid = String::from("beta");
    assert_eq!(v(1, 2, 3).bump(BumpKind::Minor, Some(&preid)), vpre(1, 3, 0, "beta", 0));
}

#[test]
fn matching_preid_increments_the_counter() {
    let preid = String::from("beta");
    assert_eq!(
        vpre(1, 3, 0, "beta", 0).bump(BumpKind::Minor, Some(&preid)),
        vpre(1, 3, 0, "beta", 1)
    );
}

#[test]
fn different_preid_bumps_the_base() {
    let preid = String::from("rc");
    assert_eq!(
        vpre(1, 3, 0, "beta", 1).bump(BumpKind::Minor, Some(&preid)),
        vpre(1, 4, 0, "rc", 0)
    );
}

#[test]
fn parse_plain_version() {
    assert_eq!(parse_version("1.2.3"), Ok(v(1, 2, 3)));
    assert_eq!(parse_version("0.0.0"), Ok(v(0, 0, 0)));
    assert_eq!(parse_version("10.20.30"), Ok(v(10, 20, 30)));
}

#[test]
fn parse_prerelease_version() {
    assert_eq!(parse_version("1.2.3-beta.4"), Ok(vpre(1, 2, 3, "beta", 4)));
    assert_eq!(parse_version("1.2.3-rc-2.0"), Ok(vpre(1, 2, 3, "rc-2", 0)));
}

#[test]
fn parse_largest_value() {
    assert_eq!(
        parse_version("18446744073709551615.0.0"),
        Ok(v(18446744073709551615, 0, 0))
    );
}

#[test]
fn parse_rejects_malformed_versions() {
    assert!(parse_version("").is_err());
    assert!(parse_version("1").is_err());
    assert!(parse_version("1.2").is_err());
    assert!(parse_version("1.2.").is_err());
    assert!(parse_version("01.2.3").is_err());
    assert!(parse_version("1.2.3.4").is_err());
    assert!(parse_version("a.b.c").is_err());
    assert!(parse_version("1.2.3-beta").is_err());
    assert!(parse_version("1.2.3-beta.01").is_err());
    assert!(parse_version("1.2.3-.4").is_err());
    assert!(parse_version("18446744073709551616.0.0").is_err());
    assert!(parse_version("1.2.3 ").is_err());
}

#[test]
fn parse_then_bump_round() {
    let parsed = parse_version("2.4.6").unwrap();
    assert_eq!(parsed.bump(BumpKind::Minor, None), v(2, 5, 0));
}
