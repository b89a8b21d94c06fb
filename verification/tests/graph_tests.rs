use bump_engine::graph::{Package, PackageGraph};
use bump_engine::semver::Version;

fn package(name: &str, deps: &[&str]) -> Package {
    Package {
        name: name.to_string(),
        version: Version { major: 1, minor: 0, patch: 0, pre: None },
        manifest_path: format!("packages/{}/package.json", name),
        deps: deps.iter().map(|d| d.to_string()).collect(),
        private: false,
    }
}

#[test]
fn chain_orders_dependencies_first() {
    let packages = vec![
        package("a", &[]),
        package("b", &["a"]),
        package("c", &["b"]),
    ];
    let g = PackageGraph::build(&packages);
    let ord = g.topological_order().unwrap();
    assert_eq!(ord, vec![0, 1, 2]);
}

#[test]
fn order_puts_every_dependency_before_its_dependent() {
    let packages = vec![
        package("top", &["left", "right"]),
        package("left", &["base"]),
        package("right", &["base"]),
        package("base", &[]),
    ];
    let g = PackageGraph::build(&packages);
    let ord = g.topological_order().unwrap();
    assert_eq!(ord.len(), 4);
    let pos = |i: usize| ord.iter().position(|&x| x == i).unwrap();
    assert!(pos(3) < pos(1));
    assert!(pos(3) < pos(2));
    assert!(pos(1) < pos(0));
    assert!(pos(2) < pos(0));
}

#[test]
fn external_dependencies_are_ignored() {
    let packages = vec![package("a", &["left-pad", "b"]), package("b", &[])];
    let g = PackageGraph::build(&packages);
    assert!(g.topological_order().is_ok());
}

#[test]
fn cycle_is_reported_not_broken() {
    let packages = vec![package("x", &["y"]), package("y", &["x"])];
    let g = PackageGraph::build(&packages);
    let err = g.topological_order().unwrap_err();
    let mut members = err.members.clone();
    members.sort();
    assert_eq!(members, vec![0, 1]);
}

#[test]
fn self_dependency_is_a_cycle() {
    let packages = vec![package("selfish", &["selfish"])];
    let g = PackageGraph::build(&packages);
    let err = g.topological_order().unwrap_err();
    assert_eq!(err.members, vec![0]);
}

#[test]
fn dependents_of_lists_direct_dependents() {
    let packages = vec![
        package("base", &[]),
        package("mid", &["base"]),
        package("top", &["mid", "base"]),
    ];
    let g = PackageGraph::build(&packages);
    assert_eq!(g.dependents_of("base"), vec![1, 2]);
    assert_eq!(g.dependents_of("mid"), vec![2]);
    assert_eq!(g.dependents_of("top"), Vec::<usize>::new());
    assert_eq!(g.dependents_of("absent"), Vec::<usize>::new());
}

#[test]
fn find_package_uses_first_match() {
    let packages = vec![package("a", &[]), package("b", &[])];
    let g = PackageGraph::build(&packages);
    assert_eq!(g.find_package("b"), Some(1));
    assert_eq!(g.find_package("zzz"), None);
}

#[test]
fn from_manifest_parses_the_version() {
    let p = Package::from_manifest(
        String::from("app"),
        "1.2.3-beta.1",
        String::from("packages/app/package.json"),
        vec![String::from("lib")],
        false,
    )
    .unwrap();
    assert_eq!(p.version.major, 1);
    assert_eq!(p.version.minor, 2);
    assert_eq!(p.version.patch, 3);
    let pre = p.version.pre.as_ref().unwrap();
    assert_eq!(pre.id, "beta");
    assert_eq!(pre.num, 1);
}

#[test]
fn from_manifest_rejects_bad_versions() {
    let r = Package::from_manifest(
        String::from("app"),
        "not-a-version",
        String::from("packages/app/package.json"),
        Vec::new(),
        false,
    );
    assert!(r.is_err());
}
