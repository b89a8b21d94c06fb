use bump_engine::changes::ChangeRecord;
use bump_engine::graph::Package;
use bump_engine::kind::BumpKind;
use bump_engine::resolver::{
    get_bumps, BumpOptions, Cause, CommitInfo, LinkedGroup, ReleaseOverride,
};
use bump_engine::semver::Version;

fn v(major: u64, minor: u64, patch: u64) -> Version {
    Version { major, minor, patch, pre: None }
}

fn package(name: &str, version: Version, deps: &[&str]) -> Package {
    Package {
        name: name.to_string(),
        version,
        manifest_path: format!("packages/{}/package.json", name),
        deps: deps.iter().map(|d| d.to_string()).collect(),
        private: false,
    }
}

fn record(branch: &str, packages: &[&str], bump: BumpKind) -> ChangeRecord {
    ChangeRecord {
        branch: branch.to_string(),
        packages: packages.iter().map(|p| p.to_string()).collect(),
        bump,
        summary: String::from("a change"),
    }
}

fn commit(sha: &str, message: &str) -> CommitInfo {
    CommitInfo { sha: sha.to_string(), message: message.to_string(), author_timestamp: 0 }
}

fn no_commits(n: usize) -> Vec<Vec<CommitInfo>> {
    (0..n).map(|_| Vec::new()).collect()
}

fn options() -> BumpOptions {
    BumpOptions {
        conventional_commits: false,
        preid: None,
        release_as: Vec::new(),
        promote_minor_on_major_dep: false,
    }
}

#[test]
fn direct_minor_cascades_a_patch_to_the_dependent() {
    // package B has a change record with a minor bump; A depends on B.
    let packages = vec![
        package("A", v(1, 0, 0), &["B"]),
        package("B", v(1, 0, 0), &[]),
    ];
    let records = vec![record("feature/b", &["B"], BumpKind::Minor)];
    let plan = get_bumps(&packages, &records, &no_commits(2), &Vec::new(), &options()).unwrap();
    assert_eq!(plan.len(), 2);
    let a = &plan[0];
    assert_eq!(a.name, "A");
    assert_eq!(a.kind, BumpKind::Patch);
    assert_eq!(a.from, v(1, 0, 0));
    assert_eq!(a.to, v(1, 0, 1));
    assert!(a.cascaded);
    assert!(a.causes.is_empty());
    let b = &plan[1];
    assert_eq!(b.name, "B");
    assert_eq!(b.kind, BumpKind::Minor);
    assert_eq!(b.from, v(1, 0, 0));
    assert_eq!(b.to, v(1, 1, 0));
    assert!(!b.cascaded);
    assert_eq!(b.causes, vec![Cause::Branch(String::from("feature/b"))]);
}

#[test]
fn breaking_commit_alone_gives_major() {
    // package C has no change record, only a breaking commit.
    let packages = vec![package("C", v(1, 0, 0), &[])];
    let commits = vec![vec![commit("abc123", "feat!: drop legacy API")]];
    let mut opts = options();
    opts.conventional_commits = true;
    let plan = get_bumps(&packages, &Vec::new(), &commits, &Vec::new(), &opts).unwrap();
    assert_eq!(plan.len(), 1);
    assert_eq!(plan[0].kind, BumpKind::Major);
    assert_eq!(plan[0].to, v(2, 0, 0));
    assert_eq!(plan[0].causes, vec![Cause::Commit(String::from("abc123"))]);
    assert!(!plan[0].cascaded);
}

#[test]
fn commit_signals_are_ignored_when_disabled() {
    let packages = vec![package("C", v(1, 0, 0), &[])];
    let commits = vec![vec![commit("abc123", "feat!: drop legacy API")]];
    let plan = get_bumps(&packages, &Vec::new(), &commits, &Vec::new(), &options()).unwrap();
    assert!(plan.is_empty());
}

#[test]
fn cycle_aborts_resolution() {
    let packages = vec![
        package("X", v(1, 0, 0), &["Y"]),
        package("Y", v(1, 0, 0), &["X"]),
    ];
    let records = vec![record("b", &["X"], BumpKind::Patch)];
    let result = get_bumps(&packages, &records, &no_commits(2), &Vec::new(), &options());
    assert!(result.is_err());
}

#[test]
fn override_fixes_the_version_and_cascades_as_major() {
    // D's own signal would only justify a patch, but an override forces 2.0.0;
    // E depends on D and must still be re-released.
    let packages = vec![
        package("D", v(1, 4, 2), &[]),
        package("E", v(3, 0, 0), &["D"]),
    ];
    let records = vec![record("fix/d", &["D"], BumpKind::Patch)];
    let mut opts = options();
    opts.release_as = vec![ReleaseOverride { name: String::from("D"), version: v(2, 0, 0) }];
    let plan = get_bumps(&packages, &records, &no_commits(2), &Vec::new(), &opts).unwrap();
    assert_eq!(plan.len(), 2);
    assert_eq!(plan[0].name, "D");
    assert_eq!(plan[0].kind, BumpKind::Major);
    assert_eq!(plan[0].to, v(2, 0, 0));
    assert!(!plan[0].cascaded);
    assert_eq!(plan[1].name, "E");
    assert_eq!(plan[1].kind, BumpKind::Patch);
    assert_eq!(plan[1].to, v(3, 0, 1));
    assert!(plan[1].cascaded);
}

#[test]
fn major_dep_promotes_minor_when_configured() {
    let packages = vec![
        package("base", v(1, 0, 0), &[]),
        package("top", v(1, 0, 0), &["base"]),
    ];
    let records = vec![record("break/base", &["base"], BumpKind::Major)];
    let mut opts = options();
    opts.promote_minor_on_major_dep = true;
    let plan = get_bumps(&packages, &records, &no_commits(2), &Vec::new(), &opts).unwrap();
    assert_eq!(plan.len(), 2);
    assert_eq!(plan[0].name, "base");
    assert_eq!(plan[0].to, v(2, 0, 0));
    assert_eq!(plan[1].name, "top");
    assert_eq!(plan[1].kind, BumpKind::Minor);
    assert_eq!(plan[1].to, v(1, 1, 0));
}

#[test]
fn cascade_travels_the_whole_chain() {
    let packages = vec![
        package("a", v(1, 0, 0), &[]),
        package("b", v(1, 0, 0), &["a"]),
        package("c", v(1, 0, 0), &["b"]),
    ];
    let records = vec![record("feat/a", &["a"], BumpKind::Minor)];
    let plan = get_bumps(&packages, &records, &no_commits(3), &Vec::new(), &options()).unwrap();
    // a moves by minor, so b is re-released with a patch; b's patch bump is
    // below minor, so c needs nothing.
    assert_eq!(plan.len(), 2);
    assert_eq!(plan[0].name, "a");
    assert_eq!(plan[0].to, v(1, 1, 0));
    assert_eq!(plan[1].name, "b");
    assert_eq!(plan[1].to, v(1, 0, 1));
    assert!(plan[1].cascaded);
}

#[test]
fn linked_group_members_bump_together() {
    let packages = vec![
        package("app", v(1, 0, 0), &[]),
        package("lib", v(2, 1, 0), &[]),
        package("other", v(1, 0, 0), &[]),
    ];
    let records = vec![record("feat/lib", &["lib"], BumpKind::Minor)];
    let groups = vec![LinkedGroup {
        members: vec![String::from("app"), String::from("lib")],
        fixed: false,
    }];
    let plan = get_bumps(&packages, &records, &no_commits(3), &groups, &options()).unwrap();
    assert_eq!(plan.len(), 2);
    assert_eq!(plan[0].name, "app");
    assert_eq!(plan[0].kind, BumpKind::Minor);
    assert_eq!(plan[0].to, v(1, 1, 0));
    assert_eq!(plan[1].name, "lib");
    assert_eq!(plan[1].kind, BumpKind::Minor);
    assert_eq!(plan[1].to, v(2, 2, 0));
}

#[test]
fn group_normalization_follows_propagation() {
    // "side" is grouped with "top"; "top" only moves because its dependency
    // "base" moves, and the group must still pull "side" along.
    let packages = vec![
        package("base", v(1, 0, 0), &[]),
        package("top", v(1, 0, 0), &["base"]),
        package("side", v(1, 0, 0), &[]),
    ];
    let records = vec![record("feat/base", &["base"], BumpKind::Minor)];
    let groups = vec![LinkedGroup {
        members: vec![String::from("top"), String::from("side")],
        fixed: false,
    }];
    let plan = get_bumps(&packages, &records, &no_commits(3), &groups, &options()).unwrap();
    assert_eq!(plan.len(), 3);
    assert_eq!(plan[1].name, "top");
    assert_eq!(plan[1].kind, BumpKind::Patch);
    assert_eq!(plan[2].name, "side");
    assert_eq!(plan[2].kind, BumpKind::Patch);
}

#[test]
fn preid_is_honored_in_the_plan() {
    let packages = vec![package("p", v(1, 0, 0), &[])];
    let records = vec![record("feat/p", &["p"], BumpKind::Minor)];
    let mut opts = options();
    opts.preid = Some(String::from("beta"));
    let plan = get_bumps(&packages, &records, &no_commits(1), &Vec::new(), &opts).unwrap();
    assert_eq!(plan.len(), 1);
    let to = &plan[0].to;
    assert_eq!((to.major, to.minor, to.patch), (1, 1, 0));
    let pre = to.pre.as_ref().unwrap();
    assert_eq!(pre.id, "beta");
    assert_eq!(pre.num, 0);
}

#[test]
fn no_signals_yield_an_empty_plan() {
    let packages = vec![
        package("a", v(1, 0, 0), &[]),
        package("b", v(1, 0, 0), &["a"]),
    ];
    let plan =
        get_bumps(&packages, &Vec::new(), &no_commits(2), &Vec::new(), &options()).unwrap();
    assert!(plan.is_empty());
}

#[test]
fn record_and_commit_signals_merge() {
    let packages = vec![package("p", v(1, 0, 0), &[])];
    let records = vec![record("fix/p", &["p"], BumpKind::Patch)];
    let commits = vec![vec![commit("s1", "feat: widen API"), commit("s2", "chore: tidy")]];
    let mut opts = options();
    opts.conventional_commits = true;
    let plan = get_bumps(&packages, &records, &commits, &Vec::new(), &opts).unwrap();
    assert_eq!(plan.len(), 1);
    assert_eq!(plan[0].kind, BumpKind::Minor);
    assert_eq!(
        plan[0].causes,
        vec![
            Cause::Branch(String::from("fix/p")),
            Cause::Commit(String::from("s1")),
        ]
    );
}

#[test]
fn resolution_is_deterministic_across_runs() {
    let packages = vec![
        package("a", v(1, 0, 0), &[]),
        package("b", v(1, 0, 0), &["a"]),
        package("c", v(1, 0, 0), &["b", "a"]),
    ];
    let records = vec![
        record("feat/a", &["a"], BumpKind::Minor),
        record("fix/c", &["c"], BumpKind::Patch),
    ];
    let first =
        get_bumps(&packages, &records, &no_commits(3), &Vec::new(), &options()).unwrap();
    let second =
        get_bumps(&packages, &records, &no_commits(3), &Vec::new(), &options()).unwrap();
    assert_eq!(first, second);
    assert_eq!(first.len(), 3);
}
