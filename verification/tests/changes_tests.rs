use bump_engine::changes::{ChangeRecord, ChangeStore};
use bump_engine::kind::BumpKind;

fn record(branch: &str, packages: &[&str], bump: BumpKind) -> ChangeRecord {
    ChangeRecord {
        branch: branch.to_string(),
        packages: packages.iter().map(|p| p.to_string()).collect(),
        bump,
        summary: String::from("a change"),
    }
}

#[test]
fn add_then_get_returns_the_record() {
    let mut store = ChangeStore::new();
    let r = record("feature/login", &["app", "lib"], BumpKind::Minor);
    store.add_change(r.clone());
    let got = store.get_change("feature/login");
    assert_eq!(got.len(), 1);
    assert_eq!(got[0], r);
}

#[test]
fn remove_then_exists_is_false() {
    let mut store = ChangeStore::new();
    store.add_change(record("feature/login", &["app"], BumpKind::Patch));
    assert!(store.change_exist("feature/login"));
    assert!(store.remove_change("feature/login"));
    assert!(!store.change_exist("feature/login"));
    assert!(!store.remove_change("feature/login"));
}

#[test]
fn get_of_missing_branch_is_empty() {
    let store = ChangeStore::new();
    assert!(store.get_change("nope").is_empty());
    assert!(!store.change_exist("nope"));
}

#[test]
fn add_overwrites_the_same_branch() {
    let mut store = ChangeStore::new();
    store.add_change(record("b1", &["app"], BumpKind::Patch));
    store.add_change(record("b1", &["app", "lib"], BumpKind::Major));
    let got = store.get_change("b1");
    assert_eq!(got.len(), 1);
    assert_eq!(got[0].bump, BumpKind::Major);
    assert_eq!(got[0].packages, vec![String::from("app"), String::from("lib")]);
    assert_eq!(store.all_changes().len(), 1);
}

#[test]
fn all_changes_keeps_store_order() {
    let mut store = ChangeStore::new();
    store.add_change(record("b1", &["app"], BumpKind::Patch));
    store.add_change(record("b2", &["lib"], BumpKind::Minor));
    store.add_change(record("b3", &["cli"], BumpKind::Major));
    let all = store.all_changes();
    assert_eq!(all.len(), 3);
    assert_eq!(all[0].branch, "b1");
    assert_eq!(all[1].branch, "b2");
    assert_eq!(all[2].branch, "b3");
    // an overwriting add moves the record to the end
    store.add_change(record("b1", &["app"], BumpKind::Minor));
    let all = store.all_changes();
    assert_eq!(all.len(), 3);
    assert_eq!(all[0].branch, "b2");
    assert_eq!(all[2].branch, "b1");
}
