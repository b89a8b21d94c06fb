use bump_engine::classify::{classify, classify_all};
use bump_engine::kind::BumpKind;

#[test]
fn feat_is_minor() {
    assert_eq!(classify("feat: add new feature"), BumpKind::Minor);
    assert_eq!(classify("feat(scope): add new feature"), BumpKind::Minor);
}

#[test]
fn fix_and_perf_are_patch() {
    assert_eq!(classify("fix: repair the thing"), BumpKind::Patch);
    assert_eq!(classify("perf(core): faster"), BumpKind::Patch);
}

#[test]
fn bang_before_colon_is_major() {
    assert_eq!(classify("feat!: drop legacy API"), BumpKind::Major);
    assert_eq!(classify("fix(scope)!: breaking repair"), BumpKind::Major);
}

#[test]
fn breaking_change_footer_is_major() {
    assert_eq!(
        classify("chore: tidy\n\nBREAKING CHANGE: config format changed"),
        BumpKind::Major
    );
}

#[test]
fn other_types_are_no_bump() {
    assert_eq!(classify("chore: tidy"), BumpKind::NoBump);
    assert_eq!(classify("docs: explain"), BumpKind::NoBump);
    assert_eq!(classify("refactor: shuffle"), BumpKind::NoBump);
    assert_eq!(classify("test: cover"), BumpKind::NoBump);
}

#[test]
fn unparseable_messages_are_no_bump() {
    assert_eq!(classify("no conventional header here"), BumpKind::NoBump);
    assert_eq!(classify(""), BumpKind::NoBump);
    assert_eq!(classify("feature: not feat"), BumpKind::NoBump);
    assert_eq!(classify("feat add thing"), BumpKind::NoBump);
}

#[test]
fn colon_after_first_line_does_not_count() {
    assert_eq!(classify("feat without colon\nfix: in the body"), BumpKind::NoBump);
}

#[test]
fn one_breaking_commit_outweighs_lesser_ones() {
    let msgs = vec![
        String::from("chore: tidy"),
        String::from("feat!: drop legacy API"),
        String::from("fix: small repair"),
    ];
    assert_eq!(classify_all(&msgs), BumpKind::Major);
}

#[test]
fn empty_history_is_no_bump() {
    let msgs: Vec<String> = Vec::new();
    assert_eq!(classify_all(&msgs), BumpKind::NoBump);
}
