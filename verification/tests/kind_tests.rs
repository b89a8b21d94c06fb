use bump_engine::kind::BumpKind;

#[test]
fn merge_takes_the_larger_kind() {
    assert_eq!(BumpKind::NoBump.merge(BumpKind::Patch), BumpKind::Patch);
    assert_eq!(BumpKind::Patch.merge(BumpKind::Minor), BumpKind::Minor);
    assert_eq!(BumpKind::Minor.merge(BumpKind::Major), BumpKind::Major);
    assert_eq!(BumpKind::Major.merge(BumpKind::NoBump), BumpKind::Major);
}

#[test]
fn merge_is_commutative_on_all_pairs() {
    let all = [BumpKind::NoBump, BumpKind::Patch, BumpKind::Minor, BumpKind::Major];
    for a in all {
        for b in all {
            assert_eq!(a.merge(b), b.merge(a));
        }
    }
}

#[test]
fn merge_is_associative_on_all_triples() {
    let all = [BumpKind::NoBump, BumpKind::Patch, BumpKind::Minor, BumpKind::Major];
    for a in all {
        for b in all {
            for c in all {
                assert_eq!(a.merge(b).merge(c), a.merge(b.merge(c)));
            }
        }
    }
}

#[test]
fn merge_is_idempotent() {
    let all = [BumpKind::NoBump, BumpKind::Patch, BumpKind::Minor, BumpKind::Major];
    for a in all {
        assert_eq!(a.merge(a), a);
    }
}

#[test]
fn levels_are_ordered() {
    assert_eq!(BumpKind::NoBump.level_exec(), 0);
    assert_eq!(BumpKind::Patch.level_exec(), 1);
    assert_eq!(BumpKind::Minor.level_exec(), 2);
    assert_eq!(BumpKind::Major.level_exec(), 3);
}
