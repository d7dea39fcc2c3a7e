use cargo_trim::classify::CrateList;
use cargo_trim::identity::CrateId;

fn id(name: &str, rev: &str) -> CrateId {
    CrateId { name: name.to_string(), rev: rev.to_string() }
}

fn pairs(v: &Vec<CrateId>) -> Vec<(String, String)> {
    v.iter().map(|c| (c.name.clone(), c.rev.clone())).collect()
}

fn pair(name: &str, rev: &str) -> (String, String) {
    (name.to_string(), rev.to_string())
}

#[test]
fn duplicate_names_are_both_old() {
    let list = CrateList::classify(
        vec![id("foo", "1.0.0"), id("foo", "2.0.0"), id("bar", "1.0.0")],
        Vec::new(),
        Vec::new(),
        Vec::new(),
        Vec::new(),
    );
    assert_eq!(pairs(&list.old_registry()), vec![pair("foo", "1.0.0"), pair("foo", "2.0.0")]);
}

#[test]
fn lone_crate_is_not_old() {
    let list = CrateList::classify(
        vec![id("bar", "1.0.0")],
        Vec::new(),
        Vec::new(),
        Vec::new(),
        Vec::new(),
    );
    assert!(list.old_registry().is_empty());
}

#[test]
fn orphan_registry_is_set_difference() {
    let list = CrateList::classify(
        vec![id("a", "1.0.0"), id("b", "1.0.0"), id("c", "1.0.0")],
        Vec::new(),
        vec![id("b", "1.0.0")],
        Vec::new(),
        Vec::new(),
    );
    assert_eq!(pairs(&list.orphan_registry()), vec![pair("a", "1.0.0"), pair("c", "1.0.0")]);
}

#[test]
fn empty_used_makes_every_registry_crate_orphan() {
    let list = CrateList::classify(
        vec![id("a", "1.0.0"), id("b", "1.0.0")],
        Vec::new(),
        Vec::new(),
        Vec::new(),
        Vec::new(),
    );
    assert_eq!(pairs(&list.orphan_registry()), pairs(&list.installed_registry()));
    assert_eq!(pairs(&list.orphan_registry()), vec![pair("a", "1.0.0"), pair("b", "1.0.0")]);
}

#[test]
fn classification_is_idempotent() {
    let inst_reg = vec![id("zeta", "0.1.0"), id("alpha", "2.0.0"), id("alpha", "1.0.0")];
    let inst_git = vec![id("repo", "HEAD"), id("repo", "abc1234")];
    let used_reg = vec![id("alpha", "1.0.0")];
    let used_git = vec![id("repo", "abc1234")];
    let fresh = vec![id("repo", "def5678")];
    let one = CrateList::classify(
        inst_reg.iter().map(|c| id(&c.name, &c.rev)).collect(),
        inst_git.iter().map(|c| id(&c.name, &c.rev)).collect(),
        used_reg.iter().map(|c| id(&c.name, &c.rev)).collect(),
        used_git.iter().map(|c| id(&c.name, &c.rev)).collect(),
        fresh.iter().map(|c| id(&c.name, &c.rev)).collect(),
    );
    let two = CrateList::classify(inst_reg, inst_git, used_reg, used_git, fresh);
    assert_eq!(pairs(&one.installed_registry()), pairs(&two.installed_registry()));
    assert_eq!(pairs(&one.installed_git()), pairs(&two.installed_git()));
    assert_eq!(pairs(&one.old_registry()), pairs(&two.old_registry()));
    assert_eq!(pairs(&one.old_git()), pairs(&two.old_git()));
    assert_eq!(pairs(&one.used_registry()), pairs(&two.used_registry()));
    assert_eq!(pairs(&one.used_git()), pairs(&two.used_git()));
    assert_eq!(pairs(&one.orphan_registry()), pairs(&two.orphan_registry()));
    assert_eq!(pairs(&one.orphan_git()), pairs(&two.orphan_git()));
}

#[test]
fn head_clone_is_orphan_with_empty_used_set() {
    let list = CrateList::classify(
        Vec::new(),
        vec![id("repo", "HEAD")],
        Vec::new(),
        Vec::new(),
        Vec::new(),
    );
    assert_eq!(pairs(&list.orphan_git()), vec![pair("repo", "HEAD")]);
}

#[test]
fn head_clone_is_kept_when_any_revision_of_its_name_is_used() {
    let list = CrateList::classify(
        Vec::new(),
        vec![id("repo", "HEAD")],
        Vec::new(),
        vec![id("repo", "9f8e7d1")],
        Vec::new(),
    );
    assert!(list.orphan_git().is_empty());
}

#[test]
fn pinned_clone_is_orphan_unless_exactly_used() {
    let list = CrateList::classify(
        Vec::new(),
        vec![id("repo", "abc1234"), id("other", "def5678")],
        Vec::new(),
        vec![id("repo", "abc1234")],
        Vec::new(),
    );
    assert_eq!(pairs(&list.orphan_git()), vec![pair("other", "def5678")]);
}

#[test]
fn stale_pinned_clone_is_old() {
    let list = CrateList::classify(
        Vec::new(),
        vec![id("repo", "abc1234")],
        Vec::new(),
        Vec::new(),
        vec![id("repo", "def5678")],
    );
    assert_eq!(pairs(&list.old_git()), vec![pair("repo", "abc1234")]);
}

#[test]
fn fresh_pinned_clone_is_not_old() {
    let list = CrateList::classify(
        Vec::new(),
        vec![id("repo", "abc1234")],
        Vec::new(),
        Vec::new(),
        vec![id("repo", "abc1234")],
    );
    assert!(list.old_git().is_empty());
}

#[test]
fn head_clone_is_never_old() {
    let list = CrateList::classify(
        Vec::new(),
        vec![id("repo", "HEAD")],
        Vec::new(),
        Vec::new(),
        Vec::new(),
    );
    assert!(list.old_git().is_empty());
}

#[test]
fn empty_installed_sets_yield_empty_outputs() {
    let list = CrateList::classify(
        Vec::new(),
        Vec::new(),
        vec![id("a", "1.0.0")],
        vec![id("b", "abc1234")],
        vec![id("c", "def5678")],
    );
    assert!(list.installed_registry().is_empty());
    assert!(list.installed_git().is_empty());
    assert!(list.old_registry().is_empty());
    assert!(list.old_git().is_empty());
    assert!(list.orphan_registry().is_empty());
    assert!(list.orphan_git().is_empty());
}

#[test]
fn installed_sets_are_sorted_and_deduplicated() {
    let list = CrateList::classify(
        vec![id("zeta", "1.0.0"), id("alpha", "1.0.0"), id("zeta", "1.0.0")],
        Vec::new(),
        Vec::new(),
        Vec::new(),
        Vec::new(),
    );
    assert_eq!(
        pairs(&list.installed_registry()),
        vec![pair("alpha", "1.0.0"), pair("zeta", "1.0.0")]
    );
}

#[test]
fn derived_sets_sort_ascending_by_identity_string() {
    let list = CrateList::classify(
        vec![id("b", "z"), id("b-a", "x")],
        Vec::new(),
        Vec::new(),
        Vec::new(),
        Vec::new(),
    );
    // Joined strings: "b-a-x" < "b-z", although the name "b" precedes "b-a".
    assert_eq!(pairs(&list.installed_registry()), vec![pair("b-a", "x"), pair("b", "z")]);
    assert_eq!(pairs(&list.orphan_registry()), vec![pair("b-a", "x"), pair("b", "z")]);
}

#[test]
fn coinciding_renderings_stay_distinct_identities() {
    let list = CrateList::classify(
        vec![id("b-a", "x"), id("b", "a-x")],
        Vec::new(),
        Vec::new(),
        Vec::new(),
        Vec::new(),
    );
    // Both render as "b-a-x"; the structured pair breaks the tie.
    assert_eq!(pairs(&list.installed_registry()), vec![pair("b", "a-x"), pair("b-a", "x")]);
}

#[test]
fn used_sets_are_returned_as_given() {
    let list = CrateList::classify(
        Vec::new(),
        Vec::new(),
        vec![id("b", "1.0.0"), id("a", "1.0.0")],
        vec![id("r", "abc1234")],
        Vec::new(),
    );
    assert_eq!(pairs(&list.used_registry()), vec![pair("b", "1.0.0"), pair("a", "1.0.0")]);
    assert_eq!(pairs(&list.used_git()), vec![pair("r", "abc1234")]);
}

#[test]
fn an_identity_can_be_both_old_and_orphan() {
    let list = CrateList::classify(
        vec![id("foo", "1.0.0"), id("foo", "2.0.0")],
        Vec::new(),
        vec![id("foo", "2.0.0")],
        Vec::new(),
        Vec::new(),
    );
    assert_eq!(pairs(&list.old_registry()), vec![pair("foo", "1.0.0"), pair("foo", "2.0.0")]);
    assert_eq!(pairs(&list.orphan_registry()), vec![pair("foo", "1.0.0")]);
}
