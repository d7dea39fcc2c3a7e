use cargo_trim::cache::{
    fresh_git_from, installed_git_from, installed_registry_from, registry_id_from_archive,
    registry_id_from_dir, RepoRev,
};
use cargo_trim::identity::{clear_version_value, remove_version, CrateId};

fn pairs(v: &Vec<CrateId>) -> Vec<(String, String)> {
    v.iter().map(|c| (c.name.clone(), c.rev.clone())).collect()
}

fn pair(name: &str, rev: &str) -> (String, String) {
    (name.to_string(), rev.to_string())
}

#[test]
fn version_tag_is_stripped_at_the_last_hyphen() {
    assert_eq!(clear_version_value("sample_crate-0.12.0"), "sample_crate");
    assert_eq!(clear_version_value("actix-web-1.0.0"), "actix-web");
}

#[test]
fn a_name_without_a_hyphen_strips_to_nothing() {
    assert_eq!(clear_version_value("foo"), "");
}

#[test]
fn remove_version_strips_every_entry() {
    let list = vec![
        "foo-1.0.0".to_string(),
        "actix-web-1.0.0".to_string(),
        "bar".to_string(),
    ];
    assert_eq!(remove_version(&list), vec!["foo", "actix-web", ""]);
}

#[test]
fn a_source_directory_name_is_a_joined_identity() {
    let id = registry_id_from_dir("serde-1.0.118");
    assert_eq!(id.name, "serde");
    assert_eq!(id.rev, "1.0.118");
}

#[test]
fn an_archive_name_loses_its_extension_first() {
    let id = registry_id_from_archive("serde-1.0.118.crate");
    assert_eq!(id.name, "serde");
    assert_eq!(id.rev, "1.0.118");
}

#[test]
fn full_name_joins_name_and_revision() {
    let id = CrateId { name: "serde".to_string(), rev: "1.0.118".to_string() };
    assert_eq!(id.full_name(), "serde-1.0.118");
}

#[test]
fn installed_registry_unions_sources_and_archives() {
    let src = vec!["foo-1.0.0".to_string(), "zed-0.2.0".to_string()];
    let archives = vec!["foo-1.0.0.crate".to_string(), "bar-2.0.0.crate".to_string()];
    let r = installed_registry_from(&src, &archives);
    assert_eq!(
        pairs(&r),
        vec![pair("bar", "2.0.0"), pair("foo", "1.0.0"), pair("zed", "0.2.0")]
    );
}

#[test]
fn installed_git_lists_checkouts_and_head_markers() {
    let checkouts = vec![RepoRev {
        repo: "repo-1a2b3c8f".to_string(),
        rev: "9f8e7d1".to_string(),
    }];
    let db = vec!["repo-1a2b3c8f".to_string()];
    let r = installed_git_from(&checkouts, &db);
    assert_eq!(pairs(&r), vec![pair("repo", "9f8e7d1"), pair("repo", "HEAD")]);
}

#[test]
fn a_hyphenless_repository_name_is_kept_whole() {
    let checkouts = vec![RepoRev {
        repo: "foo-abc123def".to_string(),
        rev: "9f8e7d1".to_string(),
    }];
    let db = vec!["foo".to_string()];
    let r = installed_git_from(&checkouts, &db);
    assert_eq!(pairs(&r), vec![pair("foo", "9f8e7d1"), pair("foo", "HEAD")]);
}

#[test]
fn fresh_git_keeps_a_hyphenless_repository_name() {
    let heads = vec![RepoRev {
        repo: "foo".to_string(),
        rev: "def5678".to_string(),
    }];
    let r = fresh_git_from(&heads);
    assert_eq!(pairs(&r), vec![pair("foo", "def5678")]);
}

#[test]
fn fresh_git_pairs_repository_names_with_their_tips() {
    let heads = vec![RepoRev {
        repo: "repo-1a2b3c8f".to_string(),
        rev: "def5678".to_string(),
    }];
    let r = fresh_git_from(&heads);
    assert_eq!(pairs(&r), vec![pair("repo", "def5678")]);
}
