use cargo_trim::manifest::{git_id_of_entry, parse_manifest, used_registry_of, ManifestEntry};

#[test]
fn registry_record_yields_registry_identity() {
    let text = "[package]\nname = \"x\"\n[metadata]\n\
                \"checksum dep1 0.1.0 (registry+https://github.com/rust-lang/crates.io-index)\" = \"abc\"\n";
    let entries = parse_manifest(text);
    let used = used_registry_of(&entries);
    assert_eq!(used.len(), 1);
    assert_eq!(used[0].name, "dep1");
    assert_eq!(used[0].rev, "0.1.0");
}

#[test]
fn rev_parameter_yields_seven_character_revision() {
    let text = "[metadata]\n\
                \"checksum dep2 0.1.0 (git+https://github.com/example/dep2?rev=abcdef1234567890)\" = \"abc\"\n";
    let entries = parse_manifest(text);
    assert_eq!(entries.len(), 1);
    match &entries[0] {
        ManifestEntry::PinnedGit(id) => {
            assert_eq!(id.name, "dep2");
            assert_eq!(id.rev, "abcdef1");
        }
        _ => panic!("expected a pinned git entry"),
    }
}

#[test]
fn short_rev_parameter_is_kept_whole() {
    let text = "[metadata]\n\
                \"checksum dep2 0.1.0 (git+https://github.com/example/dep2?rev=abc)\" = \"x\"\n";
    let entries = parse_manifest(text);
    assert_eq!(entries.len(), 1);
    match &entries[0] {
        ManifestEntry::PinnedGit(id) => {
            assert_eq!(id.name, "dep2");
            assert_eq!(id.rev, "abc");
        }
        _ => panic!("expected a pinned git entry"),
    }
}

#[test]
fn branch_parameter_yields_unresolved_reference() {
    let text = "[metadata]\n\
                \"checksum dep3 0.1.0 (git+https://github.com/example/dep3?branch=main)\" = \"x\"\n";
    let entries = parse_manifest(text);
    assert_eq!(entries.len(), 1);
    match &entries[0] {
        ManifestEntry::UnresolvedGit { name, reference } => {
            assert_eq!(name, "dep3");
            assert_eq!(reference.as_deref(), Some("main"));
        }
        _ => panic!("expected an unresolved git entry"),
    }
}

#[test]
fn tag_parameter_yields_unresolved_reference() {
    let text = "[metadata]\n\
                \"checksum dep4 0.1.0 (git+https://github.com/example/dep4?tag=v1.0)\" = \"x\"\n";
    let entries = parse_manifest(text);
    assert_eq!(entries.len(), 1);
    match &entries[0] {
        ManifestEntry::UnresolvedGit { name, reference } => {
            assert_eq!(name, "dep4");
            assert_eq!(reference.as_deref(), Some("v1.0"));
        }
        _ => panic!("expected an unresolved git entry"),
    }
}

#[test]
fn plain_git_source_yields_unresolved_tip() {
    let text = "[metadata]\n\
                \"checksum dep5 0.1.0 (git+https://github.com/example/dep5)\" = \"x\"\n";
    let entries = parse_manifest(text);
    assert_eq!(entries.len(), 1);
    match &entries[0] {
        ManifestEntry::UnresolvedGit { name, reference } => {
            assert_eq!(name, "dep5");
            assert!(reference.is_none());
        }
        _ => panic!("expected an unresolved git entry"),
    }
}

#[test]
fn malformed_record_is_skipped_without_error() {
    let text = "[metadata]\nfoo bar\n\
                \"checksum dep1 0.1.0 (registry+https://github.com/rust-lang/crates.io-index)\" = \"x\"\n";
    let entries = parse_manifest(text);
    let used = used_registry_of(&entries);
    assert_eq!(used.len(), 1);
    assert_eq!(used[0].name, "dep1");
}

#[test]
fn missing_metadata_section_yields_nothing() {
    let text = "[package]\nname = \"x\"\nversion = \"0.1.0\"\n";
    let entries = parse_manifest(text);
    assert!(entries.is_empty());
}

#[test]
fn records_before_the_metadata_section_are_ignored() {
    let text = "\"checksum dep1 0.1.0 (registry+https://github.com/rust-lang/crates.io-index)\" = \"x\"\n\
                [metadata]\n";
    let entries = parse_manifest(text);
    assert!(entries.is_empty());
}

#[test]
fn unknown_source_kind_is_ignored() {
    let text = "[metadata]\n\
                \"checksum dep6 0.1.0 (path+file:///tmp/dep6)\" = \"x\"\n";
    let entries = parse_manifest(text);
    assert!(entries.is_empty());
}

#[test]
fn pinned_entry_contributes_its_identity() {
    let text = "[metadata]\n\
                \"checksum dep2 0.1.0 (git+https://github.com/example/dep2?rev=abcdef1234567890)\" = \"x\"\n";
    let entries = parse_manifest(text);
    let got = git_id_of_entry(&entries[0], None).expect("pinned entry must resolve");
    assert_eq!(got.name, "dep2");
    assert_eq!(got.rev, "abcdef1");
}

#[test]
fn unresolved_entry_takes_the_callers_revision() {
    let text = "[metadata]\n\
                \"checksum dep3 0.1.0 (git+https://github.com/example/dep3?branch=main)\" = \"x\"\n";
    let entries = parse_manifest(text);
    let got = git_id_of_entry(&entries[0], Some("1234abc".to_string()))
        .expect("resolved entry must yield an identity");
    assert_eq!(got.name, "dep3");
    assert_eq!(got.rev, "1234abc");
}

#[test]
fn failed_resolution_contributes_nothing() {
    let text = "[metadata]\n\
                \"checksum dep3 0.1.0 (git+https://github.com/example/dep3)\" = \"x\"\n";
    let entries = parse_manifest(text);
    assert!(git_id_of_entry(&entries[0], None).is_none());
}

#[test]
fn registry_entry_contributes_no_git_identity() {
    let text = "[metadata]\n\
                \"checksum dep1 0.1.0 (registry+https://github.com/rust-lang/crates.io-index)\" = \"x\"\n";
    let entries = parse_manifest(text);
    assert!(git_id_of_entry(&entries[0], Some("1234abc".to_string())).is_none());
}

#[test]
fn several_records_are_read_in_order() {
    let text = "[metadata]\n\
                \"checksum a 1.0.0 (registry+https://github.com/rust-lang/crates.io-index)\" = \"x\"\n\
                \"checksum b 2.0.0 (registry+https://github.com/rust-lang/crates.io-index)\" = \"y\"\n";
    let entries = parse_manifest(text);
    let used = used_registry_of(&entries);
    assert_eq!(used.len(), 2);
    assert_eq!(used[0].name, "a");
    assert_eq!(used[0].rev, "1.0.0");
    assert_eq!(used[1].name, "b");
    assert_eq!(used[1].rev, "2.0.0");
}
