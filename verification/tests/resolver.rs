use pk::project::{classify_entries, find_project_root, last_segment, DirListing, Project};

fn strings(names: &[&str]) -> Vec<String> {
    names.iter().map(|n| n.to_string()).collect()
}

fn listing(path: &str, entries: &[&str]) -> DirListing {
    DirListing { path: path.to_string(), entries: strings(entries) }
}

#[test]
fn language_tier_beats_vcs_tier() {
    let kind = classify_entries(&strings(&["go.mod", ".git"]));
    assert_eq!(kind, Some("go".to_string()));
}

#[test]
fn vcs_tier_beats_misc_tier() {
    let kind = classify_entries(&strings(&[".gitignore", ".idea"]));
    assert_eq!(kind, Some("git".to_string()));
}

#[test]
fn language_tier_beats_misc_tier() {
    // `.envrc` is both a nix marker (language tier) and an environment
    // marker (misc tier); the language tier is consulted first.
    let kind = classify_entries(&strings(&[".envrc"]));
    assert_eq!(kind, Some("nix".to_string()));
}

#[test]
fn within_tier_first_match_wins() {
    // `Makefile` belongs to both `c` and `cpp`; `c` stands first.
    let kind = classify_entries(&strings(&["Makefile"]));
    assert_eq!(kind, Some("c".to_string()));
}

#[test]
fn unknown_entries_do_not_classify() {
    assert_eq!(classify_entries(&strings(&["README.md", "notes.txt"])), None);
    assert_eq!(classify_entries(&strings(&[])), None);
}

#[test]
fn misc_tier_still_matches() {
    assert_eq!(classify_entries(&strings(&[".cache"])), Some("cache".to_string()));
}

#[test]
fn rust_project_from_nested_file() {
    // A `/repo` directory holding `Cargo.toml`; resolution starts at the
    // parent directory of `/repo/src/main.rs`.
    let ancestors = vec![
        listing("/repo/src", &["main.rs"]),
        listing("/repo", &["Cargo.toml", "src"]),
        listing("/", &["repo"]),
    ];
    let p = find_project_root("/repo/src", &ancestors);
    assert_eq!(p.path, "/repo");
    assert_eq!(p.kind, "rust");
    assert_eq!(p.name, "src");
    assert_eq!(p.priority, 0);
}

#[test]
fn nearest_ancestor_wins() {
    let ancestors = vec![
        listing("/a/b", &["go.mod"]),
        listing("/a", &["Cargo.toml"]),
    ];
    let p = find_project_root("/a/b", &ancestors);
    assert_eq!(p.path, "/a/b");
    assert_eq!(p.kind, "go");
}

#[test]
fn fallback_keeps_start_path() {
    let ancestors = vec![
        listing("/plain/dir", &["notes.txt"]),
        listing("/plain", &[]),
        listing("/", &["plain"]),
    ];
    let p = find_project_root("/plain/dir", &ancestors);
    assert_eq!(p.path, "/plain/dir");
    assert_eq!(p.kind, "");
    assert_eq!(p.name, "dir");
}

#[test]
fn unreadable_ancestors_are_skipped() {
    // An unreadable directory contributes no entries and the walk goes on.
    let ancestors = vec![
        listing("/x/y", &[]),
        listing("/x", &["pom.xml"]),
    ];
    let p = find_project_root("/x/y", &ancestors);
    assert_eq!(p.path, "/x");
    assert_eq!(p.kind, "java");
}

#[test]
fn find_project_without_match_changes_nothing() {
    let mut p = Project::new("label", "/somewhere");
    p.find_project(&vec![listing("/somewhere", &["data.bin"])]);
    assert_eq!(p.name, "label");
    assert_eq!(p.path, "/somewhere");
    assert_eq!(p.kind, "");
    assert_eq!(p.description, "");
    assert_eq!(p.priority, 0);
}

#[test]
fn last_segment_of_paths() {
    assert_eq!(last_segment("/foo/bar"), "bar");
    assert_eq!(last_segment("/"), "");
    assert_eq!(last_segment("plain"), "plain");
    assert_eq!(last_segment(""), "");
}
