use backupmydevstuff::exclusion::{
    dependency_dir_path, ignore_file_path, inferred_exclusions, is_listed, manifest_path,
    needs_enumeration, resolve, retain_included, IgnoreProbe, Markers, Observation,
};

fn strings(items: &[&str]) -> Vec<String> {
    items.iter().map(|item| item.to_string()).collect()
}

fn plain() -> Markers {
    Markers { manifest: false, dependencies: false }
}

#[test]
fn probe_paths_lie_in_the_directory() {
    assert_eq!(ignore_file_path("/proj"), "/proj/.gitignore");
    assert_eq!(manifest_path("/proj"), "/proj/cargo.toml");
    assert_eq!(dependency_dir_path("/proj"), "/proj/node_modules");
}

#[test]
fn a_manifest_excludes_the_build_directory() {
    let markers = Markers { manifest: true, dependencies: false };
    assert_eq!(inferred_exclusions("/proj", markers), strings(&["/proj/target"]));
}

#[test]
fn a_dependency_directory_excludes_itself() {
    let markers = Markers { manifest: false, dependencies: true };
    assert_eq!(inferred_exclusions("/proj", markers), strings(&["/proj/node_modules"]));
}

#[test]
fn both_markers_exclude_both_directories() {
    let markers = Markers { manifest: true, dependencies: true };
    assert_eq!(
        inferred_exclusions("/proj", markers),
        strings(&["/proj/target", "/proj/node_modules"])
    );
}

#[test]
fn with_both_markers_neither_directory_is_processed() {
    let seen = Observation {
        ignore: IgnoreProbe::Missing,
        markers: Markers { manifest: true, dependencies: true },
        children: strings(&[
            "/proj/node_modules",
            "/proj/a.txt",
            "/proj/target",
            "/proj/cargo.toml",
        ]),
    };
    let task = resolve("/proj".to_string(), seen);
    assert_eq!(task.entries, strings(&["/proj/a.txt", "/proj/cargo.toml"]));
}

#[test]
fn no_marker_excludes_nothing() {
    assert!(inferred_exclusions("/proj", plain()).is_empty());
}

#[test]
fn is_listed_matches_whole_paths_only() {
    let list = strings(&["/proj/target", "/proj/b"]);
    assert!(is_listed(&"/proj/target".to_string(), &list));
    assert!(!is_listed(&"/proj/target/x".to_string(), &list));
    assert!(!is_listed(&"/proj/targe".to_string(), &list));
    assert!(!is_listed(&"/proj/target".to_string(), &Vec::new()));
}

#[test]
fn retain_included_keeps_order_and_drops_exact_matches() {
    let children = strings(&["/proj/z", "/proj/target", "/proj/a", "/proj/targets"]);
    let excluded = strings(&["/proj/target"]);
    assert_eq!(
        retain_included(children, &excluded),
        strings(&["/proj/z", "/proj/a", "/proj/targets"])
    );
}

#[test]
fn retain_included_keeps_duplicates_of_what_it_keeps() {
    let children = strings(&["a", "b", "a"]);
    assert_eq!(retain_included(children, &strings(&["b"])), strings(&["a", "a"]));
}

#[test]
fn only_a_listing_spares_the_enumeration() {
    assert!(needs_enumeration(&IgnoreProbe::Missing));
    assert!(needs_enumeration(&IgnoreProbe::Malformed));
    assert!(!needs_enumeration(&IgnoreProbe::Listing(Vec::new())));
}

#[test]
fn a_listing_is_taken_as_it_is_and_is_transitive() {
    let seen = Observation {
        ignore: IgnoreProbe::Listing(strings(&["/proj/src", "/proj/src/lib.rs", "/proj/target"])),
        markers: Markers { manifest: true, dependencies: true },
        children: strings(&["/proj/ignored"]),
    };
    let task = resolve("/proj".to_string(), seen);
    assert_eq!(task.directory, "/proj");
    assert_eq!(task.entries, strings(&["/proj/src", "/proj/src/lib.rs", "/proj/target"]));
    assert!(task.transitive);
}

#[test]
fn without_a_listing_children_are_filtered_one_level_deep() {
    let seen = Observation {
        ignore: IgnoreProbe::Missing,
        markers: Markers { manifest: true, dependencies: false },
        children: strings(&["/proj/a.txt", "/proj/cargo.toml", "/proj/target", "/proj/sub"]),
    };
    let task = resolve("/proj".to_string(), seen);
    assert_eq!(task.entries, strings(&["/proj/a.txt", "/proj/cargo.toml", "/proj/sub"]));
    assert!(!task.transitive);
}

#[test]
fn malformed_rules_resolve_as_missing_ones() {
    let children = strings(&["/proj/a.txt", "/proj/node_modules", "/proj/b"]);
    let markers = Markers { manifest: false, dependencies: true };
    let missing = resolve(
        "/proj".to_string(),
        Observation { ignore: IgnoreProbe::Missing, markers, children: children.clone() },
    );
    let malformed = resolve(
        "/proj".to_string(),
        Observation { ignore: IgnoreProbe::Malformed, markers, children },
    );
    assert_eq!(missing.entries, strings(&["/proj/a.txt", "/proj/b"]));
    assert_eq!(malformed.entries, missing.entries);
    assert_eq!(malformed.transitive, missing.transitive);
    assert_eq!(malformed.directory, missing.directory);
}
