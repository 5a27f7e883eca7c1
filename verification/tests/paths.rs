use backupmydevstuff::paths::{join, parent_of, relative_to};

#[test]
fn join_puts_one_separator_between_directory_and_name() {
    assert_eq!(join("/home/me/proj", "target"), "/home/me/proj/target");
    assert_eq!(join("proj", "a.txt"), "proj/a.txt");
}

#[test]
fn join_adds_no_separator_behind_one() {
    assert_eq!(join("/", "etc"), "/etc");
    assert_eq!(join("proj/", "a.txt"), "proj/a.txt");
}

#[test]
fn join_onto_nothing_is_the_name() {
    assert_eq!(join("", "a.txt"), "a.txt");
}

#[test]
fn relative_to_strips_root_and_separator() {
    assert_eq!(relative_to("/home/me/proj", "/home/me/proj/a.txt"), Some("a.txt".to_string()));
    assert_eq!(
        relative_to("/home/me/proj", "/home/me/proj/src/deep/lib.rs"),
        Some("src/deep/lib.rs".to_string())
    );
    assert_eq!(relative_to("/", "/etc/passwd"), Some("etc/passwd".to_string()));
}

#[test]
fn relative_to_refuses_what_is_not_below() {
    assert_eq!(relative_to("/home/me/proj", "/home/me/proj"), None);
    assert_eq!(relative_to("/home/me/proj", "/home/me/proj/"), None);
    assert_eq!(relative_to("/home/me/proj", "/home/me/project/a.txt"), None);
    assert_eq!(relative_to("/home/me/proj", "/home/me"), None);
    assert_eq!(relative_to("/home/me/proj", "/elsewhere/a.txt"), None);
}

#[test]
fn relative_to_counts_characters_not_bytes() {
    assert_eq!(relative_to("/données", "/données/été.txt"), Some("été.txt".to_string()));
}

#[test]
fn relative_to_undoes_join() {
    let path = join("/home/me/proj", "a.txt");
    assert_eq!(relative_to("/home/me/proj", &path), Some("a.txt".to_string()));
}

#[test]
fn parent_of_cuts_the_last_name() {
    assert_eq!(parent_of("/home/me/proj"), Some("/home/me".to_string()));
    assert_eq!(parent_of("a/b"), Some("a".to_string()));
    assert_eq!(parent_of("/home/me/proj/"), Some("/home/me/proj".to_string()));
}

#[test]
fn parent_of_a_top_level_path_is_the_root() {
    assert_eq!(parent_of("/proj"), Some("/".to_string()));
}

#[test]
fn parent_of_the_root_or_a_bare_name_is_none() {
    assert_eq!(parent_of("/"), None);
    assert_eq!(parent_of("proj"), None);
    assert_eq!(parent_of(""), None);
}
