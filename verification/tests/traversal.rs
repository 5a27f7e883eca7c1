use std::collections::BTreeMap;
use std::io::{Cursor, Read};

use backupmydevstuff::exclusion::{IgnoreProbe, Markers, Observation};
use backupmydevstuff::orchestrator::{complete, BackupError};
use backupmydevstuff::paths::join;
use backupmydevstuff::sink::SinkError;
use backupmydevstuff::traversal::{Entered, Traversal, TraversalError, Visited, Work};

/// What a directory of the tree below holds of ignore rules.
#[derive(Clone)]
enum Rules {
    Missing,
    Malformed,
    Listing(Vec<String>),
}

#[derive(Clone)]
enum Node {
    File(Vec<u8>),
    Locked,
    Dir { children: Vec<String>, rules: Rules },
}

/// A file system held in memory.
#[derive(Clone)]
struct Disk {
    nodes: BTreeMap<String, Node>,
}

impl Disk {
    fn new() -> Disk {
        Disk { nodes: BTreeMap::new() }
    }

    fn dir(&mut self, path: &str, names: &[&str]) {
        let children = names.iter().map(|name| join(path, name)).collect();
        self.nodes.insert(path.to_string(), Node::Dir { children, rules: Rules::Missing });
    }

    fn file(&mut self, path: &str, bytes: &[u8]) {
        self.nodes.insert(path.to_string(), Node::File(bytes.to_vec()));
    }

    fn locked(&mut self, path: &str) {
        self.nodes.insert(path.to_string(), Node::Locked);
    }

    fn rules(&mut self, path: &str, rules: Rules) {
        match self.nodes.get_mut(path) {
            Some(Node::Dir { rules: slot, .. }) => *slot = rules,
            _ => panic!("no directory at {}", path),
        }
    }

    fn is_file(&self, path: &str) -> bool {
        matches!(self.nodes.get(path), Some(Node::File(_)) | Some(Node::Locked))
    }

    fn is_dir(&self, path: &str) -> bool {
        matches!(self.nodes.get(path), Some(Node::Dir { .. }))
    }

    fn enter(&self, directory: &str) -> Entered {
        match self.nodes.get(directory) {
            Some(Node::Dir { children, rules }) => {
                let ignore = match rules {
                    Rules::Missing => IgnoreProbe::Missing,
                    Rules::Malformed => IgnoreProbe::Malformed,
                    Rules::Listing(paths) => IgnoreProbe::Listing(paths.clone()),
                };
                let listed = matches!(rules, Rules::Listing(_));
                let markers = Markers {
                    manifest: !listed && self.is_file(&join(directory, "cargo.toml")),
                    dependencies: !listed && self.is_dir(&join(directory, "node_modules")),
                };
                let children = if listed { Vec::new() } else { children.clone() };
                Entered::Seen(Observation { ignore, markers, children })
            }
            _ => Entered::Unreadable(format!("{} is no directory", directory)),
        }
    }

    fn visit(&self, path: &str) -> Visited {
        match self.nodes.get(path) {
            Some(Node::File(bytes)) => Visited::File(bytes.clone()),
            Some(Node::Locked) => Visited::Unreadable("permission denied".to_string()),
            _ => Visited::Folder,
        }
    }
}

/// Walks `root` on `disk`, looking up `limit` pieces of work at a time, each
/// batch from its far end where `backwards` is set.
fn archive(disk: &Disk, root: &str, limit: usize, backwards: bool) -> Result<Vec<u8>, BackupError> {
    let mut walk = Traversal::begin(root.to_string());
    loop {
        let mut batch = walk.next_batch(limit);
        if batch.is_empty() {
            break;
        }
        if backwards {
            batch.reverse();
        }
        for work in batch {
            let taken = match work {
                Work::Enter { directory } => {
                    let answer = disk.enter(&directory);
                    walk.entered(directory, answer)
                }
                Work::Visit { path, transitive } => {
                    let answer = disk.visit(&path);
                    walk.visited(path, transitive, answer)
                }
            };
            if let Err(failure) = taken {
                assert!(walk.has_failed());
                assert!(walk.is_idle());
                assert!(walk.next_batch(limit).is_empty());
                assert!(matches!(
                    complete(walk),
                    Err(BackupError::Traversal(TraversalError::Aborted))
                ));
                return Err(BackupError::Traversal(failure));
            }
        }
    }
    complete(walk)
}

/// The entries of an archive, sorted by name.
fn entries(archive: Vec<u8>) -> Vec<(String, Vec<u8>)> {
    let mut reader = zip::ZipArchive::new(Cursor::new(archive)).unwrap();
    let mut found = Vec::new();
    for index in 0..reader.len() {
        let mut file = reader.by_index(index).unwrap();
        let mut bytes = Vec::new();
        file.read_to_end(&mut bytes).unwrap();
        found.push((file.name().to_string(), bytes));
    }
    found.sort();
    found
}

fn names(archive: Vec<u8>) -> Vec<String> {
    entries(archive).into_iter().map(|(name, _)| name).collect()
}

fn strings(items: &[&str]) -> Vec<String> {
    items.iter().map(|item| item.to_string()).collect()
}

fn plain_tree() -> Disk {
    let mut disk = Disk::new();
    disk.dir("/w/proj", &["readme.md", "src", "empty", "z.bin"]);
    disk.file("/w/proj/readme.md", b"hello");
    disk.dir("/w/proj/src", &["lib.rs", "deep"]);
    disk.file("/w/proj/src/lib.rs", b"pub fn f() {}");
    disk.dir("/w/proj/src/deep", &["x"]);
    disk.file("/w/proj/src/deep/x", &[]);
    disk.dir("/w/proj/empty", &[]);
    disk.file("/w/proj/z.bin", &[0, 159, 146, 150]);
    disk
}

#[test]
fn a_plain_tree_is_archived_whole_with_relative_names_and_contents() {
    let archive = archive(&plain_tree(), "/w/proj", 4, false).unwrap();
    assert_eq!(
        entries(archive),
        vec![
            ("readme.md".to_string(), b"hello".to_vec()),
            ("src/deep/x".to_string(), Vec::new()),
            ("src/lib.rs".to_string(), b"pub fn f() {}".to_vec()),
            ("z.bin".to_string(), vec![0, 159, 146, 150]),
        ]
    );
}

#[test]
fn an_empty_directory_gives_an_empty_archive() {
    let mut disk = Disk::new();
    disk.dir("/w/proj", &[]);
    assert!(names(archive(&disk, "/w/proj", 1, false).unwrap()).is_empty());
}

#[test]
fn manifest_example_leaves_out_the_build_directory() {
    let mut disk = Disk::new();
    disk.dir("/w/proj", &["a.txt", "cargo.toml", "target"]);
    disk.file("/w/proj/a.txt", b"a");
    disk.file("/w/proj/cargo.toml", b"[package]");
    disk.dir("/w/proj/target", &["build.o"]);
    disk.file("/w/proj/target/build.o", b"\x7fELF");
    assert_eq!(
        names(archive(&disk, "/w/proj", 8, false).unwrap()),
        strings(&["a.txt", "cargo.toml"])
    );
}

#[test]
fn both_marker_directories_are_left_out_together() {
    let mut disk = Disk::new();
    disk.dir("/w/proj", &["a.txt", "cargo.toml", "target", "node_modules"]);
    disk.file("/w/proj/a.txt", b"A");
    disk.file("/w/proj/cargo.toml", b"C");
    disk.dir("/w/proj/target", &["t.o"]);
    disk.file("/w/proj/target/t.o", b"T");
    disk.dir("/w/proj/node_modules", &["m.js"]);
    disk.file("/w/proj/node_modules/m.js", b"M");
    assert_eq!(
        entries(archive(&disk, "/w/proj", 8, false).unwrap()),
        vec![("a.txt".to_string(), b"A".to_vec()), ("cargo.toml".to_string(), b"C".to_vec())]
    );
}

#[test]
fn a_dependency_directory_is_left_out_with_all_below_it() {
    let mut disk = Disk::new();
    disk.dir("/w/app", &["index.js", "node_modules", "lib"]);
    disk.file("/w/app/index.js", b"1");
    disk.dir("/w/app/node_modules", &["dep"]);
    disk.dir("/w/app/node_modules/dep", &["index.js"]);
    disk.file("/w/app/node_modules/dep/index.js", b"2");
    disk.dir("/w/app/lib", &["util.js"]);
    disk.file("/w/app/lib/util.js", b"3");
    assert_eq!(
        names(archive(&disk, "/w/app", 2, false).unwrap()),
        strings(&["index.js", "lib/util.js"])
    );
}

#[test]
fn markers_are_judged_anew_in_every_directory() {
    let mut disk = Disk::new();
    disk.dir("/w", &["one", "two"]);
    disk.dir("/w/one", &["cargo.toml", "target"]);
    disk.file("/w/one/cargo.toml", b"");
    disk.dir("/w/one/target", &["out"]);
    disk.file("/w/one/target/out", b"");
    disk.dir("/w/two", &["target"]);
    disk.dir("/w/two/target", &["kept"]);
    disk.file("/w/two/target/kept", b"");
    assert_eq!(
        names(archive(&disk, "/w", 3, false).unwrap()),
        strings(&["one/cargo.toml", "two/target/kept"])
    );
}

#[test]
fn a_listing_decides_what_is_archived() {
    let mut disk = plain_tree();
    disk.rules(
        "/w/proj",
        Rules::Listing(strings(&[
            "/w/proj/readme.md",
            "/w/proj/src",
            "/w/proj/src/lib.rs",
            "/w/proj/empty",
        ])),
    );
    assert_eq!(
        names(archive(&disk, "/w/proj", 3, false).unwrap()),
        strings(&["readme.md", "src/lib.rs"])
    );
}

#[test]
fn a_listing_overrides_the_markers() {
    let mut disk = Disk::new();
    disk.dir("/w/proj", &["cargo.toml", "target"]);
    disk.file("/w/proj/cargo.toml", b"");
    disk.dir("/w/proj/target", &["build.o"]);
    disk.file("/w/proj/target/build.o", b"");
    disk.rules(
        "/w/proj",
        Rules::Listing(strings(&[
            "/w/proj/cargo.toml",
            "/w/proj/target",
            "/w/proj/target/build.o",
        ])),
    );
    assert_eq!(
        names(archive(&disk, "/w/proj", 3, false).unwrap()),
        strings(&["cargo.toml", "target/build.o"])
    );
}

#[test]
fn a_listing_in_a_subdirectory_covers_that_subtree_only() {
    let mut disk = plain_tree();
    disk.rules("/w/proj/src", Rules::Listing(strings(&["/w/proj/src/deep", "/w/proj/src/deep/x"])));
    assert_eq!(
        names(archive(&disk, "/w/proj", 3, false).unwrap()),
        strings(&["readme.md", "src/deep/x", "z.bin"])
    );
}

#[test]
fn malformed_rules_give_the_archive_of_no_rules() {
    let mut disk = Disk::new();
    disk.dir("/w/proj", &["a.txt", "cargo.toml", "target", "sub"]);
    disk.file("/w/proj/a.txt", b"a");
    disk.file("/w/proj/cargo.toml", b"");
    disk.dir("/w/proj/target", &["build.o"]);
    disk.file("/w/proj/target/build.o", b"");
    disk.dir("/w/proj/sub", &["b.txt"]);
    disk.file("/w/proj/sub/b.txt", b"b");
    let without = entries(archive(&disk, "/w/proj", 3, false).unwrap());
    disk.rules("/w/proj", Rules::Malformed);
    disk.rules("/w/proj/sub", Rules::Malformed);
    let with = entries(archive(&disk, "/w/proj", 3, false).unwrap());
    assert_eq!(with, without);
    assert_eq!(
        with.into_iter().map(|(name, _)| name).collect::<Vec<String>>(),
        strings(&["a.txt", "cargo.toml", "sub/b.txt"])
    );
}

#[test]
fn the_same_tree_gives_the_same_entries_however_the_work_is_done() {
    let mut disk = plain_tree();
    disk.dir("/w/proj/empty", &["cargo.toml", "target", "more"]);
    disk.file("/w/proj/empty/cargo.toml", b"m");
    disk.dir("/w/proj/empty/target", &["o"]);
    disk.file("/w/proj/empty/target/o", b"o");
    disk.dir("/w/proj/empty/more", &["f"]);
    disk.file("/w/proj/empty/more/f", b"f");
    let expected = entries(archive(&disk, "/w/proj", 1, false).unwrap());
    assert_eq!(expected.len(), 6);
    for limit in [1usize, 2, 3, 7, 1000] {
        for backwards in [false, true] {
            assert_eq!(entries(archive(&disk, "/w/proj", limit, backwards).unwrap()), expected);
        }
    }
    assert_eq!(entries(archive(&disk, "/w/proj", 1, false).unwrap()), expected);
}

#[test]
fn many_files_are_archived_once_each_for_any_batch_size() {
    let mut disk = Disk::new();
    let mut top = Vec::new();
    let mut expected = Vec::new();
    for d in 0..12 {
        let dir = format!("d{:02}", d);
        let mut inside = Vec::new();
        for f in 0..10 {
            let name = format!("f{:02}.txt", f);
            let bytes = format!("{}-{}", d, f).into_bytes();
            disk.file(&format!("/w/big/{}/{}", dir, name), &bytes);
            expected.push((format!("{}/{}", dir, name), bytes));
            inside.push(name);
        }
        let inside: Vec<&str> = inside.iter().map(|name| name.as_str()).collect();
        disk.dir(&format!("/w/big/{}", dir), &inside);
        top.push(dir);
    }
    let top: Vec<&str> = top.iter().map(|name| name.as_str()).collect();
    disk.dir("/w/big", &top);
    expected.sort();
    assert_eq!(expected.len(), 120);
    for limit in [1usize, 2, 4, 16, 64] {
        assert_eq!(entries(archive(&disk, "/w/big", limit, limit % 4 == 0).unwrap()), expected);
    }
}

#[test]
fn an_unreadable_file_fails_the_walk_and_leaves_no_archive() {
    let mut disk = plain_tree();
    disk.locked("/w/proj/src/lib.rs");
    for limit in [1usize, 3, 100] {
        match archive(&disk, "/w/proj", limit, false) {
            Err(BackupError::Traversal(TraversalError::Unreadable { path, reason })) => {
                assert_eq!(path, "/w/proj/src/lib.rs");
                assert_eq!(reason, "permission denied");
            }
            other => panic!("unexpected: {:?}", other.map(|bytes| bytes.len())),
        }
    }
}

#[test]
fn an_unreadable_directory_fails_the_walk() {
    let mut disk = Disk::new();
    disk.dir("/w/proj", &["gone"]);
    match archive(&disk, "/w/proj", 1, false) {
        Err(BackupError::Traversal(TraversalError::Unreadable { path, .. })) => {
            assert_eq!(path, "/w/proj/gone");
        }
        other => panic!("unexpected: {:?}", other.map(|bytes| bytes.len())),
    }
}

#[test]
fn a_root_that_cannot_be_read_fails_the_walk() {
    let disk = Disk::new();
    assert!(matches!(
        archive(&disk, "/nowhere", 1, false),
        Err(BackupError::Traversal(TraversalError::Unreadable { .. }))
    ));
}

#[test]
fn a_failed_walk_refuses_further_answers() {
    let mut walk = Traversal::begin("/w/proj".to_string());
    let batch = walk.next_batch(1);
    assert_eq!(batch.len(), 1);
    let failed = walk.entered("/w/proj".to_string(), Entered::Unreadable("gone".to_string()));
    assert!(matches!(failed, Err(TraversalError::Unreadable { .. })));
    assert!(walk.has_failed());
    let late = walk.visited("/w/proj/a".to_string(), false, Visited::File(vec![1]));
    assert!(matches!(late, Err(TraversalError::Aborted)));
    let later = walk.entered(
        "/w/proj".to_string(),
        Entered::Seen(Observation {
            ignore: IgnoreProbe::Missing,
            markers: Markers { manifest: false, dependencies: false },
            children: strings(&["/w/proj/a"]),
        }),
    );
    assert!(matches!(later, Err(TraversalError::Aborted)));
    assert!(walk.is_idle());
    assert!(matches!(walk.finish(), Err(TraversalError::Aborted)));
}

/// A walk over `root` that has been told that `root` holds `children`, and
/// has handed out the visits of them, oldest child last.
fn walk_with_children(root: &str, children: &[&str]) -> (Traversal, Vec<Work>) {
    let mut walk = Traversal::begin(root.to_string());
    assert_eq!(walk.next_batch(1).len(), 1);
    walk.entered(
        root.to_string(),
        Entered::Seen(Observation {
            ignore: IgnoreProbe::Missing,
            markers: Markers { manifest: false, dependencies: false },
            children: strings(children),
        }),
    )
    .unwrap();
    let batch = walk.next_batch(children.len());
    assert_eq!(batch.len(), children.len());
    (walk, batch)
}

#[test]
fn a_file_outside_the_root_fails_the_walk() {
    let (mut walk, _) = walk_with_children("/w/proj", &["/w/other/a.txt"]);
    let refused = walk.visited("/w/other/a.txt".to_string(), false, Visited::File(vec![1]));
    match refused {
        Err(TraversalError::OutsideRoot { path }) => assert_eq!(path, "/w/other/a.txt"),
        other => panic!("unexpected: {:?}", other),
    }
    assert!(walk.has_failed());
}

#[test]
fn a_file_whose_name_is_too_long_fails_the_walk() {
    let path = format!("/w/{}", "n".repeat(65536));
    let (mut walk, _) = walk_with_children("/w", &[path.as_str()]);
    let refused = walk.visited(path, false, Visited::File(vec![1]));
    assert!(matches!(refused, Err(TraversalError::Sink(SinkError::NameTooLong))));
    assert!(walk.has_failed());
}

#[test]
fn an_answer_that_was_not_asked_for_is_refused_and_changes_nothing() {
    let (mut walk, _) = walk_with_children("/w", &["/w/a.txt"]);
    let stray = walk.visited("/w/b.txt".to_string(), false, Visited::File(vec![1]));
    match stray {
        Err(TraversalError::Unasked { path }) => assert_eq!(path, "/w/b.txt"),
        other => panic!("unexpected: {:?}", other),
    }
    let covered = walk.visited("/w/a.txt".to_string(), true, Visited::File(vec![1]));
    assert!(matches!(covered, Err(TraversalError::Unasked { .. })));
    let entered = walk.entered("/w/a.txt".to_string(), Entered::Unreadable("no".to_string()));
    assert!(matches!(entered, Err(TraversalError::Unasked { .. })));
    assert!(!walk.has_failed());
    walk.visited("/w/a.txt".to_string(), false, Visited::File(b"a".to_vec())).unwrap();
    let mut sink = walk.finish().unwrap();
    assert_eq!(names(sink.finalize().unwrap()), strings(&["a.txt"]));
}

#[test]
fn work_is_answered_once_only() {
    let (mut walk, _) = walk_with_children("/w", &["/w/a.txt"]);
    walk.visited("/w/a.txt".to_string(), false, Visited::File(b"a".to_vec())).unwrap();
    let again = walk.visited("/w/a.txt".to_string(), false, Visited::File(b"a".to_vec()));
    match again {
        Err(TraversalError::Unasked { path }) => assert_eq!(path, "/w/a.txt"),
        other => panic!("unexpected: {:?}", other),
    }
    let root_again = walk.entered("/w".to_string(), Entered::Unreadable("late".to_string()));
    assert!(matches!(root_again, Err(TraversalError::Unasked { .. })));
    let mut sink = walk.finish().unwrap();
    assert_eq!(names(sink.finalize().unwrap()), strings(&["a.txt"]));
}

#[test]
fn work_handed_out_twice_is_answered_twice() {
    let (mut walk, batch) = walk_with_children("/w", &["/w/d", "/w/d"]);
    assert_eq!(batch.len(), 2);
    walk.visited("/w/d".to_string(), false, Visited::Folder).unwrap();
    walk.visited("/w/d".to_string(), false, Visited::Folder).unwrap();
    let third = walk.visited("/w/d".to_string(), false, Visited::Folder);
    assert!(matches!(third, Err(TraversalError::Unasked { .. })));
    assert_eq!(walk.next_batch(9).len(), 2);
}

#[test]
fn a_walk_with_work_out_keeps_its_archive() {
    let (walk, batch) = walk_with_children("/w", &["/w/a.txt"]);
    assert_eq!(batch.len(), 1);
    assert!(walk.is_idle());
    assert!(matches!(walk.finish(), Err(TraversalError::Unfinished)));
    let (walk, _) = walk_with_children("/w", &["/w/a.txt"]);
    assert!(matches!(
        complete(walk),
        Err(BackupError::Traversal(TraversalError::Unfinished))
    ));
}

#[test]
fn work_is_handed_out_newest_first_and_only_once() {
    let mut walk = Traversal::begin("/w".to_string());
    assert!(!walk.is_idle());
    let first = walk.next_batch(5);
    assert_eq!(first.len(), 1);
    assert!(matches!(&first[0], Work::Enter { directory } if directory == "/w"));
    assert!(walk.is_idle());
    walk.entered(
        "/w".to_string(),
        Entered::Seen(Observation {
            ignore: IgnoreProbe::Missing,
            markers: Markers { manifest: false, dependencies: false },
            children: strings(&["/w/a", "/w/b", "/w/c"]),
        }),
    )
    .unwrap();
    assert!(walk.next_batch(0).is_empty());
    let two = walk.next_batch(2);
    assert_eq!(two.len(), 2);
    assert!(matches!(&two[0], Work::Visit { path, transitive: false } if path == "/w/c"));
    assert!(matches!(&two[1], Work::Visit { path, transitive: false } if path == "/w/b"));
    let rest = walk.next_batch(2);
    assert_eq!(rest.len(), 1);
    assert!(matches!(&rest[0], Work::Visit { path, transitive: false } if path == "/w/a"));
    assert!(walk.next_batch(2).is_empty());
}

#[test]
fn a_folder_is_entered_unless_a_listing_covers_it() {
    let mut walk = Traversal::begin("/w".to_string());
    walk.next_batch(1);
    walk.entered(
        "/w".to_string(),
        Entered::Seen(Observation {
            ignore: IgnoreProbe::Listing(strings(&["/w/covered"])),
            markers: Markers { manifest: false, dependencies: false },
            children: Vec::new(),
        }),
    )
    .unwrap();
    let listed = walk.next_batch(9);
    assert_eq!(listed.len(), 1);
    assert!(matches!(&listed[0], Work::Visit { path, transitive: true } if path == "/w/covered"));
    walk.visited("/w/covered".to_string(), true, Visited::Folder).unwrap();
    assert!(walk.is_idle());
    assert!(walk.finish().is_ok());

    let (mut walk, _) = walk_with_children("/w", &["/w/open"]);
    walk.visited("/w/open".to_string(), false, Visited::Folder).unwrap();
    let next = walk.next_batch(9);
    assert_eq!(next.len(), 1);
    assert!(matches!(&next[0], Work::Enter { directory } if directory == "/w/open"));
}

#[test]
fn a_walk_that_is_through_gives_up_an_open_archive() {
    let (mut walk, _) = walk_with_children("/w", &["/w/a.txt"]);
    walk.visited("/w/a.txt".to_string(), false, Visited::File(b"a".to_vec())).unwrap();
    let mut sink = walk.finish().unwrap();
    assert_eq!(names(sink.finalize().unwrap()), strings(&["a.txt"]));
}

#[test]
fn a_walk_with_work_left_keeps_its_archive() {
    let walk = Traversal::begin("/w".to_string());
    assert!(matches!(walk.finish(), Err(TraversalError::Unfinished)));
}
