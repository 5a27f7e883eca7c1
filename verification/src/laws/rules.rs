//! What ignore rules and project markers do to a walk.

use vstd::prelude::*;
use vstd::seq_lib::*;
use crate::exclusion::{
    build_dir_name, dependency_dir_name, exclusions, is_kept, resolved, retained, ObservationView,
    ProbeView, TaskView,
};
use crate::laws::balance::{law_walk_archives_the_walked_files, lemma_walked_within};
use crate::laws::shape::{
    law_walk_archives_each_file_once, lemma_entries_of, lemma_listing_walk, lemma_walked_stays,
    lemma_walked_within_holds, lemma_walked_within_origin,
};
use crate::paths::{
    at_or_below, is_below, joined, lemma_children_keep_apart, lemma_joined_is_child,
    lemma_relative_keeps_below, relative_part, separator, with_separator,
};
use crate::sink::{names_of, EntryView};
use crate::traversal::{began, visits, WorkView};
use crate::tree::{anchor, run, Move, Tree};

verus! {

/// Ignore rules that cannot be used decide as much as none: the entries to
/// process are the same.
pub proof fn law_malformed_rules_count_as_none(dir: Seq<char>, seen: ObservationView)
    ensures
        resolved(dir, ObservationView { ignore: ProbeView::Malformed, ..seen }) == resolved(
            dir,
            ObservationView { ignore: ProbeView::Missing, ..seen },
        ),
{
}

/// Whether two observations differ at most in that one finds the ignore
/// rules missing where the other finds them unusable.
pub open spec fn alike(a: ObservationView, b: ObservationView) -> bool {
    &&& a.markers == b.markers
    &&& a.children == b.children
    &&& a.ignore == b.ignore || (!(a.ignore is Listing) && !(b.ignore is Listing))
}

/// Whether two trees differ at most in that one finds ignore rules missing
/// where the other finds them unusable.
pub open spec fn alike_trees(a: Tree, b: Tree) -> bool {
    &&& a.files == b.files
    &&& a.heights == b.heights
    &&& a.directories.dom() == b.directories.dom()
    &&& forall|dir: Seq<char>|
        a.is_directory(dir) ==> alike(#[trigger] a.directories[dir], b.directories[dir])
}

/// Trees that are alike lead a list of work to the same files.
proof fn lemma_alike_within(a: Tree, b: Tree, bound: nat, works: Seq<WorkView>)
    requires
        alike_trees(a, b),
    ensures
        a.walked_within(bound, works) == b.walked_within(bound, works),
    decreases bound, 0nat, works.len(),
{
    if works.len() > 0 {
        lemma_alike_within(a, b, bound, works.drop_last());
        assert(a.weight(works.last()) == b.weight(works.last()));
        if a.weight(works.last()) < bound {
            law_unusable_rules_change_nothing(a, b, works.last());
        }
    }
}

/// Unusable ignore rules change nothing: a tree in which some are found
/// leads every piece of work to the same files as the tree that has none in
/// their place.
pub proof fn law_unusable_rules_change_nothing(a: Tree, b: Tree, work: WorkView)
    requires
        alike_trees(a, b),
    ensures
        a.walked(work) == b.walked(work),
    decreases a.weight(work), (if work is Visit {
        2nat
    } else {
        1nat
    }), 0nat,
{
    assert(a.weight(work) == b.weight(work));
    match work {
        WorkView::Enter { directory } => {
            if a.is_directory(directory) {
                assert(alike(a.directories[directory], b.directories[directory]));
                assert(a.visits_of(directory) == b.visits_of(directory));
                lemma_alike_within(a, b, a.weight(work), a.visits_of(directory));
            }
        },
        WorkView::Visit { path, transitive } => {
            if !a.is_file(path) && !transitive && a.is_directory(path) {
                law_unusable_rules_change_nothing(a, b, WorkView::Enter { directory: path });
            }
        },
    }
}

/// Where the ignore rules of a directory give a listing, entering the
/// directory leads to the regular files of the listing, in its order, and to
/// nothing else.
pub proof fn law_listing_decides(tree: Tree, dir: Seq<char>, listing: Seq<Seq<char>>)
    requires
        tree.is_directory(dir),
        tree.directories[dir].ignore == ProbeView::Listing(listing),
    ensures
        tree.walked(WorkView::Enter { directory: dir }) == listing.filter(tree.file_test()),
        forall|path: Seq<char>|
            tree.walked(WorkView::Enter { directory: dir }).contains(path) <==> listing.contains(
                path,
            ) && tree.is_file(path),
{
    let enter = WorkView::Enter { directory: dir };
    let works = tree.visits_of(dir);
    let files = listing.filter(tree.file_test());
    assert(works == visits(TaskView { directory: dir, entries: listing, transitive: true }));
    lemma_walked_within(tree, tree.weight(enter), works);
    lemma_listing_walk(tree, dir, listing, listing.len() as int);
    assert(works.take(listing.len() as int) =~= works);
    assert(listing.take(listing.len() as int) =~= listing);
    assert forall|path: Seq<char>| files.contains(path) <==> listing.contains(path)
        && tree.is_file(path) by {
        if files.contains(path) {
            listing.lemma_filter_contains_rev(tree.file_test(), path);
            let i = choose|i: int| 0 <= i < files.len() && files[i] == path;
            listing.lemma_filter_pred(tree.file_test(), i);
        }
        if listing.contains(path) && tree.is_file(path) {
            let i = choose|i: int| 0 <= i < listing.len() && listing[i] == path;
            listing.lemma_filter_contains(tree.file_test(), i);
        }
    }
}

/// Over a root whose ignore rules give a listing, a walk that runs to its
/// end without failing has archived every regular file that the listing
/// holds, and nothing at or below a path that the listing leaves out.
pub proof fn law_listing_decides_the_archive(
    tree: Tree,
    root: Seq<char>,
    listing: Seq<Seq<char>>,
    left_out: Seq<char>,
    steps: Seq<Move>,
)
    requires
        tree.wf(),
        tree.proper(),
        tree.is_directory(root),
        tree.directories[root].ignore == ProbeView::Listing(listing),
        is_below(root, left_out),
        forall|i: int| 0 <= i < listing.len() ==> !at_or_below(left_out, #[trigger] listing[i]),
        tree.allows_all(began(root), steps),
        !run(began(root), steps).failed,
        run(began(root), steps).pending.len() == 0,
    ensures
        forall|path: Seq<char>|
            listing.contains(path) && tree.is_file(path) ==> run(
                began(root),
                steps,
            ).archive.contains(tree.entry_at(root, path)),
        forall|i: int|
            0 <= i < run(began(root), steps).archive.len() ==> !at_or_below(
                relative_part(root, left_out).unwrap(),
                (#[trigger] run(began(root), steps).archive[i]).name,
            ),
{
    let enter = WorkView::Enter { directory: root };
    let archive = run(began(root), steps).archive;
    let name = relative_part(root, left_out).unwrap();
    law_walk_archives_each_file_once(tree, root, steps);
    law_listing_decides(tree, root, listing);
    lemma_walked_stays(tree, enter);
    assert(joined(root, name) =~= left_out) by {
        let n = with_separator(root).len() as int;
        assert forall|i: int| 0 <= i < left_out.len() implies joined(root, name)[i]
            == left_out[i] by {
            if i < n {
                assert(left_out.subrange(0, n)[i] == left_out[i]);
            }
        }
    }
    assert forall|i: int| 0 <= i < archive.len() implies !at_or_below(
        name,
        (#[trigger] archive[i]).name,
    ) by {
        let path = choose|path: Seq<char>|
            tree.walked(enter).contains(path) && tree.entry_at(root, path) == archive[i];
        let at = choose|at: int|
            0 <= at < tree.walked(enter).len() && tree.walked(enter)[at] == path;
        let listed = choose|listed: int| 0 <= listed < listing.len() && listing[listed] == path;
        lemma_relative_keeps_below(root, name, path);
    }
}

/// Where nothing is excluded, every child is retained.
proof fn lemma_nothing_excluded(children: Seq<Seq<char>>)
    ensures
        retained(children, Seq::empty()) == children,
    decreases children.len(),
{
    reveal(Seq::filter);
    if children.len() > 0 {
        lemma_nothing_excluded(children.drop_last());
        assert(retained(children, Seq::empty()) =~= children);
    }
}

/// In a plain tree, entering a directory leads to every file below it.
proof fn lemma_plain_walk(tree: Tree, dir: Seq<char>)
    requires
        tree.wf(),
        tree.plain(),
    ensures
        tree.walked(WorkView::Enter { directory: dir }) == tree.files_below(dir),
    decreases tree.weight(WorkView::Enter { directory: dir }), 1nat, 0nat,
{
    if tree.is_directory(dir) {
        let children = tree.directories[dir].children;
        lemma_plain_among(tree, dir, children.len() as int);
        lemma_nothing_excluded(children);
        assert(tree.visits_of(dir).take(children.len() as int) =~= tree.visits_of(dir));
        assert(children.take(children.len() as int) =~= children);
    }
}

/// In a plain tree, the visits of the first `k` children lead to every file
/// at and below them.
proof fn lemma_plain_among(tree: Tree, dir: Seq<char>, k: int)
    requires
        tree.wf(),
        tree.plain(),
        tree.is_directory(dir),
        0 <= k <= tree.directories[dir].children.len(),
    ensures
        tree.visits_of(dir).len() == tree.directories[dir].children.len(),
        tree.walked_within(
            tree.weight(WorkView::Enter { directory: dir }),
            tree.visits_of(dir).take(k),
        ) == tree.files_among(
            tree.weight(WorkView::Enter { directory: dir }),
            tree.directories[dir].children.take(k),
        ),
    decreases tree.weight(WorkView::Enter { directory: dir }), 0nat, k,
{
    let children = tree.directories[dir].children;
    let works = tree.visits_of(dir);
    let bound = tree.weight(WorkView::Enter { directory: dir });
    lemma_nothing_excluded(children);
    assert(exclusions(dir, tree.directories[dir].markers) =~= Seq::<Seq<char>>::empty());
    if k > 0 {
        lemma_plain_among(tree, dir, k - 1);
        let child = children[k - 1];
        assert(works[k - 1] == WorkView::Visit { path: child, transitive: false });
        assert(tree.weight(works[k - 1]) < bound);
        assert(works.take(k).drop_last() =~= works.take(k - 1));
        assert(children.take(k).drop_last() =~= children.take(k - 1));
        assert(works.take(k).last() == works[k - 1]);
        assert(children.take(k).last() == child);
        if tree.is_file(child) {
            assert(tree.walked(works[k - 1]) =~= seq![child]);
        } else if tree.is_directory(child) {
            lemma_plain_walk(tree, child);
            assert(tree.walked(works[k - 1]) == tree.files_below(child));
        } else {
            assert(tree.walked(works[k - 1]) =~= tree.files_below(child));
        }
    } else {
        assert(works.take(0).len() == 0);
        assert(children.take(0).len() == 0);
    }
}

/// In a tree without ignore rules and without project markers, entering a
/// directory leads to every regular file below it.
pub proof fn law_plain_tree_is_walked_whole(tree: Tree, root: Seq<char>)
    requires
        tree.wf(),
        tree.plain(),
    ensures
        tree.walked(WorkView::Enter { directory: root }) == tree.files_below(root),
{
    lemma_plain_walk(tree, root);
}

/// Over a tree without ignore rules and without project markers, a walk
/// that runs to its end without failing has archived every regular file of
/// the tree, and each exactly once.
pub proof fn law_plain_tree_is_archived_whole(tree: Tree, root: Seq<char>, steps: Seq<Move>)
    requires
        tree.wf(),
        tree.proper(),
        tree.plain(),
        tree.allows_all(began(root), steps),
        !run(began(root), steps).failed,
        run(began(root), steps).pending.len() == 0,
    ensures
        run(began(root), steps).archive.to_multiset() == tree.entries_at(
            root,
            tree.files_below(root),
        ).to_multiset(),
        run(began(root), steps).archive.len() == tree.files_below(root).len(),
        names_of(run(began(root), steps).archive).no_duplicates(),
{
    law_plain_tree_is_walked_whole(tree, root);
    law_walk_archives_the_walked_files(tree, root, steps);
    law_walk_archives_each_file_once(tree, root, steps);
    to_multiset_len(run(began(root), steps).archive);
    to_multiset_len(tree.entries_at(root, tree.files_below(root)));
}

/// The names of the build and dependency directories are single names.
proof fn lemma_marker_names()
    ensures
        build_dir_name().len() > 0,
        !build_dir_name().contains(separator()),
        dependency_dir_name().len() > 0,
        !dependency_dir_name().contains(separator()),
{
    reveal_strlit("target");
    reveal_strlit("node_modules");
    let build = build_dir_name();
    let deps = dependency_dir_name();
    assert forall|i: int| 0 <= i < build.len() implies build[i] != separator() by {}
    assert forall|i: int| 0 <= i < deps.len() implies deps[i] != separator() by {}
}

/// In a directory without a listing, what the project markers exclude is
/// left out whole: the walk from the directory leads to no file at or below
/// an excluded path. Every other child that is a regular file is led to.
pub proof fn law_marked_directory_is_left_out(tree: Tree, dir: Seq<char>)
    requires
        tree.proper(),
        tree.is_directory(dir),
        !(tree.directories[dir].ignore is Listing),
    ensures
        forall|path: Seq<char>, left_out: Seq<char>|
            tree.walked(WorkView::Enter { directory: dir }).contains(path) && exclusions(
                dir,
                tree.directories[dir].markers,
            ).contains(left_out) ==> !at_or_below(left_out, path),
        forall|child: Seq<char>|
            tree.directories[dir].children.contains(child) && tree.is_file(child) && !exclusions(
                dir,
                tree.directories[dir].markers,
            ).contains(child) ==> tree.walked(WorkView::Enter { directory: dir }).contains(child),
{
    let enter = WorkView::Enter { directory: dir };
    let seen = tree.directories[dir];
    let works = tree.visits_of(dir);
    let bound = tree.weight(enter);
    let excluded = exclusions(dir, seen.markers);
    let found = tree.walked(enter);
    assert(tree.proper_at(dir));
    lemma_entries_of(tree, dir);
    lemma_marker_names();
    assert forall|path: Seq<char>, left_out: Seq<char>|
        found.contains(path) && excluded.contains(left_out) implies !at_or_below(
        left_out,
        path,
    ) by {
        let i = choose|i: int| 0 <= i < found.len() && found[i] == path;
        let j = lemma_walked_within_origin(tree, bound, works, i);
        lemma_walked_stays(tree, works[j]);
        let at = choose|at: int|
            0 <= at < tree.walked(works[j]).len() && tree.walked(works[j])[at] == path;
        let k = choose|k: int| 0 <= k < excluded.len() && excluded[k] == left_out;
        lemma_joined_is_child(dir, build_dir_name());
        lemma_joined_is_child(dir, dependency_dir_name());
        lemma_children_keep_apart(dir, anchor(works[j]), left_out, path);
    }
    assert forall|child: Seq<char>|
        seen.children.contains(child) && tree.is_file(child) && !excluded.contains(
            child,
        ) implies found.contains(child) by {
        let at = choose|at: int| 0 <= at < seen.children.len() && seen.children[at] == child;
        seen.children.lemma_filter_contains(is_kept(excluded), at);
        let entries = retained(seen.children, excluded);
        let j = choose|j: int| 0 <= j < entries.len() && entries[j] == child;
        assert(works[j] == WorkView::Visit { path: child, transitive: false });
        assert(tree.walked(works[j]) =~= seq![child]);
        assert(tree.walked(works[j])[0] == child);
        lemma_walked_within_holds(tree, bound, works, j, child);
    }
}

/// Where entering the root leads to nothing at or below its child `name`,
/// an archive made of what it leads to holds nothing under `name` nor below
/// it.
proof fn lemma_left_out_by_name(
    tree: Tree,
    root: Seq<char>,
    name: Seq<char>,
    archive: Seq<EntryView>,
)
    requires
        tree.proper(),
        name.len() > 0,
        forall|path: Seq<char>|
            tree.walked(WorkView::Enter { directory: root }).contains(path) ==> !at_or_below(
                joined(root, name),
                path,
            ),
        forall|i: int|
            0 <= i < archive.len() ==> exists|path: Seq<char>|
                tree.walked(WorkView::Enter { directory: root }).contains(path) && tree.entry_at(
                    root,
                    path,
                ) == #[trigger] archive[i],
    ensures
        forall|i: int|
            0 <= i < archive.len() ==> !at_or_below(name, (#[trigger] archive[i]).name),
{
    let enter = WorkView::Enter { directory: root };
    lemma_walked_stays(tree, enter);
    assert forall|i: int| 0 <= i < archive.len() implies !at_or_below(
        name,
        (#[trigger] archive[i]).name,
    ) by {
        let path = choose|path: Seq<char>|
            tree.walked(enter).contains(path) && tree.entry_at(root, path) == archive[i];
        let at = choose|at: int|
            0 <= at < tree.walked(enter).len() && tree.walked(enter)[at] == path;
        lemma_relative_keeps_below(root, name, path);
    }
}

/// Over a root that has project markers and no listing, a walk that runs to
/// its end without failing has archived nothing under the name of a
/// directory that the markers exclude, nor below it: not from the build
/// directory where there is a manifest, and not from the dependency
/// directory where there is one. It has archived every other child of the
/// root that is a regular file.
pub proof fn law_marked_directory_is_not_archived(tree: Tree, root: Seq<char>, steps: Seq<Move>)
    requires
        tree.wf(),
        tree.proper(),
        tree.is_directory(root),
        !(tree.directories[root].ignore is Listing),
        tree.allows_all(began(root), steps),
        !run(began(root), steps).failed,
        run(began(root), steps).pending.len() == 0,
    ensures
        tree.directories[root].markers.manifest ==> forall|i: int|
            0 <= i < run(began(root), steps).archive.len() ==> !at_or_below(
                build_dir_name(),
                (#[trigger] run(began(root), steps).archive[i]).name,
            ),
        tree.directories[root].markers.dependencies ==> forall|i: int|
            0 <= i < run(began(root), steps).archive.len() ==> !at_or_below(
                dependency_dir_name(),
                (#[trigger] run(began(root), steps).archive[i]).name,
            ),
        forall|child: Seq<char>|
            tree.directories[root].children.contains(child) && tree.is_file(child) && !exclusions(
                root,
                tree.directories[root].markers,
            ).contains(child) ==> run(began(root), steps).archive.contains(
                tree.entry_at(root, child),
            ),
{
    let enter = WorkView::Enter { directory: root };
    let archive = run(began(root), steps).archive;
    let markers = tree.directories[root].markers;
    let excluded = exclusions(root, markers);
    law_walk_archives_each_file_once(tree, root, steps);
    law_marked_directory_is_left_out(tree, root);
    lemma_walked_stays(tree, enter);
    lemma_marker_names();
    if markers.manifest {
        assert(excluded[0] == joined(root, build_dir_name()));
        lemma_left_out_by_name(tree, root, build_dir_name(), archive);
    }
    if markers.dependencies {
        assert(excluded[excluded.len() - 1] == joined(root, dependency_dir_name()));
        lemma_left_out_by_name(tree, root, dependency_dir_name(), archive);
    }
}

} // verus!
