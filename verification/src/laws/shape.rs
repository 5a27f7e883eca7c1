//! What the shape of a file system gives: a walk stays below the directory
//! it entered, and comes to no file twice.

use vstd::prelude::*;
use vstd::seq_lib::*;
use crate::exclusion::{exclusions, is_kept, resolved, retained, ProbeView, TaskView};
use crate::laws::balance::{law_walk_archives_the_walked_files, lemma_walked_within};
use crate::paths::{
    at_or_below, is_below, is_child, lemma_below_reaches_down, lemma_children_keep_apart,
    lemma_relative_part_is_injective,
};
use crate::sink::names_of;
use crate::traversal::{began, visits, EnteredView, TraversalView, VisitedView, WorkView};
use crate::tree::{anchor, moved, run, Answer, Move, Tree};

verus! {

/// Filtering brings in no duplicates.
proof fn lemma_filtered_once<A>(items: Seq<A>, keep: spec_fn(A) -> bool)
    requires
        items.no_duplicates(),
    ensures
        items.filter(keep).no_duplicates(),
    decreases items.len(),
{
    reveal(Seq::filter);
    let kept = items.filter(keep);
    if items.len() > 0 {
        let front = items.drop_last();
        let last = items.last();
        lemma_filtered_once(front, keep);
        let before = front.filter(keep);
        assert forall|i: int, j: int| 0 <= i < kept.len() && 0 <= j < kept.len() && i
            != j implies kept[i] != kept[j] by {
            if i < before.len() && j < before.len() {
                assert(kept[i] == before[i] && kept[j] == before[j]);
            } else {
                let low = if i < j {
                    i
                } else {
                    j
                };
                assert(kept[low] == before[low]);
                front.lemma_filter_contains_rev(keep, before[low]);
                let at = choose|at: int| 0 <= at < front.len() && front[at] == before[low];
                assert(items[at] == before[low]);
                assert(items[items.len() - 1] == last);
            }
        }
    }
}

/// What is retained of the children are children, none excluded and none
/// twice.
proof fn lemma_retained_entries(children: Seq<Seq<char>>, excluded: Seq<Seq<char>>)
    requires
        children.no_duplicates(),
    ensures
        retained(children, excluded).no_duplicates(),
        forall|i: int|
            0 <= i < retained(children, excluded).len() ==> children.contains(
                #[trigger] retained(children, excluded)[i],
            ) && !excluded.contains(retained(children, excluded)[i]),
{
    let kept = retained(children, excluded);
    lemma_filtered_once(children, is_kept(excluded));
    assert forall|i: int| 0 <= i < kept.len() implies children.contains(#[trigger] kept[i])
        && !excluded.contains(kept[i]) by {
        children.lemma_filter_pred(is_kept(excluded), i);
        assert(kept.contains(kept[i]));
        children.lemma_filter_contains_rev(is_kept(excluded), kept[i]);
    }
}

/// The visits of a directory are for its entries, in order; the entries lie
/// below it and none comes twice. Without a listing they are children of the
/// directory that its markers do not exclude.
pub(crate) proof fn lemma_entries_of(tree: Tree, dir: Seq<char>)
    requires
        tree.is_directory(dir),
        tree.proper_at(dir),
    ensures
        tree.visits_of(dir).len() == resolved(dir, tree.directories[dir]).entries.len(),
        resolved(dir, tree.directories[dir]).entries.no_duplicates(),
        forall|j: int|
            0 <= j < tree.visits_of(dir).len() ==> {
                &&& is_below(dir, anchor(#[trigger] tree.visits_of(dir)[j]))
                &&& tree.visits_of(dir)[j] == WorkView::Visit {
                    path: resolved(dir, tree.directories[dir]).entries[j],
                    transitive: resolved(dir, tree.directories[dir]).transitive,
                }
                &&& !resolved(dir, tree.directories[dir]).transitive ==> {
                    &&& is_child(dir, anchor(tree.visits_of(dir)[j]))
                    &&& tree.directories[dir].children.contains(anchor(tree.visits_of(dir)[j]))
                    &&& !exclusions(dir, tree.directories[dir].markers).contains(
                        anchor(tree.visits_of(dir)[j]),
                    )
                }
            },
{
    let seen = tree.directories[dir];
    let task = resolved(dir, seen);
    let works = tree.visits_of(dir);
    if !task.transitive {
        lemma_retained_entries(seen.children, exclusions(dir, seen.markers));
        assert forall|j: int| 0 <= j < works.len() implies is_child(
            dir,
            anchor(#[trigger] works[j]),
        ) by {
            let entry = task.entries[j];
            assert(seen.children.contains(entry));
            let at = choose|at: int| 0 <= at < seen.children.len() && seen.children[at] == entry;
            assert(is_child(dir, seen.children[at]));
        }
    }
}

/// Work leads to regular files only, and to none outside the path it is
/// about.
pub(crate) proof fn lemma_walked_stays(tree: Tree, work: WorkView)
    requires
        tree.proper(),
    ensures
        forall|i: int|
            0 <= i < tree.walked(work).len() ==> {
                &&& at_or_below(anchor(work), #[trigger] tree.walked(work)[i])
                &&& tree.is_file(tree.walked(work)[i])
                &&& work is Enter ==> is_below(anchor(work), tree.walked(work)[i])
            },
    decreases tree.weight(work), (if work is Visit {
        2nat
    } else {
        1nat
    }), 0nat,
{
    match work {
        WorkView::Enter { directory } => {
            if tree.is_directory(directory) {
                assert(tree.proper_at(directory));
                lemma_entries_of(tree, directory);
                let works = tree.visits_of(directory);
                let found = tree.walked_within(tree.weight(work), works);
                lemma_walked_within_stays(tree, tree.weight(work), directory, works);
                assert(tree.walked(work) == found);
                assert(anchor(work) == directory);
                assert forall|i: int| 0 <= i < tree.walked(work).len() implies at_or_below(
                    anchor(work),
                    #[trigger] tree.walked(work)[i],
                ) && tree.is_file(tree.walked(work)[i]) && is_below(
                    anchor(work),
                    tree.walked(work)[i],
                ) by {
                    assert(is_below(directory, found[i]));
                }
            } else {
                assert(tree.walked(work).len() == 0);
            }
        },
        WorkView::Visit { path, transitive } => {
            if tree.is_file(path) {
                assert(tree.walked(work) =~= seq![path]);
            } else if !transitive && tree.is_directory(path) {
                let enter = WorkView::Enter { directory: path };
                lemma_walked_stays(tree, enter);
                assert(tree.walked(work) == tree.walked(enter));
                assert(anchor(enter) == anchor(work));
            } else {
                assert(tree.walked(work).len() == 0);
            }
        },
    }
}

/// Work about paths below `dir` leads to regular files below `dir`.
proof fn lemma_walked_within_stays(tree: Tree, bound: nat, dir: Seq<char>, works: Seq<WorkView>)
    requires
        tree.proper(),
        forall|j: int| 0 <= j < works.len() ==> is_below(dir, anchor(#[trigger] works[j])),
    ensures
        forall|i: int|
            0 <= i < tree.walked_within(bound, works).len() ==> {
                &&& is_below(dir, #[trigger] tree.walked_within(bound, works)[i])
                &&& tree.is_file(tree.walked_within(bound, works)[i])
            },
    decreases bound, 0nat, works.len(),
{
    if works.len() > 0 {
        let front = works.drop_last();
        let last = works.last();
        assert forall|j: int| 0 <= j < front.len() implies is_below(
            dir,
            anchor(#[trigger] front[j]),
        ) by {
            assert(front[j] == works[j]);
        }
        lemma_walked_within_stays(tree, bound, dir, front);
        let before = tree.walked_within(bound, front);
        let all = tree.walked_within(bound, works);
        if tree.weight(last) < bound {
            lemma_walked_stays(tree, last);
        }
        assert(is_below(dir, anchor(works[works.len() - 1])));
        assert forall|i: int| 0 <= i < all.len() implies is_below(dir, #[trigger] all[i])
            && tree.is_file(all[i]) by {
            if i < before.len() {
                assert(all[i] == before[i]);
            } else {
                assert(all[i] == tree.walked(last)[i - before.len()]);
                lemma_below_reaches_down(dir, anchor(last), all[i]);
            }
        }
    }
}

/// Every file that a list of work leads to is led to by one of its pieces.
pub(crate) proof fn lemma_walked_within_origin(
    tree: Tree,
    bound: nat,
    works: Seq<WorkView>,
    i: int,
) -> (j: int)
    requires
        0 <= i < tree.walked_within(bound, works).len(),
    ensures
        0 <= j < works.len(),
        tree.weight(works[j]) < bound,
        tree.walked(works[j]).contains(tree.walked_within(bound, works)[i]),
    decreases works.len(),
{
    let front = works.drop_last();
    let before = tree.walked_within(bound, front);
    if i < before.len() {
        let j = lemma_walked_within_origin(tree, bound, front, i);
        assert(front[j] == works[j]);
        assert(tree.walked_within(bound, works)[i] == before[i]);
        j
    } else {
        let j = works.len() - 1;
        assert(tree.walked(works[j])[i - before.len()] == tree.walked_within(bound, works)[i]);
        j
    }
}

/// What one piece of a list of work leads to, the list leads to.
pub(crate) proof fn lemma_walked_within_holds(
    tree: Tree,
    bound: nat,
    works: Seq<WorkView>,
    j: int,
    path: Seq<char>,
)
    requires
        0 <= j < works.len(),
        tree.weight(works[j]) < bound,
        tree.walked(works[j]).contains(path),
    ensures
        tree.walked_within(bound, works).contains(path),
    decreases works.len(),
{
    let front = works.drop_last();
    let before = tree.walked_within(bound, front);
    let all = tree.walked_within(bound, works);
    if j < works.len() - 1 {
        assert(front[j] == works[j]);
        lemma_walked_within_holds(tree, bound, front, j, path);
        let at = choose|at: int| 0 <= at < before.len() && before[at] == path;
        assert(all[at] == path);
    } else {
        let at = choose|at: int|
            0 <= at < tree.walked(works[j]).len() && tree.walked(works[j])[at] == path;
        assert(all[before.len() + at] == path);
    }
}

/// The visits of a listing lead to the regular files of the listing.
pub(crate) proof fn lemma_listing_walk(tree: Tree, dir: Seq<char>, listing: Seq<Seq<char>>, k: int)
    requires
        0 <= k <= listing.len(),
    ensures
        tree.walked_all(
            visits(TaskView { directory: dir, entries: listing, transitive: true }).take(k),
        ) == listing.take(k).filter(tree.file_test()),
    decreases k,
{
    reveal(Seq::filter);
    let works = visits(TaskView { directory: dir, entries: listing, transitive: true });
    if k > 0 {
        lemma_listing_walk(tree, dir, listing, k - 1);
        assert(works.take(k).drop_last() =~= works.take(k - 1));
        assert(listing.take(k) =~= listing.take(k - 1).push(listing[k - 1]));
        listing.take(k - 1).lemma_filter_push(listing[k - 1], tree.file_test());
        assert(tree.walked_all(works.take(k)) =~= listing.take(k).filter(tree.file_test()));
    }
}

/// No work leads to a file twice.
proof fn lemma_walked_once(tree: Tree, work: WorkView)
    requires
        tree.proper(),
    ensures
        tree.walked(work).no_duplicates(),
    decreases tree.weight(work), (if work is Visit {
        2nat
    } else {
        1nat
    }), 0nat,
{
    match work {
        WorkView::Enter { directory } => {
            if tree.is_directory(directory) {
                let works = tree.visits_of(directory);
                let bound = tree.weight(work);
                assert(tree.proper_at(directory));
                lemma_entries_of(tree, directory);
                assert(tree.walked(work) == tree.walked_within(bound, works));
                match tree.directories[directory].ignore {
                    ProbeView::Listing(listing) => {
                        lemma_walked_within(tree, bound, works);
                        lemma_listing_walk(tree, directory, listing, listing.len() as int);
                        assert(works.take(listing.len() as int) =~= works);
                        assert(listing.take(listing.len() as int) =~= listing);
                        lemma_filtered_once(listing, tree.file_test());
                    },
                    _ => {
                        let entries = resolved(directory, tree.directories[directory]).entries;
                        assert forall|a: int, b: int|
                            0 <= a < works.len() && 0 <= b < works.len() && a != b implies anchor(
                            works[a],
                        ) != anchor(works[b]) by {
                            assert(anchor(works[a]) == entries[a]);
                            assert(anchor(works[b]) == entries[b]);
                        }
                        lemma_walked_within_once(tree, bound, directory, works);
                    },
                }
            } else {
                assert(tree.walked(work).len() == 0);
            }
        },
        WorkView::Visit { path, transitive } => {
            if tree.is_file(path) {
                assert(tree.walked(work) =~= seq![path]);
            } else if !transitive && tree.is_directory(path) {
                let enter = WorkView::Enter { directory: path };
                lemma_walked_once(tree, enter);
                assert(tree.walked(work) == tree.walked(enter));
            } else {
                assert(tree.walked(work).len() == 0);
            }
        },
    }
}

/// Visits of different children of `dir` lead to no file twice.
proof fn lemma_walked_within_once(tree: Tree, bound: nat, dir: Seq<char>, works: Seq<WorkView>)
    requires
        tree.proper(),
        forall|j: int| 0 <= j < works.len() ==> is_child(dir, anchor(#[trigger] works[j])),
        forall|a: int, b: int|
            0 <= a < works.len() && 0 <= b < works.len() && a != b ==> anchor(works[a]) != anchor(
                works[b],
            ),
    ensures
        tree.walked_within(bound, works).no_duplicates(),
    decreases bound, 0nat, works.len(),
{
    if works.len() > 0 {
        let front = works.drop_last();
        let last = works.last();
        assert forall|j: int| 0 <= j < front.len() implies is_child(
            dir,
            anchor(#[trigger] front[j]),
        ) by {
            assert(front[j] == works[j]);
        }
        assert forall|a: int, b: int|
            0 <= a < front.len() && 0 <= b < front.len() && a != b implies anchor(front[a])
            != anchor(front[b]) by {
            assert(front[a] == works[a] && front[b] == works[b]);
        }
        lemma_walked_within_once(tree, bound, dir, front);
        let before = tree.walked_within(bound, front);
        let piece = if tree.weight(last) < bound {
            tree.walked(last)
        } else {
            Seq::empty()
        };
        if tree.weight(last) < bound {
            lemma_walked_once(tree, last);
            lemma_walked_stays(tree, last);
        }
        assert(is_child(dir, anchor(works[works.len() - 1])));
        assert forall|i: int, j: int|
            0 <= i < before.len() && 0 <= j < piece.len() implies before[i] != piece[j] by {
            let from = lemma_walked_within_origin(tree, bound, front, i);
            lemma_walked_stays(tree, front[from]);
            let at = choose|at: int|
                0 <= at < tree.walked(front[from]).len() && tree.walked(front[from])[at]
                    == before[i];
            assert(front[from] == works[from]);
            assert(is_child(dir, anchor(works[from])));
            lemma_children_keep_apart(dir, anchor(front[from]), anchor(last), before[i]);
            assert(at_or_below(anchor(last), piece[j]));
        }
        lemma_no_dup_in_concat(before, piece);
    }
}

/// Over a tree that is shaped as a file system is, no file is led to twice,
/// and no two files that are led to share a name in the archive.
pub proof fn law_no_file_is_walked_twice(tree: Tree, root: Seq<char>)
    requires
        tree.proper(),
    ensures
        tree.walked(WorkView::Enter { directory: root }).no_duplicates(),
        names_of(
            tree.entries_at(root, tree.walked(WorkView::Enter { directory: root })),
        ).no_duplicates(),
{
    let enter = WorkView::Enter { directory: root };
    let files = tree.walked(enter);
    let names = names_of(tree.entries_at(root, files));
    lemma_walked_once(tree, enter);
    lemma_walked_stays(tree, enter);
    assert forall|i: int, j: int| 0 <= i < names.len() && 0 <= j < names.len() && i
        != j implies names[i] != names[j] by {
        assert(is_below(root, files[i]) && is_below(root, files[j]));
        if names[i] == names[j] {
            lemma_relative_part_is_injective(root, files[i], files[j]);
        }
    }
}

/// Sequences that make the same bag hold the same items.
proof fn lemma_same_bag_same_members<A>(a: Seq<A>, b: Seq<A>, x: A)
    requires
        a.to_multiset() == b.to_multiset(),
    ensures
        a.contains(x) == b.contains(x),
{
    to_multiset_contains(a, x);
    to_multiset_contains(b, x);
}

/// A walk over a tree that is shaped as a file system is, once it has run
/// to its end without failing, holds every file that entering the root leads
/// to, holds nothing else, and holds no name twice.
pub proof fn law_walk_archives_each_file_once(tree: Tree, root: Seq<char>, steps: Seq<Move>)
    requires
        tree.wf(),
        tree.proper(),
        tree.allows_all(began(root), steps),
        !run(began(root), steps).failed,
        run(began(root), steps).pending.len() == 0,
    ensures
        names_of(run(began(root), steps).archive).no_duplicates(),
        forall|path: Seq<char>|
            tree.walked(WorkView::Enter { directory: root }).contains(path) ==> run(
                began(root),
                steps,
            ).archive.contains(tree.entry_at(root, path)),
        forall|i: int|
            0 <= i < run(began(root), steps).archive.len() ==> exists|path: Seq<char>|
                tree.walked(WorkView::Enter { directory: root }).contains(path) && tree.entry_at(
                    root,
                    path,
                ) == #[trigger] run(began(root), steps).archive[i],
{
    let files = tree.walked(WorkView::Enter { directory: root });
    let owed = tree.entries_at(root, files);
    let archive = run(began(root), steps).archive;
    law_walk_archives_the_walked_files(tree, root, steps);
    law_no_file_is_walked_twice(tree, root);
    assert forall|i: int, j: int| 0 <= i < owed.len() && 0 <= j < owed.len() && i
        != j implies owed[i] != owed[j] by {
        assert(names_of(owed)[i] != names_of(owed)[j]);
    }
    owed.lemma_multiset_has_no_duplicates();
    archive.lemma_multiset_has_no_duplicates_conv();
    assert forall|path: Seq<char>| files.contains(path) implies archive.contains(
        tree.entry_at(root, path),
    ) by {
        let at = choose|at: int| 0 <= at < files.len() && files[at] == path;
        assert(owed[at] == tree.entry_at(root, path));
        assert(owed.contains(tree.entry_at(root, path)));
        lemma_same_bag_same_members(archive, owed, tree.entry_at(root, path));
    }
    assert forall|i: int| 0 <= i < archive.len() implies exists|path: Seq<char>|
        files.contains(path) && tree.entry_at(root, path) == #[trigger] archive[i] by {
        assert(archive.contains(archive[i]));
        lemma_same_bag_same_members(archive, owed, archive[i]);
        let at = choose|at: int| 0 <= at < owed.len() && owed[at] == archive[i];
        assert(files.contains(files[at]));
        assert(tree.entry_at(root, files[at]) == archive[i]);
    }
    assert forall|i: int, j: int| 0 <= i < archive.len() && 0 <= j < archive.len() && i
        != j implies names_of(archive)[i] != names_of(archive)[j] by {
        assert(archive.contains(archive[i]));
        assert(archive.contains(archive[j]));
        lemma_same_bag_same_members(archive, owed, archive[i]);
        lemma_same_bag_same_members(archive, owed, archive[j]);
        let a = choose|a: int| 0 <= a < owed.len() && owed[a] == archive[i];
        let b = choose|b: int| 0 <= b < owed.len() && owed[b] == archive[j];
        assert(names_of(owed)[a] == archive[i].name);
        assert(names_of(owed)[b] == archive[j].name);
    }
}

/// Whether an answer says that something could not be read.
pub open spec fn is_refusal(answer: Answer) -> bool {
    match answer {
        Answer::Entered(EnteredView::Unreadable(_)) => true,
        Answer::Visited(VisitedView::Unreadable(_)) => true,
        _ => false,
    }
}

/// Whether every step of `steps` brings an answer other than a refusal, and
/// has the archive take the entry where it makes one.
pub open spec fn all_goes_well(steps: Seq<Move>) -> bool {
    forall|i: int|
        0 <= i < steps.len() ==> (#[trigger] steps[i]).written && !is_refusal(steps[i].answer)
}

/// Whether the waiting work of `walk` is about its root and what lies below
/// it: directories to enter at or below the root, entries to visit below it.
pub open spec fn within_root(walk: TraversalView) -> bool {
    forall|j: int|
        0 <= j < walk.pending.len() ==> match #[trigger] walk.pending[j] {
            WorkView::Enter { directory } => at_or_below(walk.root, directory),
            WorkView::Visit { path, .. } => is_below(walk.root, path),
        }
}

/// A step that goes well on a proper tree does not fail a walk whose work
/// is within its root, and leaves its work within its root.
proof fn lemma_step_goes_well(tree: Tree, walk: TraversalView, step: Move)
    requires
        tree.proper(),
        !walk.failed,
        within_root(walk),
        tree.allows(walk, step),
        step.written,
        !is_refusal(step.answer),
    ensures
        !moved(walk, step).failed,
        within_root(moved(walk, step)),
{
    let root = walk.root;
    let work = walk.pending[step.pick];
    let rest = walk.pending.remove(step.pick);
    let next = moved(walk, step);
    assert forall|j: int| 0 <= j < rest.len() implies match #[trigger] rest[j] {
        WorkView::Enter { directory } => at_or_below(root, directory),
        WorkView::Visit { path, .. } => is_below(root, path),
    } by {
        if j < step.pick {
            assert(rest[j] == walk.pending[j]);
        } else {
            assert(rest[j] == walk.pending[j + 1]);
        }
    }
    match (work, step.answer) {
        (WorkView::Enter { directory }, Answer::Entered(found)) => {
            let works = tree.visits_of(directory);
            assert(tree.is_directory(directory));
            assert(tree.proper_at(directory));
            lemma_entries_of(tree, directory);
            assert(next.pending == rest + works);
            assert forall|j: int|
                0 <= j < next.pending.len() implies match #[trigger] next.pending[j] {
                WorkView::Enter { directory } => at_or_below(root, directory),
                WorkView::Visit { path, .. } => is_below(root, path),
            } by {
                if j < rest.len() {
                    assert(next.pending[j] == rest[j]);
                } else {
                    let k = j - rest.len();
                    assert(next.pending[j] == works[k]);
                    assert(is_below(directory, anchor(works[k])));
                    if directory != root {
                        lemma_below_reaches_down(root, directory, anchor(works[k]));
                    }
                }
            }
        },
        (WorkView::Visit { path, transitive }, Answer::Visited(found)) => {
            match found {
                VisitedView::File(_) => {
                    assert(next.pending == rest);
                },
                VisitedView::Folder => {
                    if transitive {
                        assert(next.pending == rest);
                    } else {
                        assert(next.pending == rest.push(WorkView::Enter { directory: path }));
                        assert forall|j: int|
                            0 <= j < next.pending.len() implies match #[trigger] next.pending[j] {
                            WorkView::Enter { directory } => at_or_below(root, directory),
                            WorkView::Visit { path, .. } => is_below(root, path),
                        } by {
                            if j < rest.len() {
                                assert(next.pending[j] == rest[j]);
                            }
                        }
                    }
                },
                VisitedView::Unreadable(_) => {},
            }
        },
        _ => {},
    }
}

/// Steps that go well on a proper tree do not fail a walk whose work is
/// within its root.
proof fn lemma_steps_go_well(tree: Tree, walk: TraversalView, steps: Seq<Move>)
    requires
        tree.proper(),
        !walk.failed,
        within_root(walk),
        tree.allows_all(walk, steps),
        all_goes_well(steps),
    ensures
        !run(walk, steps).failed,
    decreases steps.len(),
{
    if steps.len() > 0 {
        assert(steps[0].written && !is_refusal(steps[0].answer));
        lemma_step_goes_well(tree, walk, steps.first());
        assert forall|i: int| 0 <= i < steps.drop_first().len() implies (
        #[trigger] steps.drop_first()[i]).written && !is_refusal(steps.drop_first()[i].answer) by {
            assert(steps.drop_first()[i] == steps[i + 1]);
        }
        lemma_steps_go_well(tree, moved(walk, steps.first()), steps.drop_first());
    }
}

/// A walk over a proper tree does not fail as long as everything can be read
/// and the archive takes every entry: no step of its own fails it.
pub proof fn law_walk_succeeds(tree: Tree, root: Seq<char>, steps: Seq<Move>)
    requires
        tree.proper(),
        tree.allows_all(began(root), steps),
        all_goes_well(steps),
    ensures
        !run(began(root), steps).failed,
{
    lemma_steps_go_well(tree, began(root), steps);
}

} // verus!
