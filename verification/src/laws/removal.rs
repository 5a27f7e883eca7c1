//! Taking an unusable rule file away changes nothing but the file itself.

use vstd::prelude::*;
use vstd::seq_lib::*;
use crate::exclusion::{
    exclusions, ignore_file_name, is_kept, retained, ObservationView, ProbeView, TaskView,
};
use crate::laws::balance::law_walk_archives_the_walked_files;
use crate::paths::joined;
use crate::traversal::{began, visits, WorkView};
use crate::tree::{run, Move, Tree};

verus! {

/// The test that keeps every path but `gone`.
pub open spec fn is_not(gone: Seq<char>) -> spec_fn(Seq<char>) -> bool {
    |path: Seq<char>| path != gone
}

/// The path at which the directory `dir` keeps its ignore rules.
pub open spec fn rule_file(dir: Seq<char>) -> Seq<char> {
    joined(dir, ignore_file_name())
}

/// `tree` with the rule file of the directory `dir` taken away: the file is
/// no more, the directory does not list it, and finds its rules missing.
pub open spec fn without_rule_file(tree: Tree, dir: Seq<char>) -> Tree {
    Tree {
        files: tree.files.remove(rule_file(dir)),
        directories: tree.directories.insert(
            dir,
            ObservationView {
                ignore: ProbeView::Missing,
                markers: tree.directories[dir].markers,
                children: tree.directories[dir].children.filter(is_not(rule_file(dir))),
            },
        ),
        heights: tree.heights,
    }
}

/// Whether the directory `dir` of `tree` holds a rule file that cannot be
/// used: its rules are found malformed, and their path names no directory.
pub open spec fn has_unusable_rules(tree: Tree, dir: Seq<char>) -> bool {
    &&& tree.is_directory(dir)
    &&& tree.directories[dir].ignore is Malformed
    &&& !tree.is_directory(rule_file(dir))
}

/// Two filters can be applied in either order.
proof fn lemma_filters_commute<A>(
    items: Seq<A>,
    one: spec_fn(A) -> bool,
    other: spec_fn(A) -> bool,
)
    ensures
        items.filter(one).filter(other) == items.filter(other).filter(one),
    decreases items.len(),
{
    reveal(Seq::filter);
    if items.len() > 0 {
        let front = items.drop_last();
        let last = items.last();
        lemma_filters_commute(front, one, other);
        front.filter(one).lemma_filter_push(last, other);
        front.filter(other).lemma_filter_push(last, one);
    }
}

/// Filtering a list of one item keeps the item or nothing.
proof fn lemma_filter_of_one<A>(item: A, keep: spec_fn(A) -> bool)
    ensures
        seq![item].filter(keep) == if keep(item) {
            seq![item]
        } else {
            Seq::<A>::empty()
        },
{
    reveal(Seq::filter);
    let none = Seq::<A>::empty();
    assert(seq![item] =~= none.push(item));
    none.lemma_filter_push(item, keep);
    assert(none.filter(keep) =~= none);
}

/// Taking the rule file away changes the weight of no work.
proof fn lemma_removal_keeps_weight(tree: Tree, dir: Seq<char>, work: WorkView)
    requires
        has_unusable_rules(tree, dir),
    ensures
        without_rule_file(tree, dir).weight(work) == tree.weight(work),
{
    let lighter = without_rule_file(tree, dir);
    assert(lighter.directories.dom() =~= tree.directories.dom());
}

/// With the rule file taken away, work leads to the same files but for the
/// rule file.
proof fn lemma_removal_walk(tree: Tree, dir: Seq<char>, work: WorkView)
    requires
        has_unusable_rules(tree, dir),
    ensures
        without_rule_file(tree, dir).walked(work) == tree.walked(work).filter(
            is_not(rule_file(dir)),
        ),
    decreases tree.weight(work), (if work is Visit {
        2nat
    } else {
        1nat
    }), 0nat,
{
    reveal(Seq::filter);
    let lighter = without_rule_file(tree, dir);
    let gone = rule_file(dir);
    let keep = is_not(gone);
    lemma_removal_keeps_weight(tree, dir, work);
    assert(lighter.directories.dom() =~= tree.directories.dom());
    match work {
        WorkView::Enter { directory } => {
            if tree.is_directory(directory) {
                let bound = tree.weight(work);
                if directory == dir {
                    let seen = tree.directories[dir];
                    let excluded = exclusions(dir, seen.markers);
                    let entries = retained(seen.children, excluded);
                    lemma_filters_commute(seen.children, keep, is_kept(excluded));
                    assert(lighter.visits_of(dir) == visits(
                        TaskView {
                            directory: dir,
                            entries: entries.filter(keep),
                            transitive: false,
                        },
                    ));
                    assert(tree.visits_of(dir) == visits(
                        TaskView { directory: dir, entries, transitive: false },
                    ));
                    lemma_removal_entries(tree, dir, bound, entries);
                } else {
                    assert(lighter.directories[directory] == tree.directories[directory]);
                    assert(lighter.visits_of(directory) == tree.visits_of(directory));
                    lemma_removal_within(tree, dir, bound, tree.visits_of(directory));
                }
            } else {
                assert(tree.walked(work).len() == 0);
            }
        },
        WorkView::Visit { path, transitive } => {
            if path == gone {
                assert(lighter.walked(work).len() == 0);
                if tree.is_file(path) {
                    assert(tree.walked(work) =~= seq![path]);
                    lemma_filter_of_one(path, keep);
                } else {
                    assert(tree.walked(work).len() == 0);
                }
            } else if tree.is_file(path) {
                assert(lighter.is_file(path));
                assert(tree.walked(work) =~= seq![path]);
                assert(lighter.walked(work) =~= seq![path]);
                lemma_filter_of_one(path, keep);
            } else if !transitive && tree.is_directory(path) {
                assert(!lighter.is_file(path));
                lemma_removal_walk(tree, dir, WorkView::Enter { directory: path });
            } else {
                assert(!lighter.is_file(path));
                assert(tree.walked(work).len() == 0);
                assert(lighter.walked(work).len() == 0);
            }
        },
    }
}

/// With the rule file taken away, a list of work leads to the same files
/// but for the rule file.
proof fn lemma_removal_within(tree: Tree, dir: Seq<char>, bound: nat, works: Seq<WorkView>)
    requires
        has_unusable_rules(tree, dir),
    ensures
        without_rule_file(tree, dir).walked_within(bound, works) == tree.walked_within(
            bound,
            works,
        ).filter(is_not(rule_file(dir))),
    decreases bound, 0nat, works.len(),
{
    reveal(Seq::filter);
    let lighter = without_rule_file(tree, dir);
    let keep = is_not(rule_file(dir));
    if works.len() > 0 {
        let front = works.drop_last();
        let last = works.last();
        lemma_removal_within(tree, dir, bound, front);
        lemma_removal_keeps_weight(tree, dir, last);
        let piece = if tree.weight(last) < bound {
            tree.walked(last)
        } else {
            Seq::empty()
        };
        if tree.weight(last) < bound {
            lemma_removal_walk(tree, dir, last);
        }
        Seq::filter_distributes_over_add(tree.walked_within(bound, front), piece, keep);
    }
}

/// With the rule file taken away from the entries of its directory, their
/// visits lead to the same files but for the rule file.
proof fn lemma_removal_entries(tree: Tree, dir: Seq<char>, bound: nat, entries: Seq<Seq<char>>)
    requires
        has_unusable_rules(tree, dir),
    ensures
        without_rule_file(tree, dir).walked_within(
            bound,
            visits(
                TaskView {
                    directory: dir,
                    entries: entries.filter(is_not(rule_file(dir))),
                    transitive: false,
                },
            ),
        ) == tree.walked_within(
            bound,
            visits(TaskView { directory: dir, entries, transitive: false }),
        ).filter(is_not(rule_file(dir))),
    decreases bound, 0nat, entries.len(),
{
    reveal(Seq::filter);
    let lighter = without_rule_file(tree, dir);
    let gone = rule_file(dir);
    let keep = is_not(gone);
    let works = visits(TaskView { directory: dir, entries, transitive: false });
    let kept = visits(
        TaskView { directory: dir, entries: entries.filter(keep), transitive: false },
    );
    if entries.len() > 0 {
        let front = entries.drop_last();
        let last = entries.last();
        let visit = WorkView::Visit { path: last, transitive: false };
        let front_works = visits(TaskView { directory: dir, entries: front, transitive: false });
        let front_kept = visits(
            TaskView { directory: dir, entries: front.filter(keep), transitive: false },
        );
        lemma_removal_entries(tree, dir, bound, front);
        lemma_removal_keeps_weight(tree, dir, visit);
        assert(works.drop_last() =~= front_works);
        assert(works.last() == visit);
        let piece = if tree.weight(visit) < bound {
            tree.walked(visit)
        } else {
            Seq::empty()
        };
        if tree.weight(visit) < bound {
            lemma_removal_walk(tree, dir, visit);
        }
        Seq::filter_distributes_over_add(tree.walked_within(bound, front_works), piece, keep);
        if last == gone {
            assert(entries.filter(keep) == front.filter(keep));
            assert(piece.filter(keep) =~= Seq::<Seq<char>>::empty()) by {
                if tree.weight(visit) < bound {
                    assert(lighter.walked(visit).len() == 0);
                }
            }
            assert(tree.walked_within(bound, front_works).filter(keep) + piece.filter(keep)
                =~= tree.walked_within(bound, front_works).filter(keep));
        } else {
            assert(entries.filter(keep) == front.filter(keep).push(last));
            assert(kept.drop_last() =~= front_kept);
            assert(kept.last() == visit);
        }
    } else {
        assert(works.len() == 0);
        assert(kept.len() == 0);
    }
}

/// Taking away a rule file that cannot be used changes nothing but the file
/// itself: every piece of work leads to the same files as before, in the
/// same order, but for the rule file, and archives them as the same
/// entries.
pub proof fn law_removing_unusable_rules_changes_nothing_else(
    tree: Tree,
    dir: Seq<char>,
    root: Seq<char>,
    work: WorkView,
)
    requires
        has_unusable_rules(tree, dir),
    ensures
        without_rule_file(tree, dir).walked(work) == tree.walked(work).filter(
            is_not(rule_file(dir)),
        ),
        without_rule_file(tree, dir).entries_at(root, without_rule_file(tree, dir).walked(work))
            == tree.entries_at(root, tree.walked(work).filter(is_not(rule_file(dir)))),
{
    let lighter = without_rule_file(tree, dir);
    let keep = is_not(rule_file(dir));
    let files = tree.walked(work).filter(keep);
    lemma_removal_walk(tree, dir, work);
    assert forall|i: int| 0 <= i < files.len() implies lighter.entry_at(root, files[i])
        == tree.entry_at(root, files[i]) by {
        tree.walked(work).lemma_filter_pred(keep, i);
    }
    assert(lighter.entries_at(root, files) =~= tree.entries_at(root, files));
}

/// A walk over a tree that holds an unusable rule file, and a walk over the
/// same tree without that file, both run to their end without failing, have
/// archived the same entries equally often, but for the rule file itself.
pub proof fn law_unusable_rules_archive_as_none(
    tree: Tree,
    dir: Seq<char>,
    root: Seq<char>,
    with: Seq<Move>,
    without: Seq<Move>,
)
    requires
        has_unusable_rules(tree, dir),
        tree.wf(),
        without_rule_file(tree, dir).wf(),
        tree.allows_all(began(root), with),
        !run(began(root), with).failed,
        run(began(root), with).pending.len() == 0,
        without_rule_file(tree, dir).allows_all(began(root), without),
        !run(began(root), without).failed,
        run(began(root), without).pending.len() == 0,
    ensures
        run(began(root), with).archive.to_multiset() == tree.entries_at(
            root,
            tree.walked(WorkView::Enter { directory: root }),
        ).to_multiset(),
        run(began(root), without).archive.to_multiset() == tree.entries_at(
            root,
            tree.walked(WorkView::Enter { directory: root }).filter(is_not(rule_file(dir))),
        ).to_multiset(),
{
    let enter = WorkView::Enter { directory: root };
    law_walk_archives_the_walked_files(tree, root, with);
    law_walk_archives_the_walked_files(without_rule_file(tree, dir), root, without);
    law_removing_unusable_rules_changes_nothing_else(tree, dir, root, enter);
}

} // verus!
