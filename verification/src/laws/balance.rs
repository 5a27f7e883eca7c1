//! Nothing is lost and nothing is made up: what a walk has archived and what
//! its waiting work still leads to always add up to what entering the root
//! leads to.

use vstd::multiset::*;
use vstd::prelude::*;
use vstd::seq_lib::*;
use crate::sink::EntryView;
use crate::traversal::{
    after_entered, after_visited, began, EnteredView, TraversalView, VisitedView, WorkView,
};
use crate::tree::{moved, run, Answer, Move, Tree};

verus! {

/// The entries that archive the files which `works` lead to, as a bag.
pub open spec fn due(tree: Tree, root: Seq<char>, works: Seq<WorkView>) -> Multiset<EntryView> {
    tree.entries_at(root, tree.walked_all(works)).to_multiset()
}

/// Whether `walk` is under way with nothing lost: it has not failed, and what
/// it has archived together with what its waiting work leads to makes up
/// `total`.
pub open spec fn balanced(tree: Tree, walk: TraversalView, total: Multiset<EntryView>) -> bool {
    &&& !walk.failed
    &&& walk.archive.to_multiset().add(due(tree, walk.root, walk.pending)) == total
}

/// The bag of no items is empty.
proof fn lemma_nothing_is_no_bag<A>()
    ensures
        Seq::<A>::empty().to_multiset() == Multiset::<A>::empty(),
{
    Seq::<A>::empty().to_multiset_ensures();
    assert(Seq::<A>::empty().to_multiset() =~= Multiset::<A>::empty());
}

/// The bag of one item holds that item once.
proof fn lemma_one_is_a_bag_of_one<A>(a: A)
    ensures
        seq![a].to_multiset() == Multiset::<A>::empty().insert(a),
{
    lemma_nothing_is_no_bag::<A>();
    to_multiset_build(Seq::<A>::empty(), a);
    assert(seq![a] =~= Seq::<A>::empty().push(a));
}

/// What two lists of work lead to is what the first leads to, then what
/// the second leads to.
proof fn lemma_walked_all_concat(tree: Tree, a: Seq<WorkView>, b: Seq<WorkView>)
    ensures
        tree.walked_all(a + b) == tree.walked_all(a) + tree.walked_all(b),
    decreases b.len(),
{
    if b.len() == 0 {
        assert(a + b =~= a);
        assert(tree.walked_all(a) + tree.walked_all(b) =~= tree.walked_all(a));
    } else {
        lemma_walked_all_concat(tree, a, b.drop_last());
        assert((a + b).drop_last() =~= a + b.drop_last());
        assert(tree.walked_all(a + b) =~= tree.walked_all(a) + tree.walked_all(b));
    }
}

/// Where every piece of work weighs less than `bound`, the bound leaves
/// nothing out.
pub(crate) proof fn lemma_walked_within(tree: Tree, bound: nat, works: Seq<WorkView>)
    requires
        forall|i: int| 0 <= i < works.len() ==> tree.weight(#[trigger] works[i]) < bound,
    ensures
        tree.walked_within(bound, works) == tree.walked_all(works),
    decreases works.len(),
{
    if works.len() > 0 {
        let front = works.drop_last();
        assert forall|i: int| 0 <= i < front.len() implies tree.weight(#[trigger] front[i])
            < bound by {
            assert(front[i] == works[i]);
        }
        lemma_walked_within(tree, bound, front);
    }
}

/// The entries for two lists of files are those for the first, then those
/// for the second.
proof fn lemma_entries_concat(tree: Tree, root: Seq<char>, a: Seq<Seq<char>>, b: Seq<Seq<char>>)
    ensures
        tree.entries_at(root, a + b) == tree.entries_at(root, a) + tree.entries_at(root, b),
        tree.entries_at(root, a + b).to_multiset() == tree.entries_at(root, a).to_multiset().add(
            tree.entries_at(root, b).to_multiset(),
        ),
{
    assert(tree.entries_at(root, a + b) =~= tree.entries_at(root, a) + tree.entries_at(root, b));
    lemma_multiset_commutative(tree.entries_at(root, a), tree.entries_at(root, b));
}

/// What is due for two lists of work is what is due for each.
proof fn lemma_due_concat(tree: Tree, root: Seq<char>, a: Seq<WorkView>, b: Seq<WorkView>)
    ensures
        due(tree, root, a + b) == due(tree, root, a).add(due(tree, root, b)),
{
    lemma_walked_all_concat(tree, a, b);
    lemma_entries_concat(tree, root, tree.walked_all(a), tree.walked_all(b));
}

/// What is due for one piece of work is the entries for the files it leads
/// to.
proof fn lemma_due_single(tree: Tree, root: Seq<char>, work: WorkView)
    ensures
        due(tree, root, seq![work]) == tree.entries_at(root, tree.walked(work)).to_multiset(),
{
    let one = seq![work];
    assert(one.drop_last() =~= Seq::<WorkView>::empty());
    assert(tree.walked_all(one.drop_last()) =~= Seq::<Seq<char>>::empty());
    assert(tree.walked_all(one) =~= tree.walked(work));
}

/// Taking one piece of work out of a list takes out what is due for it.
proof fn lemma_due_remove(tree: Tree, root: Seq<char>, works: Seq<WorkView>, i: int)
    requires
        0 <= i < works.len(),
    ensures
        due(tree, root, works) == due(tree, root, works.remove(i)).add(
            tree.entries_at(root, tree.walked(works[i])).to_multiset(),
        ),
{
    broadcast use group_multiset_axioms;

    let head = works.subrange(0, i);
    let tail = works.subrange(i + 1, works.len() as int);
    let one = seq![works[i]];
    assert(works =~= (head + one) + tail);
    lemma_due_concat(tree, root, head + one, tail);
    lemma_due_concat(tree, root, head, one);
    lemma_due_concat(tree, root, head, tail);
    lemma_due_single(tree, root, works[i]);
    assert(due(tree, root, works) =~= due(tree, root, works.remove(i)).add(
        tree.entries_at(root, tree.walked(works[i])).to_multiset(),
    ));
}

/// Entering a directory leads wherever the visits of its entries lead.
proof fn lemma_due_of_directory(tree: Tree, dir: Seq<char>)
    requires
        tree.wf(),
        tree.is_directory(dir),
    ensures
        tree.walked(WorkView::Enter { directory: dir }) == tree.walked_all(tree.visits_of(dir)),
{
    lemma_walked_within(
        tree,
        tree.weight(WorkView::Enter { directory: dir }),
        tree.visits_of(dir),
    );
}

/// A step that the tree allows keeps the balance, unless it fails the walk.
proof fn lemma_step_keeps_balance(
    tree: Tree,
    walk: TraversalView,
    step: Move,
    total: Multiset<EntryView>,
)
    requires
        tree.wf(),
        balanced(tree, walk, total),
        tree.allows(walk, step),
    ensures
        moved(walk, step).root == walk.root,
        moved(walk, step).failed || balanced(tree, moved(walk, step), total),
{
    broadcast use group_multiset_axioms;

    let root = walk.root;
    let work = walk.pending[step.pick];
    let rest = walk.pending.remove(step.pick);
    let next = moved(walk, step);
    lemma_due_remove(tree, root, walk.pending, step.pick);
    match (work, step.answer) {
        (WorkView::Enter { directory }, Answer::Entered(found)) => {
            if tree.is_directory(directory) {
                lemma_due_of_directory(tree, directory);
                lemma_due_concat(tree, root, rest, tree.visits_of(directory));
                assert(next.pending == rest + tree.visits_of(directory));
                assert(next.archive.to_multiset().add(due(tree, root, next.pending)) =~= total);
            }
        },
        (WorkView::Visit { path, transitive }, Answer::Visited(found)) => {
            if !next.failed {
                match found {
                    VisitedView::File(bytes) => {
                        let entry = tree.entry_at(root, path);
                        assert(tree.walked(work) =~= seq![path]);
                        assert(tree.entries_at(root, seq![path]) =~= seq![entry]);
                        lemma_one_is_a_bag_of_one(entry);
                        to_multiset_build(walk.archive, entry);
                        assert(next.archive == walk.archive.push(entry));
                        assert(next.pending == rest);
                        assert(next.archive.to_multiset().add(due(tree, root, next.pending))
                            =~= total);
                    },
                    VisitedView::Folder => {
                        if transitive {
                            assert(tree.walked(work) =~= Seq::<Seq<char>>::empty());
                            assert(tree.entries_at(root, tree.walked(work)) =~= Seq::<
                                EntryView,
                            >::empty());
                            lemma_nothing_is_no_bag::<EntryView>();
                            assert(next.pending == rest);
                        } else {
                            let enter = WorkView::Enter { directory: path };
                            assert(tree.walked(work) =~= tree.walked(enter));
                            assert(next.pending == rest.push(enter));
                            assert(rest.push(enter) =~= rest + seq![enter]);
                            lemma_due_concat(tree, root, rest, seq![enter]);
                            lemma_due_single(tree, root, enter);
                        }
                        assert(next.archive.to_multiset().add(due(tree, root, next.pending))
                            =~= total);
                    },
                    VisitedView::Unreadable(_) => {},
                }
            }
        },
        _ => {},
    }
}

/// No step mends a walk that has failed.
proof fn lemma_failure_lasts(walk: TraversalView, steps: Seq<Move>)
    requires
        walk.failed,
    ensures
        run(walk, steps).failed,
    decreases steps.len(),
{
    if steps.len() > 0 {
        lemma_failure_lasts(moved(walk, steps.first()), steps.drop_first());
    }
}

/// Steps that the tree allows keep the balance as long as the walk does not
/// fail.
proof fn lemma_run_keeps_balance(
    tree: Tree,
    walk: TraversalView,
    steps: Seq<Move>,
    total: Multiset<EntryView>,
)
    requires
        tree.wf(),
        balanced(tree, walk, total),
        tree.allows_all(walk, steps),
        !run(walk, steps).failed,
    ensures
        run(walk, steps).root == walk.root,
        balanced(tree, run(walk, steps), total),
    decreases steps.len(),
{
    if steps.len() > 0 {
        let next = moved(walk, steps.first());
        lemma_step_keeps_balance(tree, walk, steps.first(), total);
        if next.failed {
            lemma_failure_lasts(next, steps.drop_first());
        }
        lemma_run_keeps_balance(tree, next, steps.drop_first(), total);
    }
}

/// A walk that runs to its end without failing has archived the files that
/// entering its root leads to, each under its path relative to the root and
/// with its bytes, and each as often as it is led to: no more, no fewer, in
/// whatever order the work was picked.
pub proof fn law_walk_archives_the_walked_files(tree: Tree, root: Seq<char>, steps: Seq<Move>)
    requires
        tree.wf(),
        tree.allows_all(began(root), steps),
        !run(began(root), steps).failed,
        run(began(root), steps).pending.len() == 0,
    ensures
        run(began(root), steps).archive.to_multiset() == tree.entries_at(
            root,
            tree.walked(WorkView::Enter { directory: root }),
        ).to_multiset(),
{
    broadcast use group_multiset_axioms;

    let enter = WorkView::Enter { directory: root };
    let start = began(root);
    let total = tree.entries_at(root, tree.walked(enter)).to_multiset();
    lemma_due_single(tree, root, enter);
    lemma_nothing_is_no_bag::<EntryView>();
    assert(start.pending =~= seq![enter]);
    assert(start.archive.to_multiset().add(due(tree, root, start.pending)) =~= total);
    lemma_run_keeps_balance(tree, start, steps, total);
    let end = run(start, steps);
    assert(end.pending =~= Seq::<WorkView>::empty());
    assert(tree.walked_all(end.pending) =~= Seq::<Seq<char>>::empty());
    assert(tree.entries_at(root, Seq::<Seq<char>>::empty()) =~= Seq::<EntryView>::empty());
    assert(due(tree, root, end.pending) =~= Multiset::<EntryView>::empty());
    assert(end.archive.to_multiset() =~= total);
}

/// Two walks over the same tree that both run to their end without failing
/// have archived the same entries equally often, however the work was
/// picked in either.
pub proof fn law_walks_agree(tree: Tree, root: Seq<char>, first: Seq<Move>, second: Seq<Move>)
    requires
        tree.wf(),
        tree.allows_all(began(root), first),
        !run(began(root), first).failed,
        run(began(root), first).pending.len() == 0,
        tree.allows_all(began(root), second),
        !run(began(root), second).failed,
        run(began(root), second).pending.len() == 0,
    ensures
        run(began(root), first).archive.to_multiset() == run(
            began(root),
            second,
        ).archive.to_multiset(),
{
    law_walk_archives_the_walked_files(tree, root, first);
    law_walk_archives_the_walked_files(tree, root, second);
}

/// A walk that has failed has come to rest: whatever steps are tried on it,
/// it stays as it is, failed and with no work to hand out.
pub proof fn law_failure_is_final(walk: TraversalView, steps: Seq<Move>)
    requires
        walk.failed,
        walk.pending.len() == 0,
    ensures
        run(walk, steps) == walk,
    decreases steps.len(),
{
    if steps.len() > 0 {
        law_failure_is_final(walk, steps.drop_first());
    }
}

/// A file or a directory that cannot be read fails the walk, whatever the
/// walk has done so far; nothing more is archived after that.
pub proof fn law_unreadable_fails_the_walk(
    walk: TraversalView,
    path: Seq<char>,
    transitive: bool,
    reason: Seq<char>,
    written: bool,
    steps: Seq<Move>,
)
    requires
        !walk.failed,
    ensures
        run(
            after_visited(walk, path, transitive, VisitedView::Unreadable(reason), written),
            steps,
        ).failed,
        run(
            after_visited(walk, path, transitive, VisitedView::Unreadable(reason), written),
            steps,
        ).archive == walk.archive,
        run(after_entered(walk, path, EnteredView::Unreadable(reason)), steps).failed,
        run(after_entered(walk, path, EnteredView::Unreadable(reason)), steps).archive
            == walk.archive,
{
    law_failure_is_final(
        after_visited(walk, path, transitive, VisitedView::Unreadable(reason), written),
        steps,
    );
    law_failure_is_final(after_entered(walk, path, EnteredView::Unreadable(reason)), steps);
}

} // verus!
