//! Work that is handed out in batches is a walk like any other.

use vstd::prelude::*;
use crate::laws::balance::law_failure_is_final;
use crate::traversal::{TraversalView, WorkView};
use crate::tree::{absorbed, in_kind, moved, run, Answer, Move};

verus! {

/// `walk` once the answers to `works` are taken in, the last of `works`
/// first: `answers` and `written` go with the pieces of work in that order.
pub open spec fn absorbed_all(
    walk: TraversalView,
    works: Seq<WorkView>,
    answers: Seq<Answer>,
    written: Seq<bool>,
) -> TraversalView
    decreases works.len(),
{
    if works.len() == 0 {
        walk
    } else {
        absorbed_all(
            absorbed(walk, works.last(), answers.first(), written.first()),
            works.drop_last(),
            answers.drop_first(),
            written.drop_first(),
        )
    }
}

/// The steps that pick the waiting work from `newest` downwards, one for
/// each answer.
pub open spec fn batch_steps(newest: int, answers: Seq<Answer>, written: Seq<bool>) -> Seq<Move> {
    Seq::new(
        answers.len(),
        |i: int| Move { pick: newest - i, answer: answers[i], written: written[i] },
    )
}

/// A walk that has failed takes no answer in.
proof fn lemma_failed_absorbs_nothing(
    walk: TraversalView,
    works: Seq<WorkView>,
    answers: Seq<Answer>,
    written: Seq<bool>,
)
    requires
        walk.failed,
    ensures
        absorbed_all(walk, works, answers, written) == walk,
    decreases works.len(),
{
    if works.len() > 0 {
        lemma_failed_absorbs_nothing(
            walk,
            works.drop_last(),
            answers.drop_first(),
            written.drop_first(),
        );
    }
}

/// The batch law, with work waiting before and behind the batch: `held` is
/// the walk with the batch handed out, `walk` the walk with the batch still
/// waiting between `front` and `back`.
proof fn lemma_batch_is_a_run(
    held: TraversalView,
    walk: TraversalView,
    front: Seq<WorkView>,
    works: Seq<WorkView>,
    back: Seq<WorkView>,
    answers: Seq<Answer>,
    written: Seq<bool>,
)
    requires
        held == (TraversalView { pending: front + back, ..walk }),
        walk.pending == front + works + back,
        answers.len() == works.len(),
        written.len() == works.len(),
        forall|i: int|
            0 <= i < works.len() ==> in_kind(works[works.len() - 1 - i], #[trigger] answers[i]),
    ensures
        absorbed_all(held, works, answers, written) == run(
            walk,
            batch_steps(front.len() + works.len() - 1, answers, written),
        ),
    decreases works.len(),
{
    let newest = front.len() + works.len() - 1;
    let steps = batch_steps(newest, answers, written);
    if works.len() > 0 {
        let work = works.last();
        let rest = works.drop_last();
        assert(walk.pending[newest] == work);
        assert(in_kind(works[works.len() - 1 - 0], answers[0]));
        assert(walk.pending.remove(newest) =~= front + rest + back);
        let lighter = TraversalView { pending: front + rest + back, ..walk };
        let next_held = absorbed(held, work, answers.first(), written.first());
        let next_walk = absorbed(lighter, work, answers.first(), written.first());
        assert(steps.first() == Move {
            pick: newest,
            answer: answers.first(),
            written: written.first(),
        });
        assert(moved(walk, steps.first()) == next_walk);
        assert(steps.drop_first() =~= batch_steps(
            newest - 1,
            answers.drop_first(),
            written.drop_first(),
        ));
        assert forall|i: int| 0 <= i < rest.len() implies in_kind(
            rest[rest.len() - 1 - i],
            #[trigger] answers.drop_first()[i],
        ) by {
            assert(in_kind(works[works.len() - 1 - (i + 1)], answers[i + 1]));
        }
        if next_walk.failed && !walk.failed {
            assert(next_held == next_walk);
            lemma_failed_absorbs_nothing(
                next_held,
                rest,
                answers.drop_first(),
                written.drop_first(),
            );
            law_failure_is_final(next_walk, steps.drop_first());
        } else {
            let added = next_held.pending.skip((front + back).len() as int);
            assert(next_held.pending =~= front + (back + added));
            assert(next_walk.pending =~= front + rest + (back + added));
            lemma_batch_is_a_run(
                next_held,
                next_walk,
                front,
                rest,
                back + added,
                answers.drop_first(),
                written.drop_first(),
            );
        }
    }
}

/// Handing out the newest pieces of waiting work as a batch and then taking
/// in their answers, in the order in which they were handed out, is a walk
/// of as many steps: it leaves the walk exactly where those steps leave it.
/// So whatever holds of every walk holds of one that is done in batches,
/// whatever their sizes.
pub proof fn law_batch_is_a_run(
    walk: TraversalView,
    size: int,
    answers: Seq<Answer>,
    written: Seq<bool>,
)
    requires
        0 <= size <= walk.pending.len(),
        answers.len() == size,
        written.len() == size,
        forall|i: int|
            0 <= i < size ==> in_kind(
                walk.pending[walk.pending.len() - 1 - i],
                #[trigger] answers[i],
            ),
    ensures
        absorbed_all(
            TraversalView { pending: walk.pending.take(walk.pending.len() - size), ..walk },
            walk.pending.skip(walk.pending.len() - size),
            answers,
            written,
        ) == run(walk, batch_steps(walk.pending.len() - 1, answers, written)),
{
    let kept = walk.pending.take(walk.pending.len() - size);
    let given = walk.pending.skip(walk.pending.len() - size);
    let none = Seq::<WorkView>::empty();
    assert(kept + none =~= kept);
    assert(kept + given + none =~= walk.pending);
    assert forall|i: int| 0 <= i < given.len() implies in_kind(
        given[given.len() - 1 - i],
        #[trigger] answers[i],
    ) by {
        assert(given[given.len() - 1 - i] == walk.pending[walk.pending.len() - 1 - i]);
    }
    lemma_batch_is_a_run(
        TraversalView { pending: kept, ..walk },
        walk,
        kept,
        given,
        none,
        answers,
        written,
    );
}

} // verus!
