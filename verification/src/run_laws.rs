//! What happens in the course of a training run and of a generation, and which
//! targets count.

use vstd::prelude::*;

use crate::cross_entropy_loss;
use crate::float_order;
use crate::generation::{self, Action, Progress};
use crate::training_run::{Stage, Task, TrainingRun};

verus! {

/// A step trains first, then reports at every `log_every`-th step, then validates
/// at every `val_every`-th step where there is something to validate on, then
/// saves the model as the best where the loss is the first or lower than all
/// before, then saves the model at every `save_every`-th step. Nothing is done
/// twice, and nothing else is done.
pub proof fn law_a_step_in_order(r: TrainingRun, loss: u32)
    requires
        r.wf(),
        r.stage == Stage::Train,
    ensures
        ({
            let tasks = r.rest_of_step(loss).0;
            let s = r.schedule;
            let all = seq![
                Task::Train(r.step),
                Task::Report(r.step),
                Task::Validate(r.step),
                Task::SaveBest(r.step),
                Task::Save(r.step),
            ];
            let validated = s.val_enabled && r.step % s.val_every == 0;
            let lowest = r.best is None || float_order::less(loss, r.best->Some_0);
            &&& tasks == all.filter(|t: Task| tasks.contains(t))
            &&& tasks.contains(Task::Train(r.step))
            &&& tasks.contains(Task::Report(r.step)) <==> r.step % s.log_every == 0
            &&& tasks.contains(Task::Validate(r.step)) <==> validated
            &&& tasks.contains(Task::SaveBest(r.step)) <==> validated && lowest
            &&& tasks.contains(Task::Save(r.step)) <==> r.step % s.save_every == 0
        }),
{
    reveal_with_fuel(TrainingRun::rest_of_step, 6);
    let tasks = r.rest_of_step(loss).0;
    let s = r.schedule;
    let reported = r.step % s.log_every == 0;
    let validated = s.val_enabled && r.step % s.val_every == 0;
    let lowest = r.best is None || float_order::less(loss, r.best->Some_0);
    let saved = r.step % s.save_every == 0;
    let all = seq![
        Task::Train(r.step),
        Task::Report(r.step),
        Task::Validate(r.step),
        Task::SaveBest(r.step),
        Task::Save(r.step),
    ];
    let none = Seq::<Task>::empty();
    let t1 = none.push(Task::Train(r.step));
    let t2 = if reported {
        t1.push(Task::Report(r.step))
    } else {
        t1
    };
    let t3 = if validated {
        t2.push(Task::Validate(r.step))
    } else {
        t2
    };
    let t4 = if validated && lowest {
        t3.push(Task::SaveBest(r.step))
    } else {
        t3
    };
    let t5 = if saved {
        t4.push(Task::Save(r.step))
    } else {
        t4
    };
    assert(tasks =~= t5);
    lemma_contains_pushed(t1, t2, t3, t4, t5, r.step);
    let in_tasks = |t: Task| tasks.contains(t);
    reveal(Seq::filter);
    reveal_with_fuel(Seq::filter, 6);
    assert(all.drop_last() =~= seq![
        Task::Train(r.step),
        Task::Report(r.step),
        Task::Validate(r.step),
        Task::SaveBest(r.step),
    ]);
    assert(all.drop_last().drop_last() =~= seq![
        Task::Train(r.step),
        Task::Report(r.step),
        Task::Validate(r.step),
    ]);
    assert(all.drop_last().drop_last().drop_last() =~= seq![
        Task::Train(r.step),
        Task::Report(r.step),
    ]);
    assert(all.drop_last().drop_last().drop_last().drop_last() =~= seq![Task::Train(r.step)]);
    assert(all.drop_last().drop_last().drop_last().drop_last().drop_last() =~= none);
    assert(all.drop_last().drop_last().drop_last().drop_last().filter(in_tasks) =~= t1);
    assert(all.drop_last().drop_last().drop_last().filter(in_tasks) =~= t2);
    assert(all.drop_last().drop_last().filter(in_tasks) =~= t3);
    assert(all.drop_last().filter(in_tasks) =~= t4);
    assert(all.filter(in_tasks) =~= t5);
}

/// What a list holds that was made by adding tasks of different kinds.
proof fn lemma_contains_pushed(
    t1: Seq<Task>,
    t2: Seq<Task>,
    t3: Seq<Task>,
    t4: Seq<Task>,
    t5: Seq<Task>,
    step: usize,
)
    requires
        t1 == Seq::<Task>::empty().push(Task::Train(step)),
        t2 == t1 || t2 == t1.push(Task::Report(step)),
        t3 == t2 || t3 == t2.push(Task::Validate(step)),
        t4 == t3 || t4 == t3.push(Task::SaveBest(step)),
        t5 == t4 || t5 == t4.push(Task::Save(step)),
    ensures
        t5.contains(Task::Train(step)),
        t5.contains(Task::Report(step)) <==> t2 != t1,
        t5.contains(Task::Validate(step)) <==> t3 != t2,
        t5.contains(Task::SaveBest(step)) <==> t4 != t3,
        t5.contains(Task::Save(step)) <==> t5 != t4,
{
    lemma_push_contains(Seq::<Task>::empty(), Task::Train(step));
    lemma_push_contains(t1, Task::Report(step));
    lemma_push_contains(t2, Task::Validate(step));
    lemma_push_contains(t3, Task::SaveBest(step));
    lemma_push_contains(t4, Task::Save(step));
    assert forall|t: Task| !Seq::<Task>::empty().contains(t) by {}
    assert(t1.push(Task::Report(step)).len() != t1.len());
    assert(t2.push(Task::Validate(step)).len() != t2.len());
    assert(t3.push(Task::SaveBest(step)).len() != t3.len());
    assert(t4.push(Task::Save(step)).len() != t4.len());
}

/// A list holds what it held before and what was added.
proof fn lemma_push_contains<T>(list: Seq<T>, x: T)
    ensures
        forall|y: T| #[trigger] list.push(x).contains(y) <==> list.contains(y) || y == x,
{
    assert forall|y: T| #[trigger] list.push(x).contains(y) <==> list.contains(y) || y == x by {
        if list.contains(y) {
            let i = list.index_of(y);
            assert(list.push(x)[i] == y);
        }
        if y == x {
            assert(list.push(x)[list.len() as int] == x);
        }
    }
}

/// Behind a step comes the next one, up to and including the last; the run is the
/// same but for the best loss, which is the new one where it was saved as such.
pub proof fn law_steps_follow_each_other(r: TrainingRun, loss: u32)
    requires
        r.wf(),
        r.stage == Stage::Train,
    ensures
        ({
            let (tasks, next) = r.rest_of_step(loss);
            &&& next.schedule == r.schedule
            &&& r.step < r.schedule.end_step ==> next.stage == Stage::Train && next.step == r.step
                + 1 && next.task() == Task::Train(next.step)
            &&& r.step == r.schedule.end_step ==> next.task() == Task::Finish
            &&& next.best == if tasks.contains(Task::SaveBest(r.step)) {
                Some(loss)
            } else {
                r.best
            }
        }),
{
    law_a_step_in_order(r, loss);
    reveal_with_fuel(TrainingRun::rest_of_step, 6);
}

/// A token that was drawn is added to the text, and the text goes on; but the
/// token at which the text ends is not added, and the text ends there.
pub proof fn law_drawn_tokens_are_added(p: Progress, id: usize)
    ensures
        id != p.eos_id ==> p.after_draw(id).ids == p.ids.push(id) && !p.after_draw(id).stopped,
        id == p.eos_id ==> p.after_draw(id).ids == p.ids && p.after_draw(id).stopped,
        p.after_draw(id).remaining == p.remaining - 1,
        p.after_draw(id).max_len == p.max_len,
        p.after_draw(id).eos_id == p.eos_id,
        p.after_draw(id).prompt_len == p.prompt_len,
        p.after_draw(id).cached == p.cached,
        p.after_draw(p.eos_id).wf() && !p.filling() ==> p.after_draw(p.eos_id).action()
            == Action::Stop,
{
}

/// Where the prompt was read and the text did not end, something is drawn as long
/// as tokens may be drawn and the model has room for them.
pub proof fn law_tokens_are_drawn_while_there_is_room(p: Progress)
    requires
        p.wf(),
        !p.filling(),
        !p.stopped,
    ensures
        p.remaining == 0 ==> p.action() == Action::Stop,
        p.remaining > 0 && !p.cached ==> p.action() is Window,
        p.remaining > 0 && p.cached && p.fed < p.max_len ==> p.action() == Action::Step(
            p.ids[p.ids.len() - 1],
        ),
        p.remaining > 0 && p.cached && p.fed == p.max_len ==> p.action() == Action::Stop,
{
}

/// Without a cache the model sees the end of the text: all of it where it is short
/// enough, and as much as fits otherwise.
pub proof fn law_the_model_sees_the_end_of_the_text(p: Progress)
    requires
        p.wf(),
        p.action() is Window,
    ensures
        p.action()->Window_0 <= p.ids.len(),
        p.ids.len() <= p.max_len ==> p.ids.skip(p.action()->Window_0 as int) == p.ids,
        p.ids.len() > p.max_len ==> p.ids.skip(p.action()->Window_0 as int).len() == p.max_len,
{
    if p.ids.len() <= p.max_len {
        assert(p.ids.skip(0) =~= p.ids);
    }
}

/// With a cache the end of the prompt is run token by token in the order of the
/// text: as much of it as the model can see, up to the last token, which is run
/// when the first token is drawn.
pub proof fn law_the_prompt_is_fed_in_order(p: Progress, seen: Seq<usize>, before: Seq<usize>)
    requires
        p.wf(),
        p.cached,
        p.ids.take(p.prompt_len) == before + seen,
        seen.len() <= p.max_len,
        before.len() > 0 ==> seen.len() == p.max_len,
    ensures
        p.fed < seen.len() - 1 ==> p.action() == Action::Feed(seen[p.fed]),
        p.fed >= seen.len() - 1 ==> !(p.action() is Feed),
        p.after_feed().fed == p.fed + 1,
        p.after_feed().ids == p.ids,
{
    assert(p.ids.take(p.prompt_len).len() == before.len() + seen.len());
    assert(p.start() == before.len());
    if p.fed < seen.len() - 1 {
        assert(p.ids.take(p.prompt_len)[before.len() + p.fed] == seen[p.fed]);
    }
}

/// The window starts so that it ends with the text and holds no more than there is
/// room for.
pub proof fn law_a_window_is_the_end(len: int, max_len: int)
    requires
        0 <= len,
        0 <= max_len,
    ensures
        len <= max_len ==> generation::window_start(len, max_len) == 0,
        max_len <= len ==> len - generation::window_start(len, max_len) == max_len,
{
}

/// Targets count one by one, but for those that are padding.
pub proof fn law_padding_does_not_count(targets: Seq<usize>, pad_id: usize)
    ensures
        cross_entropy_loss::ones(cross_entropy_loss::mask_of(targets, pad_id)) == targets.filter(
            |t: usize| t != pad_id,
        ).len(),
        cross_entropy_loss::mask_of(targets, pad_id).len() == targets.len(),
        forall|i: int|
            0 <= i < targets.len() ==> (#[trigger] cross_entropy_loss::mask_of(
                targets,
                pad_id,
            )[i] == 0u8 <==> targets[i] == pad_id),
        forall|i: int|
            0 <= i < targets.len() ==> (#[trigger] cross_entropy_loss::mask_of(
                targets,
                pad_id,
            )[i] == 1u8 <==> targets[i] != pad_id),
    decreases targets.len(),
{
    let mask = cross_entropy_loss::mask_of(targets, pad_id);
    reveal(Seq::filter);
    if targets.len() > 0 {
        law_padding_does_not_count(targets.drop_last(), pad_id);
        assert(mask.drop_last() =~= cross_entropy_loss::mask_of(targets.drop_last(), pad_id));
        assert(mask.last() == 1u8 <==> targets.last() != pad_id);
    }
}

} // verus!
