//! The course of a training run: which step is trained next, and what is reported,
//! validated and saved behind it.
//!
//! Training, measuring losses and writing files are done outside. A `TrainingRun`
//! says what to do next and takes the losses that were measured, as the bit
//! patterns of 32-bit floats.

use crate::float_order::{self, is_less};
use crate::training::{Schedule, StepPlan};
use vstd::prelude::*;

verus! {

/// What is to be done next.
#[derive(Clone, Copy, Debug, PartialEq, Eq, Structural)]
pub enum Task {
    /// Train on windows of the text.
    Train(usize),
    /// Report the losses since the last report.
    Report(usize),
    /// Measure the loss on the validation text.
    Validate(usize),
    /// Save the model as the best so far.
    SaveBest(usize),
    /// Save the model under the number of the step.
    Save(usize),
    /// Nothing.
    Finish,
}

/// How far a step has come.
#[derive(Clone, Copy, Debug, PartialEq, Eq, Structural)]
pub enum Stage {
    Train,
    Report,
    Validate,
    SaveBest,
    Save,
    Finish,
}

/// A training run.
#[derive(Clone, Copy, Debug, PartialEq, Eq, Structural)]
pub struct TrainingRun {
    pub schedule: Schedule,
    pub step: usize,
    pub stage: Stage,
    /// The lowest validation loss so far.
    pub best: Option<u32>,
}

/// The loss is lower than the best one so far, or the first. What is not a number
/// is lower than nothing, and nothing is lower than it.
pub open spec fn improves(best: Option<u32>, loss: u32) -> bool {
    match best {
        None => true,
        Some(b) => float_order::less(loss, b),
    }
}

/// The best loss, after some more losses.
pub open spec fn best_after(best: Option<u32>, losses: Seq<u32>) -> Option<u32>
    decreases losses.len(),
{
    if losses.len() == 0 {
        best
    } else {
        let before = best_after(best, losses.drop_last());
        if improves(before, losses.last()) {
            Some(losses.last())
        } else {
            before
        }
    }
}

/// The tasks of a step, in order.
pub open spec fn tasks_due(s: Schedule, step: usize, improved: bool) -> Seq<Task> {
    seq![Task::Train(step)] + (if step % s.log_every == 0 {
        seq![Task::Report(step)]
    } else {
        seq![]
    }) + (if s.val_enabled && step % s.val_every == 0 {
        if improved {
            seq![Task::Validate(step), Task::SaveBest(step)]
        } else {
            seq![Task::Validate(step)]
        }
    } else {
        seq![]
    }) + (if step % s.save_every == 0 {
        seq![Task::Save(step)]
    } else {
        seq![]
    })
}

impl TrainingRun {
    /// There is such a step, and what is due at a step can be told.
    pub open spec fn wf(self) -> bool {
        &&& self.schedule.sound()
        &&& self.stage != Stage::Finish ==> self.step <= self.schedule.end_step
    }

    /// What is to be done next.
    pub open spec fn task(self) -> Task {
        match self.stage {
            Stage::Train => Task::Train(self.step),
            Stage::Report => Task::Report(self.step),
            Stage::Validate => Task::Validate(self.step),
            Stage::SaveBest => Task::SaveBest(self.step),
            Stage::Save => Task::Save(self.step),
            Stage::Finish => Task::Finish,
        }
    }

    /// The next step, or the end.
    pub open spec fn at_next_step(self) -> Self {
        if self.step < self.schedule.end_step {
            TrainingRun { step: (self.step + 1) as usize, stage: Stage::Train, ..self }
        } else {
            TrainingRun { stage: Stage::Finish, ..self }
        }
    }

    /// Saving, where it is due, or what comes behind it.
    pub open spec fn at_save(self) -> Self {
        if self.step % self.schedule.save_every == 0 {
            TrainingRun { stage: Stage::Save, ..self }
        } else {
            self.at_next_step()
        }
    }

    /// Validation, where it is due, or what comes behind it.
    pub open spec fn at_validation(self) -> Self {
        if self.schedule.val_enabled && self.step % self.schedule.val_every == 0 {
            TrainingRun { stage: Stage::Validate, ..self }
        } else {
            self.at_save()
        }
    }

    /// After a task other than validation.
    pub open spec fn after_task(self) -> Self {
        match self.stage {
            Stage::Train => if self.step % self.schedule.log_every == 0 {
                TrainingRun { stage: Stage::Report, ..self }
            } else {
                self.at_validation()
            },
            Stage::Report => self.at_validation(),
            Stage::SaveBest => self.at_save(),
            Stage::Save => self.at_next_step(),
            Stage::Validate | Stage::Finish => self,
        }
    }

    /// After validation measured the loss.
    pub open spec fn after_loss(self, loss: u32) -> Self {
        if improves(self.best, loss) {
            TrainingRun { best: Some(loss), stage: Stage::SaveBest, ..self }
        } else {
            self.at_save()
        }
    }

    /// The tasks from here to the end of the step, and the run behind them, where
    /// validation measures `loss`.
    pub open spec fn rest_of_step(self, loss: u32) -> (Seq<Task>, Self)
        decreases
                (match self.stage {
                    Stage::Train => 5int,
                    Stage::Report => 4,
                    Stage::Validate => 3,
                    Stage::SaveBest => 2,
                    Stage::Save => 1,
                    Stage::Finish => 0,
                }),
    {
        if self.stage == Stage::Finish {
            (seq![], self)
        } else {
            let next = if self.stage == Stage::Validate {
                self.after_loss(loss)
            } else {
                self.after_task()
            };
            if next.stage == Stage::Train || next.stage == Stage::Finish {
                (seq![self.task()], next)
            } else {
                let (tasks, end) = next.rest_of_step(loss);
                (seq![self.task()] + tasks, end)
            }
        }
    }

    /// A run that starts at the step `start`.
    pub fn new(schedule: Schedule, start: usize) -> (r: Self)
        requires
            schedule.sound(),
        ensures
            r.wf(),
            r == (TrainingRun {
                schedule,
                step: start,
                stage: if start <= schedule.end_step {
                    Stage::Train
                } else {
                    Stage::Finish
                },
                best: None,
            }),
    {
        TrainingRun {
            schedule,
            step: start,
            stage: if start <= schedule.end_step {
                Stage::Train
            } else {
                Stage::Finish
            },
            best: None,
        }
    }

    /// What is to be done next.
    pub fn next_task(&self) -> (r: Task)
        ensures
            r == self.task(),
    {
        match self.stage {
            Stage::Train => Task::Train(self.step),
            Stage::Report => Task::Report(self.step),
            Stage::Validate => Task::Validate(self.step),
            Stage::SaveBest => Task::SaveBest(self.step),
            Stage::Save => Task::Save(self.step),
            Stage::Finish => Task::Finish,
        }
    }

    /// Goes on to the next step, or to the end.
    fn go_to_next_step(&mut self)
        requires
            old(self).wf(),
        ensures
            final(self).wf(),
            *final(self) == old(self).at_next_step(),
    {
        if self.step < self.schedule.end_step {
            self.step = self.step + 1;
            self.stage = Stage::Train;
        } else {
            self.stage = Stage::Finish;
        }
    }

    /// Goes on to saving, or to what comes behind it.
    fn go_to_save(&mut self)
        requires
            old(self).wf(),
            old(self).stage != Stage::Finish,
        ensures
            final(self).wf(),
            *final(self) == old(self).at_save(),
    {
        let plan: StepPlan = self.schedule.at(self.step);
        if plan.save {
            self.stage = Stage::Save;
        } else {
            self.go_to_next_step();
        }
    }

    /// Goes on to validation, or to what comes behind it.
    fn go_to_validation(&mut self)
        requires
            old(self).wf(),
            old(self).stage != Stage::Finish,
        ensures
            final(self).wf(),
            *final(self) == old(self).at_validation(),
    {
        let plan: StepPlan = self.schedule.at(self.step);
        if plan.validate {
            self.stage = Stage::Validate;
        } else {
            self.go_to_save();
        }
    }

    /// The task was done. A validation hands in its loss instead.
    pub fn done(&mut self)
        requires
            old(self).wf(),
            old(self).stage != Stage::Validate,
        ensures
            final(self).wf(),
            *final(self) == old(self).after_task(),
    {
        match self.stage {
            Stage::Train => {
                let plan: StepPlan = self.schedule.at(self.step);
                if plan.log {
                    self.stage = Stage::Report;
                } else {
                    self.go_to_validation();
                }
            },
            Stage::Report => self.go_to_validation(),
            Stage::SaveBest => self.go_to_save(),
            Stage::Save => self.go_to_next_step(),
            Stage::Validate | Stage::Finish => {},
        }
    }

    /// Validation measured the loss.
    pub fn measured(&mut self, loss: u32)
        requires
            old(self).wf(),
            old(self).stage == Stage::Validate,
        ensures
            final(self).wf(),
            *final(self) == old(self).after_loss(loss),
    {
        if is_improvement(self.best, loss) {
            self.best = Some(loss);
            self.stage = Stage::SaveBest;
        } else {
            self.go_to_save();
        }
    }
}

/// Whether the loss is lower than the best one so far, or the first.
pub fn is_improvement(best: Option<u32>, loss: u32) -> (r: bool)
    ensures
        r == improves(best, loss),
{
    match best {
        None => true,
        Some(b) => is_less(loss, b),
    }
}

/// A step trains, then reports, validates, saves the best and saves, each where it
/// is due and once; then comes the next step, and behind the last one the end. The
/// best loss changes only where validation improves it.
pub proof fn law_a_step_does_what_is_due(r: TrainingRun, loss: u32)
    requires
        r.wf(),
        r.stage == Stage::Train,
    ensures
        r.rest_of_step(loss).0 == tasks_due(r.schedule, r.step, improves(r.best, loss)),
        r.rest_of_step(loss).1 == (TrainingRun {
            best: if r.schedule.val_enabled && r.step % r.schedule.val_every == 0 {
                best_after(r.best, seq![loss])
            } else {
                r.best
            },
            ..r
        }).at_next_step(),
{
    reveal_with_fuel(TrainingRun::rest_of_step, 6);
    reveal_with_fuel(best_after, 2);
    assert(seq![loss].drop_last() =~= seq![]);
    assert(r.rest_of_step(loss).0 =~= tasks_due(r.schedule, r.step, improves(r.best, loss)));
}

/// The best of some losses is the lowest of them, and of equal ones the first.
pub proof fn law_best_is_the_lowest(losses: Seq<u32>)
    requires
        losses.len() > 0,
        forall|i: int| 0 <= i < losses.len() ==> !float_order::not_a_number(#[trigger] losses[i]),
    ensures
        exists|i: int|
            {
                &&& 0 <= i < losses.len()
                &&& best_after(None, losses) == Some(#[trigger] losses[i])
                &&& forall|j: int|
                    0 <= j < losses.len() ==> float_order::order_key(losses[i])
                        <= float_order::order_key(#[trigger] losses[j])
                &&& forall|j: int|
                    0 <= j < i ==> float_order::order_key(losses[i]) < float_order::order_key(
                        #[trigger] losses[j],
                    )
            },
    decreases losses.len(),
{
    let last = losses.len() - 1;
    if last == 0 {
        assert(best_after(None, losses.drop_last()) is None);
        assert(best_after(None, losses) == Some(losses[0]));
    } else {
        let shorter = losses.drop_last();
        assert forall|i: int| 0 <= i < shorter.len() implies !float_order::not_a_number(
            #[trigger] shorter[i],
        ) by {
            assert(shorter[i] == losses[i]);
        }
        law_best_is_the_lowest(shorter);
        let i = choose|i: int|
            {
                &&& 0 <= i < shorter.len()
                &&& best_after(None, shorter) == Some(#[trigger] shorter[i])
                &&& forall|j: int|
                    0 <= j < shorter.len() ==> float_order::order_key(shorter[i])
                        <= float_order::order_key(#[trigger] shorter[j])
                &&& forall|j: int|
                    0 <= j < i ==> float_order::order_key(shorter[i]) < float_order::order_key(
                        #[trigger] shorter[j],
                    )
            };
        assert forall|j: int| 0 <= j < last implies shorter[j] == #[trigger] losses[j] by {}
        if improves(best_after(None, shorter), losses.last()) {
            assert(best_after(None, losses) == Some(losses[last]));
        } else {
            assert(best_after(None, losses) == Some(losses[i]));
        }
    }
}

} // verus!
