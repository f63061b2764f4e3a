//! The life of a run with one reader, several workers and one merger: who
//! has to finish before whom, and what a failure does.

use vstd::prelude::*;
use crate::error::Error;

verus! {

/// Where a run stands.
#[derive(Clone, Copy, Debug, PartialEq, Eq, Structural)]
pub enum Phase {
    /// The reader is cutting chunks.
    Running,
    /// The reader is done; workers finish the chunks that are queued.
    Draining,
    /// All workers are done; the merger finishes the queued partial results.
    Merging,
    /// Everything was merged.
    Done,
    /// A stage failed; nothing will be put out.
    Failed(Error),
}

/// What a stage reports.
#[derive(Clone, Copy, Debug, PartialEq, Eq, Structural)]
pub enum Event {
    /// The reader reached the end of the input.
    ReaderFinished,
    /// A worker found the chunk queue closed and empty, and left.
    WorkerExited,
    /// The merger found the result queue closed and empty.
    MergerFinished,
    /// A stage gave up with this error.
    StageFailed(Error),
}

/// What whoever drives the run does in answer to an event.
#[derive(Clone, Copy, Debug, PartialEq, Eq, Structural)]
pub enum Action {
    /// Nothing.
    Continue,
    /// Close the chunk queue, so that idle workers leave.
    CloseChunkQueue,
    /// Close the result queue, so that the merger finishes.
    CloseResultQueue,
    /// Put out the final result.
    EmitResult,
    /// Close both queues, drop what was computed, and report the error.
    Abort(Error),
}

/// What a `Pipeline` stands for.
pub struct PipelineModel {
    pub phase: Phase,
    /// How many workers have not left yet.
    pub workers: nat,
}

impl PipelineModel {
    /// A run begins with all its workers; they are gone once the merger is
    /// the only stage left.
    pub open spec fn wf(self) -> bool {
        match self.phase {
            Phase::Running | Phase::Draining => self.workers >= 1,
            Phase::Merging | Phase::Done => self.workers == 0,
            Phase::Failed(_) => true,
        }
    }

    /// Whether no event changes the run any more.
    pub open spec fn settled(self) -> bool {
        self.phase is Done || self.phase is Failed
    }

    /// The run after `event`. A settled run stays as it is. A failure, or an
    /// event that comes out of turn, fails the run.
    pub open spec fn after(self, event: Event) -> PipelineModel {
        if self.settled() {
            self
        } else {
            match (self.phase, event) {
                (_, Event::StageFailed(e)) => PipelineModel {
                    phase: Phase::Failed(e),
                    workers: self.workers,
                },
                (Phase::Running, Event::ReaderFinished) => PipelineModel {
                    phase: Phase::Draining,
                    workers: self.workers,
                },
                (Phase::Draining, Event::WorkerExited) => if self.workers <= 1 {
                    PipelineModel { phase: Phase::Merging, workers: 0 }
                } else {
                    PipelineModel { phase: Phase::Draining, workers: (self.workers - 1) as nat }
                },
                (Phase::Merging, Event::MergerFinished) => PipelineModel {
                    phase: Phase::Done,
                    workers: 0,
                },
                _ => PipelineModel {
                    phase: Phase::Failed(Error::ChannelClosed),
                    workers: self.workers,
                },
            }
        }
    }

    /// What is to be done when `event` arrives.
    pub open spec fn action(self, event: Event) -> Action {
        if self.settled() {
            Action::Continue
        } else {
            match self.after(event).phase {
                Phase::Failed(e) => Action::Abort(e),
                Phase::Done => Action::EmitResult,
                Phase::Merging => Action::CloseResultQueue,
                Phase::Draining => if self.phase is Running {
                    Action::CloseChunkQueue
                } else {
                    Action::Continue
                },
                Phase::Running => Action::Continue,
            }
        }
    }

    /// The run after all of `events`, in order.
    pub open spec fn after_all(self, events: Seq<Event>) -> PipelineModel
        decreases events.len(),
    {
        if events.len() == 0 {
            self
        } else {
            self.after_all(events.drop_last()).after(events.last())
        }
    }
}

/// The state of a run, driven by the events that its stages report.
#[derive(Debug)]
pub struct Pipeline {
    phase: Phase,
    workers: usize,
}

impl View for Pipeline {
    type V = PipelineModel;

    closed spec fn view(&self) -> PipelineModel {
        PipelineModel { phase: self.phase, workers: self.workers as nat }
    }
}

impl Pipeline {
    /// A run that begins, with the given number of workers.
    pub fn new(workers: usize) -> (run: Pipeline)
        requires
            workers > 0,
        ensures
            run@ == (PipelineModel { phase: Phase::Running, workers: workers as nat }),
            run@.wf(),
    {
        Pipeline { phase: Phase::Running, workers }
    }

    /// Where the run stands.
    pub fn phase(&self) -> (phase: Phase)
        ensures
            phase == self@.phase,
    {
        self.phase
    }

    /// How many workers have not left yet.
    pub fn workers(&self) -> (n: usize)
        ensures
            n == self@.workers,
    {
        self.workers
    }

    /// Takes an event and says what to do.
    pub fn step(&mut self, event: Event) -> (action: Action)
        ensures
            final(self)@ == old(self)@.after(event),
            action == old(self)@.action(event),
    {
        match self.phase {
            Phase::Done | Phase::Failed(_) => {
                return Action::Continue;
            },
            _ => {},
        }
        match event {
            Event::StageFailed(e) => {
                self.phase = Phase::Failed(e);
                return Action::Abort(e);
            },
            _ => {},
        }
        match (self.phase, event) {
            (Phase::Running, Event::ReaderFinished) => {
                self.phase = Phase::Draining;
                Action::CloseChunkQueue
            },
            (Phase::Draining, Event::WorkerExited) => {
                if self.workers <= 1 {
                    self.workers = 0;
                    self.phase = Phase::Merging;
                    Action::CloseResultQueue
                } else {
                    self.workers = self.workers - 1;
                    Action::Continue
                }
            },
            (Phase::Merging, Event::MergerFinished) => {
                self.workers = 0;
                self.phase = Phase::Done;
                Action::EmitResult
            },
            _ => {
                self.phase = Phase::Failed(Error::ChannelClosed);
                Action::Abort(Error::ChannelClosed)
            },
        }
    }
}

/// Every event leaves a well-formed run well formed.
pub proof fn lemma_step_keeps_wf(run: PipelineModel, event: Event)
    requires
        run.wf(),
    ensures
        run.after(event).wf(),
{
}

/// A settled run stays as it is and asks for nothing.
pub proof fn lemma_settled_is_final(run: PipelineModel, event: Event)
    requires
        run.settled(),
    ensures
        run.after(event) == run,
        run.action(event) == Action::Continue,
{
}

/// The result is put out once, when the merger finishes after all workers
/// have left, and at no other event. In particular a failed run puts out
/// nothing.
pub proof fn lemma_result_only_when_merged(run: PipelineModel, event: Event)
    ensures
        run.action(event) == Action::EmitResult <==> run.phase == Phase::Merging && event
            == Event::MergerFinished,
        run.after(event).phase == Phase::Done && run.phase != Phase::Done ==> run.action(event)
            == Action::EmitResult,
{
}

/// A failure reported to a run that is not settled fails it with that very
/// error.
pub proof fn lemma_failure_aborts(run: PipelineModel, error: Error)
    requires
        !run.settled(),
    ensures
        run.after(Event::StageFailed(error)).phase == Phase::Failed(error),
        run.action(Event::StageFailed(error)) == Action::Abort(error),
{
}

/// `n` times the event that a worker left.
pub open spec fn exits(n: nat) -> Seq<Event> {
    Seq::new(n, |i: int| Event::WorkerExited)
}

/// While workers leave a draining run, it drains on with the workers that
/// are left, until the last one leaves.
pub proof fn lemma_workers_drain(run: PipelineModel, n: nat)
    requires
        run.phase == Phase::Draining,
        run.workers >= 1,
        n <= run.workers,
    ensures
        n < run.workers ==> run.after_all(exits(n)) == (PipelineModel {
            phase: Phase::Draining,
            workers: (run.workers - n) as nat,
        }),
        n == run.workers ==> run.after_all(exits(n)) == (PipelineModel {
            phase: Phase::Merging,
            workers: 0,
        }),
    decreases n,
{
    if n == 0 {
        assert(exits(0) =~= Seq::<Event>::empty());
    } else {
        lemma_workers_drain(run, (n - 1) as nat);
        assert(exits(n).drop_last() =~= exits((n - 1) as nat));
        assert(exits(n).last() == Event::WorkerExited);
    }
}

/// A run without failure ends well: after the reader has finished, every
/// worker has left and the merger has finished, a run that began with any
/// number of workers is done.
pub proof fn lemma_clean_run_is_done(workers: nat)
    requires
        workers >= 1,
    ensures
        (PipelineModel { phase: Phase::Running, workers }).after(Event::ReaderFinished).after_all(
            exits(workers),
        ).after(Event::MergerFinished).phase == Phase::Done,
{
    let begun = PipelineModel { phase: Phase::Running, workers };
    lemma_workers_drain(begun.after(Event::ReaderFinished), workers);
}

} // verus!
