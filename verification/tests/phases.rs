use chunked_stats::error::Error;
use chunked_stats::pipeline::Action;
use chunked_stats::pipeline::Event;
use chunked_stats::pipeline::Phase;
use chunked_stats::pipeline::Pipeline;

#[test]
fn a_run_begins_running_with_all_its_workers() {
    let run = Pipeline::new(3);
    assert_eq!(run.phase(), Phase::Running);
    assert_eq!(run.workers(), 3);
}

#[test]
fn a_clean_run_goes_through_all_phases() {
    let mut run = Pipeline::new(2);
    assert_eq!(run.step(Event::ReaderFinished), Action::CloseChunkQueue);
    assert_eq!(run.phase(), Phase::Draining);
    assert_eq!(run.step(Event::WorkerExited), Action::Continue);
    assert_eq!(run.phase(), Phase::Draining);
    assert_eq!(run.workers(), 1);
    assert_eq!(run.step(Event::WorkerExited), Action::CloseResultQueue);
    assert_eq!(run.phase(), Phase::Merging);
    assert_eq!(run.workers(), 0);
    assert_eq!(run.step(Event::MergerFinished), Action::EmitResult);
    assert_eq!(run.phase(), Phase::Done);
}

#[test]
fn a_done_run_ignores_what_comes_later() {
    let mut run = Pipeline::new(1);
    run.step(Event::ReaderFinished);
    run.step(Event::WorkerExited);
    run.step(Event::MergerFinished);
    assert_eq!(run.step(Event::WorkerExited), Action::Continue);
    assert_eq!(run.step(Event::StageFailed(Error::Io)), Action::Continue);
    assert_eq!(run.phase(), Phase::Done);
}

#[test]
fn a_failure_aborts_the_run_in_every_phase() {
    let failure = Error::BoundaryOverflow { chunk: 4 };
    for steps in 0..3 {
        let mut run = Pipeline::new(1);
        for event in [Event::ReaderFinished, Event::WorkerExited].iter().take(steps) {
            run.step(*event);
        }
        assert_eq!(run.step(Event::StageFailed(failure)), Action::Abort(failure));
        assert_eq!(run.phase(), Phase::Failed(failure));
    }
}

#[test]
fn a_failed_run_keeps_its_first_error_and_puts_out_nothing() {
    let mut run = Pipeline::new(2);
    run.step(Event::StageFailed(Error::Io));
    assert_eq!(run.step(Event::StageFailed(Error::CountOverflow)), Action::Continue);
    assert_eq!(run.step(Event::ReaderFinished), Action::Continue);
    assert_eq!(run.step(Event::WorkerExited), Action::Continue);
    assert_eq!(run.step(Event::WorkerExited), Action::Continue);
    assert_eq!(run.step(Event::MergerFinished), Action::Continue);
    assert_eq!(run.phase(), Phase::Failed(Error::Io));
}

#[test]
fn a_worker_that_leaves_before_the_reader_is_done_fails_the_run() {
    let mut run = Pipeline::new(2);
    assert_eq!(run.step(Event::WorkerExited), Action::Abort(Error::ChannelClosed));
    assert_eq!(run.phase(), Phase::Failed(Error::ChannelClosed));
}

#[test]
fn a_merger_that_finishes_before_the_workers_fails_the_run() {
    let mut run = Pipeline::new(2);
    run.step(Event::ReaderFinished);
    run.step(Event::WorkerExited);
    assert_eq!(run.step(Event::MergerFinished), Action::Abort(Error::ChannelClosed));
    assert_eq!(run.phase(), Phase::Failed(Error::ChannelClosed));
}

#[test]
fn a_reader_that_finishes_twice_fails_the_run() {
    let mut run = Pipeline::new(1);
    run.step(Event::ReaderFinished);
    assert_eq!(run.step(Event::ReaderFinished), Action::Abort(Error::ChannelClosed));
}
