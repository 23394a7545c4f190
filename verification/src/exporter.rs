//! The steps by which the exporter writes snapshots out.
use vstd::prelude::*;

verus! {

/// Which snapshot is being written.
#[derive(Clone, Copy, Debug, PartialEq, Eq, Structural)]
pub enum Phase {
    /// One of those that are taken from time to time.
    Periodic,
    /// The last one, which shutdown asks for.
    Final,
}

/// How the exporter ended.
#[derive(Clone, Copy, Debug, PartialEq, Eq, Structural)]
pub enum Ending {
    Complete,
    PeriodicWriteFailed,
    FinalWriteFailed,
    FlushFailed,
}

/// What the exporter does next.
#[derive(Clone, Copy, Debug, PartialEq, Eq, Structural)]
pub enum Step {
    /// Wait for the timer or for shutdown.
    Wait,
    /// Take a snapshot and write its records.
    Write(Phase),
    /// Flush what was written to the file.
    Flush(Phase),
    /// Nothing more.
    Done(Ending),
}

/// What comes of a step.
#[derive(Clone, Copy, Debug, PartialEq, Eq, Structural)]
pub enum Occurrence {
    /// The flush interval has passed.
    Timer,
    /// The recorder is gone.
    Shutdown,
    /// Neither the timer nor shutdown will come any more.
    Closed,
    /// What was to be written or flushed is.
    Succeeded,
    /// What was to be written or flushed is not.
    Failed,
}

/// The step that follows; what does not concern a step leaves it as it is.
pub open spec fn following(step: Step, occurrence: Occurrence) -> Step {
    match (step, occurrence) {
        (Step::Wait, Occurrence::Timer) => Step::Write(Phase::Periodic),
        (Step::Wait, Occurrence::Shutdown) => Step::Write(Phase::Final),
        (Step::Wait, Occurrence::Closed) => Step::Done(Ending::Complete),
        (Step::Write(phase), Occurrence::Succeeded) => Step::Flush(phase),
        (Step::Write(Phase::Periodic), Occurrence::Failed) => Step::Done(
            Ending::PeriodicWriteFailed,
        ),
        (Step::Write(Phase::Final), Occurrence::Failed) => Step::Done(Ending::FinalWriteFailed),
        (Step::Flush(Phase::Periodic), Occurrence::Succeeded) => Step::Wait,
        (Step::Flush(Phase::Final), Occurrence::Succeeded) => Step::Done(Ending::Complete),
        (Step::Flush(_), Occurrence::Failed) => Step::Done(Ending::FlushFailed),
        _ => step,
    }
}

/// Decides what follows a step.
pub fn next_step(step: Step, occurrence: Occurrence) -> (next: Step)
    ensures
        next == following(step, occurrence),
{
    match (step, occurrence) {
        (Step::Wait, Occurrence::Timer) => Step::Write(Phase::Periodic),
        (Step::Wait, Occurrence::Shutdown) => Step::Write(Phase::Final),
        (Step::Wait, Occurrence::Closed) => Step::Done(Ending::Complete),
        (Step::Write(phase), Occurrence::Succeeded) => Step::Flush(phase),
        (Step::Write(Phase::Periodic), Occurrence::Failed) => Step::Done(
            Ending::PeriodicWriteFailed,
        ),
        (Step::Write(Phase::Final), Occurrence::Failed) => Step::Done(Ending::FinalWriteFailed),
        (Step::Flush(Phase::Periodic), Occurrence::Succeeded) => Step::Wait,
        (Step::Flush(Phase::Final), Occurrence::Succeeded) => Step::Done(Ending::Complete),
        (Step::Flush(_), Occurrence::Failed) => Step::Done(Ending::FlushFailed),
        (step, _) => step,
    }
}

/// What is logged of an ending; nothing where all went well.
pub open spec fn ending_text(ending: Ending) -> Option<Seq<char>> {
    match ending {
        Ending::Complete => None,
        Ending::PeriodicWriteFailed => Some("csv exporter periodic write failed"@),
        Ending::FinalWriteFailed => Some("csv exporter final write failed"@),
        Ending::FlushFailed => Some("csv exporter flush failed"@),
    }
}

impl Ending {
    /// What to log of the ending.
    pub fn message(&self) -> (message: Option<&'static str>)
        ensures
            ending_text(*self) == (match message {
                Some(text) => Some(text@),
                None => None,
            }),
    {
        match self {
            Ending::Complete => None,
            Ending::PeriodicWriteFailed => Some("csv exporter periodic write failed"),
            Ending::FinalWriteFailed => Some("csv exporter final write failed"),
            Ending::FlushFailed => Some("csv exporter flush failed"),
        }
    }
}

/// The step that the exporter has come to after the first `n` occurrences, having started to wait.
pub open spec fn reached(occurrences: Seq<Occurrence>, n: int) -> Step
    decreases n,
{
    if n <= 0 {
        Step::Wait
    } else {
        following(reached(occurrences, n - 1), occurrences[n - 1])
    }
}

/// Whether the `i`th occurrence brings the exporter from one step to another.
pub open spec fn moves(occurrences: Seq<Occurrence>, i: int, from: Step, to: Step) -> bool {
    &&& 0 <= i < occurrences.len()
    &&& reached(occurrences, i) == from
    &&& reached(occurrences, i + 1) == to
}

/// An exporter that has ended stays so.
pub proof fn done_is_the_end(ending: Ending, occurrence: Occurrence)
    ensures
        following(Step::Done(ending), occurrence) == Step::Done(ending),
{
}

/// Each passing of the flush interval writes a snapshot, flushes it to the file and waits again, as
/// long as nothing fails.
pub proof fn every_interval_reaches_the_file(occurrences: Seq<Occurrence>, i: int)
    requires
        0 <= i,
        i + 3 <= occurrences.len(),
        reached(occurrences, i) == Step::Wait,
        occurrences[i] == Occurrence::Timer,
        occurrences[i + 1] == Occurrence::Succeeded,
        occurrences[i + 2] == Occurrence::Succeeded,
    ensures
        moves(occurrences, i, Step::Wait, Step::Write(Phase::Periodic)),
        moves(occurrences, i + 1, Step::Write(Phase::Periodic), Step::Flush(Phase::Periodic)),
        moves(occurrences, i + 2, Step::Flush(Phase::Periodic), Step::Wait),
{
    assert(reached(occurrences, i + 1) == following(reached(occurrences, i), occurrences[i]));
    assert(reached(occurrences, i + 2) == following(
        reached(occurrences, i + 1),
        occurrences[i + 1],
    ));
    assert(reached(occurrences, i + 3) == following(
        reached(occurrences, i + 2),
        occurrences[i + 2],
    ));
}

/// Shutdown writes a last snapshot and flushes it before the exporter completes: whoever lets the
/// exporter run to its end finds the last values in the file.
pub proof fn completion_follows_a_final_flush(occurrences: Seq<Occurrence>, n: int)
    requires
        0 <= n <= occurrences.len(),
        reached(occurrences, n) == Step::Done(Ending::Complete),
        !occurrences.contains(Occurrence::Closed),
    ensures
        exists|i: int|
            i < n && #[trigger] moves(
                occurrences,
                i,
                Step::Write(Phase::Final),
                Step::Flush(Phase::Final),
            ),
        exists|i: int|
            i < n && #[trigger] moves(
                occurrences,
                i,
                Step::Flush(Phase::Final),
                Step::Done(Ending::Complete),
            ),
    decreases n,
{
    if n > 0 {
        let before = reached(occurrences, n - 1);
        let last = occurrences[n - 1];
        assert(occurrences.contains(last));
        if before == Step::Done(Ending::Complete) {
            completion_follows_a_final_flush(occurrences, n - 1);
        } else {
            assert(before == Step::Flush(Phase::Final));
            assert(moves(
                occurrences,
                n - 1,
                Step::Flush(Phase::Final),
                Step::Done(Ending::Complete),
            ));
            final_flush_follows_final_write(occurrences, n - 1);
        }
    }
}

proof fn final_flush_follows_final_write(occurrences: Seq<Occurrence>, n: int)
    requires
        0 <= n <= occurrences.len(),
        reached(occurrences, n) == Step::Flush(Phase::Final),
    ensures
        exists|i: int|
            i < n && #[trigger] moves(
                occurrences,
                i,
                Step::Write(Phase::Final),
                Step::Flush(Phase::Final),
            ),
    decreases n,
{
    if n > 0 {
        let before = reached(occurrences, n - 1);
        if before == Step::Flush(Phase::Final) {
            final_flush_follows_final_write(occurrences, n - 1);
        } else {
            assert(moves(
                occurrences,
                n - 1,
                Step::Write(Phase::Final),
                Step::Flush(Phase::Final),
            ));
        }
    }
}

/// A failure ends the exporter at once, and the ending tells what failed.
pub proof fn failure_ends_the_exporter(phase: Phase)
    ensures
        following(Step::Write(phase), Occurrence::Failed) == Step::Done(
            match phase {
                Phase::Periodic => Ending::PeriodicWriteFailed,
                Phase::Final => Ending::FinalWriteFailed,
            },
        ),
        following(Step::Flush(phase), Occurrence::Failed) == Step::Done(Ending::FlushFailed),
{
}

/// Waiting ends with the timer, with shutdown or when neither can come; nothing else ends it.
pub proof fn waiting_ends_with_the_timer_or_shutdown(occurrence: Occurrence)
    ensures
        following(Step::Wait, Occurrence::Timer) == Step::Write(Phase::Periodic),
        following(Step::Wait, Occurrence::Shutdown) == Step::Write(Phase::Final),
        following(Step::Wait, Occurrence::Closed) == Step::Done(Ending::Complete),
        occurrence != Occurrence::Timer && occurrence != Occurrence::Shutdown && occurrence
            != Occurrence::Closed ==> following(Step::Wait, occurrence) == Step::Wait,
{
}

/// What is being written or flushed is not broken off: neither the timer nor shutdown changes the
/// step before it has succeeded or failed.
pub proof fn writing_and_flushing_are_not_broken_off(step: Step, occurrence: Occurrence)
    requires
        step is Write || step is Flush,
        occurrence != Occurrence::Succeeded,
        occurrence != Occurrence::Failed,
    ensures
        following(step, occurrence) == step,
{
}

/// Shutdown writes a last snapshot, flushes it and completes, as long as nothing fails.
pub proof fn shutdown_reaches_the_file(occurrences: Seq<Occurrence>, i: int)
    requires
        0 <= i,
        i + 3 <= occurrences.len(),
        reached(occurrences, i) == Step::Wait,
        occurrences[i] == Occurrence::Shutdown,
        occurrences[i + 1] == Occurrence::Succeeded,
        occurrences[i + 2] == Occurrence::Succeeded,
    ensures
        moves(occurrences, i, Step::Wait, Step::Write(Phase::Final)),
        moves(occurrences, i + 1, Step::Write(Phase::Final), Step::Flush(Phase::Final)),
        moves(occurrences, i + 2, Step::Flush(Phase::Final), Step::Done(Ending::Complete)),
{
    assert(reached(occurrences, i + 1) == following(reached(occurrences, i), occurrences[i]));
    assert(reached(occurrences, i + 2) == following(
        reached(occurrences, i + 1),
        occurrences[i + 1],
    ));
    assert(reached(occurrences, i + 3) == following(
        reached(occurrences, i + 2),
        occurrences[i + 2],
    ));
}

/// An ending is logged exactly if something failed, and the message tells what.
pub proof fn failures_are_logged(ending: Ending)
    ensures
        ending_text(ending) is None <==> ending == Ending::Complete,
        ending_text(Ending::PeriodicWriteFailed) == Some("csv exporter periodic write failed"@),
        ending_text(Ending::FinalWriteFailed) == Some("csv exporter final write failed"@),
        ending_text(Ending::FlushFailed) == Some("csv exporter flush failed"@),
{
}

} // verus!
