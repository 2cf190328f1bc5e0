//! The order in which one input is worked on, and what is done when a step
//! fails.
//!
//! Each step is carried out elsewhere; here it is decided, from how a step
//! went, which one comes next.

use vstd::prelude::*;

use crate::preflight::ExtractPlan;
use crate::preflight::PlanView;

verus! {

/// What one input asks for beyond its output.
#[derive(Clone, Copy, Debug, PartialEq, Eq, Structural)]
pub struct Job {
    /// The input is deleted once its output is in place.
    pub delete_source: bool,
    /// The streams are taken out where the output could not be made.
    pub fallback_raw: bool,
}

/// A step in the work on one input.
#[derive(Clone, Copy, Debug, PartialEq, Eq, Structural)]
pub enum Step {
    /// See that the output is not the input and does not exist.
    CheckOutput,
    /// See that the temporary path is free.
    CheckTemp,
    /// Create the directory of the output.
    CreateDir,
    /// Write the output under its temporary path.
    Produce,
    /// Move the output to its place.
    Commit,
    /// Remove the temporary file.
    RemoveTemp,
    /// Create the directory for the streams.
    CreateRawDir,
    /// Take the streams out.
    Demux,
    /// Delete the input.
    DeleteSource,
    /// The work is done.
    Done,
    /// The work has failed.
    Failed,
}

/// What follows once the outputs are in place.
pub open spec fn after_outputs(job: Job) -> Step {
    if job.delete_source {
        Step::DeleteSource
    } else {
        Step::Done
    }
}

/// The step that follows a step that went well or did not.
pub open spec fn follow(job: Job, step: Step, ok: bool) -> Step {
    match step {
        Step::CheckOutput => if ok {
            Step::CheckTemp
        } else {
            Step::Failed
        },
        Step::CheckTemp => if ok {
            Step::CreateDir
        } else {
            Step::Failed
        },
        Step::CreateDir => if ok {
            Step::Produce
        } else {
            Step::Failed
        },
        Step::Produce => if ok {
            Step::Commit
        } else {
            Step::RemoveTemp
        },
        Step::Commit => if ok {
            after_outputs(job)
        } else {
            Step::RemoveTemp
        },
        Step::RemoveTemp => if job.fallback_raw {
            Step::CreateRawDir
        } else {
            Step::Failed
        },
        Step::CreateRawDir => if ok {
            Step::Demux
        } else {
            Step::Failed
        },
        Step::Demux => if ok {
            after_outputs(job)
        } else {
            Step::Failed
        },
        Step::DeleteSource => if ok {
            Step::Done
        } else {
            Step::Failed
        },
        Step::Done => Step::Done,
        Step::Failed => Step::Failed,
    }
}

/// The step that follows a step that went well or did not.
pub fn next_step(job: Job, step: Step, ok: bool) -> (next: Step)
    ensures
        next == follow(job, step, ok),
{
    match step {
        Step::CheckOutput => {
            if ok {
                Step::CheckTemp
            } else {
                Step::Failed
            }
        },
        Step::CheckTemp => {
            if ok {
                Step::CreateDir
            } else {
                Step::Failed
            }
        },
        Step::CreateDir => {
            if ok {
                Step::Produce
            } else {
                Step::Failed
            }
        },
        Step::Produce => {
            if ok {
                Step::Commit
            } else {
                Step::RemoveTemp
            }
        },
        Step::Commit => {
            if !ok {
                Step::RemoveTemp
            } else if job.delete_source {
                Step::DeleteSource
            } else {
                Step::Done
            }
        },
        Step::RemoveTemp => {
            if job.fallback_raw {
                Step::CreateRawDir
            } else {
                Step::Failed
            }
        },
        Step::CreateRawDir => {
            if ok {
                Step::Demux
            } else {
                Step::Failed
            }
        },
        Step::Demux => {
            if !ok {
                Step::Failed
            } else if job.delete_source {
                Step::DeleteSource
            } else {
                Step::Done
            }
        },
        Step::DeleteSource => {
            if ok {
                Step::Done
            } else {
                Step::Failed
            }
        },
        Step::Done => Step::Done,
        Step::Failed => Step::Failed,
    }
}

/// The first step in the work on an input that is packed.
pub fn pack_job(delete_source: bool) -> (start: (Job, Step))
    ensures
        start == (Job { delete_source, fallback_raw: false }, Step::CheckOutput),
{
    (Job { delete_source, fallback_raw: false }, Step::CheckOutput)
}

/// What an extraction asks for, and its first step.
pub open spec fn extract_start(plan: PlanView, delete_source: bool) -> (Job, Step) {
    match plan {
        PlanView::Container(_) => (Job { delete_source, fallback_raw: false }, Step::CheckOutput),
        PlanView::Remux(_, dir) => (
            Job { delete_source, fallback_raw: dir is Some },
            Step::CheckOutput,
        ),
        PlanView::Raw(_) => (Job { delete_source, fallback_raw: false }, Step::CreateRawDir),
    }
}

/// What an extraction asks for, and its first step.
pub fn extract_job(plan: &ExtractPlan, delete_source: bool) -> (start: (Job, Step))
    ensures
        start == extract_start(plan@, delete_source),
{
    match plan {
        ExtractPlan::Container(_) => (
            Job { delete_source, fallback_raw: false },
            Step::CheckOutput,
        ),
        ExtractPlan::Remux(_, dir) => (
            Job { delete_source, fallback_raw: dir.is_some() },
            Step::CheckOutput,
        ),
        ExtractPlan::Raw(_) => (Job { delete_source, fallback_raw: false }, Step::CreateRawDir),
    }
}

/// The first step of some job.
pub open spec fn is_start(step: Step) -> bool {
    step == Step::CheckOutput || step == Step::CreateRawDir
}

/// Where the work on an input stands once some steps are done, given how each
/// of them went.
pub open spec fn reached(job: Job, start: Step, answers: Seq<bool>) -> Step
    decreases answers.len(),
{
    if answers.len() == 0 {
        start
    } else {
        follow(job, reached(job, start, answers.drop_last()), answers.last())
    }
}

/// Some earlier step of this kind went well.
pub open spec fn succeeded(job: Job, start: Step, answers: Seq<bool>, step: Step) -> bool {
    exists|i: int|
        0 <= i < answers.len() && answers[i] && #[trigger] reached(job, start, answers.take(i))
            == step
}

/// What holds wherever the work on an input stands.
spec fn sound(job: Job, start: Step, answers: Seq<bool>) -> bool {
    let step = reached(job, start, answers);
    let committed = succeeded(job, start, answers, Step::Commit);
    let demuxed = succeeded(job, start, answers, Step::Demux);
    let deleted = succeeded(job, start, answers, Step::DeleteSource);
    &&& deleted ==> step == Step::Done
    &&& step == Step::DeleteSource ==> job.delete_source && (committed || demuxed)
    &&& step == Step::Done ==> (committed || demuxed) && (deleted == job.delete_source)
    &&& (committed || demuxed) ==> step == Step::DeleteSource || step == Step::Done || (step
        == Step::Failed && job.delete_source)
}

/// One more answer adds what it says to what succeeded before.
proof fn lemma_succeeded_step(job: Job, start: Step, answers: Seq<bool>, step: Step)
    requires
        answers.len() > 0,
    ensures
        succeeded(job, start, answers, step) == (succeeded(job, start, answers.drop_last(), step)
            || (answers.last() && reached(job, start, answers.drop_last()) == step)),
{
    let head = answers.drop_last();
    let last = answers.len() - 1;
    assert(answers.take(last) =~= head);
    if succeeded(job, start, answers, step) {
        let i = choose|i: int|
            0 <= i < answers.len() && answers[i] && #[trigger] reached(job, start, answers.take(i))
                == step;
        if i < last {
            assert(head.take(i) =~= answers.take(i));
            assert(head[i] && reached(job, start, head.take(i)) == step);
        }
    }
    if succeeded(job, start, head, step) {
        let i = choose|i: int|
            0 <= i < head.len() && head[i] && #[trigger] reached(job, start, head.take(i)) == step;
        assert(head.take(i) =~= answers.take(i));
        assert(answers[i] && reached(job, start, answers.take(i)) == step);
    }
    if answers.last() && reached(job, start, head) == step {
        assert(answers[last] && reached(job, start, answers.take(last)) == step);
    }
}

/// The work on an input is sound at every point.
proof fn lemma_sound(job: Job, start: Step, answers: Seq<bool>)
    requires
        is_start(start),
    ensures
        sound(job, start, answers),
    decreases answers.len(),
{
    if answers.len() > 0 {
        lemma_sound(job, start, answers.drop_last());
        lemma_succeeded_step(job, start, answers, Step::Commit);
        lemma_succeeded_step(job, start, answers, Step::Demux);
        lemma_succeeded_step(job, start, answers, Step::DeleteSource);
    }
}

/// An input is deleted only where that was asked for, and only once its outputs
/// are in place.
pub proof fn law_source_is_deleted_last(job: Job, start: Step, answers: Seq<bool>)
    requires
        is_start(start),
        reached(job, start, answers) == Step::DeleteSource,
    ensures
        job.delete_source,
        succeeded(job, start, answers, Step::Commit) || succeeded(job, start, answers, Step::Demux),
{
    lemma_sound(job, start, answers);
}

/// Where the work fails, the input has not been deleted.
pub proof fn law_failed_input_is_kept(job: Job, start: Step, answers: Seq<bool>)
    requires
        is_start(start),
        reached(job, start, answers) == Step::Failed,
    ensures
        !succeeded(job, start, answers, Step::DeleteSource),
{
    lemma_sound(job, start, answers);
}

/// Where the work is done, the outputs are in place, and the input has been
/// deleted if and only if that was asked for.
pub proof fn law_done_is_done(job: Job, start: Step, answers: Seq<bool>)
    requires
        is_start(start),
        reached(job, start, answers) == Step::Done,
    ensures
        succeeded(job, start, answers, Step::Commit) || succeeded(job, start, answers, Step::Demux),
        succeeded(job, start, answers, Step::DeleteSource) == job.delete_source,
{
    lemma_sound(job, start, answers);
}

/// A temporary file is removed exactly where writing or moving it failed: right
/// after that, and at no other point.
pub proof fn law_temp_is_removed_after_failure(job: Job, start: Step, answers: Seq<bool>)
    requires
        is_start(start),
        answers.len() > 0,
    ensures
        reached(job, start, answers) == Step::RemoveTemp <==> !answers.last() && (reached(
            job,
            start,
            answers.drop_last(),
        ) == Step::Produce || reached(job, start, answers.drop_last()) == Step::Commit),
{
}

/// The streams are taken out as a fallback only where that was asked for, and
/// only after the output could not be made and its temporary file was removed.
pub proof fn law_fallback_follows_failure(job: Job, start: Step, answers: Seq<bool>)
    requires
        is_start(start),
        answers.len() > 0,
        reached(job, start, answers) == Step::CreateRawDir,
    ensures
        job.fallback_raw,
        reached(job, start, answers.drop_last()) == Step::RemoveTemp,
{
}

/// How many steps can still follow.
spec fn rank(step: Step) -> int {
    match step {
        Step::CheckOutput => 9,
        Step::CheckTemp => 8,
        Step::CreateDir => 7,
        Step::Produce => 6,
        Step::Commit => 5,
        Step::RemoveTemp => 4,
        Step::CreateRawDir => 3,
        Step::Demux => 2,
        Step::DeleteSource => 1,
        Step::Done => 0,
        Step::Failed => 0,
    }
}

/// The work on an input comes to an end: after nine steps at most.
pub proof fn law_work_ends(job: Job, start: Step, answers: Seq<bool>)
    requires
        is_start(start),
        answers.len() >= 9,
    ensures
        reached(job, start, answers) == Step::Done || reached(job, start, answers) == Step::Failed,
{
    lemma_rank(job, start, answers);
}

/// Every step leaves fewer to follow.
proof fn lemma_rank(job: Job, start: Step, answers: Seq<bool>)
    requires
        is_start(start),
    ensures
        rank(reached(job, start, answers)) == 0 || rank(reached(job, start, answers))
            + answers.len() <= 9,
    decreases answers.len(),
{
    if answers.len() > 0 {
        lemma_rank(job, start, answers.drop_last());
    }
}

/// Some answers, all of them good.
pub open spec fn all_good(answers: Seq<bool>) -> bool {
    forall|i: int| 0 <= i < answers.len() ==> #[trigger] answers[i]
}

/// Where nothing fails, the output and its temporary path are seen to be free,
/// the directory is made, the output is written and moved into place, the input
/// is deleted if that was asked for, and the work is done: in this order.
pub proof fn law_work_that_goes_well(job: Job, answers: Seq<bool>)
    requires
        all_good(answers),
    ensures
        reached(job, Step::CheckOutput, answers) == (if answers.len() == 0 {
            Step::CheckOutput
        } else if answers.len() == 1 {
            Step::CheckTemp
        } else if answers.len() == 2 {
            Step::CreateDir
        } else if answers.len() == 3 {
            Step::Produce
        } else if answers.len() == 4 {
            Step::Commit
        } else if answers.len() == 5 && job.delete_source {
            Step::DeleteSource
        } else {
            Step::Done
        }),
    decreases answers.len(),
{
    if answers.len() > 0 {
        let head = answers.drop_last();
        assert forall|i: int| 0 <= i < head.len() implies #[trigger] head[i] by {
            assert(head[i] == answers[i]);
        }
        law_work_that_goes_well(job, head);
        assert(answers.last() == answers[answers.len() - 1]);
    }
}

/// Where streams are taken out and nothing fails, their directory is made, they
/// are taken out, the input is deleted if that was asked for, and the work is
/// done.
pub proof fn law_raw_work_that_goes_well(job: Job, answers: Seq<bool>)
    requires
        all_good(answers),
    ensures
        reached(job, Step::CreateRawDir, answers) == (if answers.len() == 0 {
            Step::CreateRawDir
        } else if answers.len() == 1 {
            Step::Demux
        } else if answers.len() == 2 && job.delete_source {
            Step::DeleteSource
        } else {
            Step::Done
        }),
    decreases answers.len(),
{
    if answers.len() > 0 {
        let head = answers.drop_last();
        assert forall|i: int| 0 <= i < head.len() implies #[trigger] head[i] by {
            assert(head[i] == answers[i]);
        }
        law_raw_work_that_goes_well(job, head);
        assert(answers.last() == answers[answers.len() - 1]);
    }
}

/// Work that has come to its end stays there, and work goes on from where it
/// stands.
pub proof fn law_work_goes_on(job: Job, start: Step, answers: Seq<bool>, more: Seq<bool>)
    ensures
        reached(job, start, answers + more) == reached(job, reached(job, start, answers), more),
        start == Step::Done || start == Step::Failed ==> reached(job, start, more) == start,
    decreases more.len(),
{
    if more.len() == 0 {
        assert(answers + more =~= answers);
    } else {
        law_work_goes_on(job, start, answers, more.drop_last());
        assert((answers + more).drop_last() =~= answers + more.drop_last());
        assert((answers + more).last() == more.last());
    }
}

/// A step that fails ends the work, with two exceptions. Where the output could
/// not be written or moved, its temporary file is removed first; and where the
/// streams are the fallback, that is as if the work began with them.
pub proof fn law_failed_step_ends_the_work(
    job: Job,
    start: Step,
    good: Seq<bool>,
    answer: bool,
    more: Seq<bool>,
)
    requires
        is_start(start),
        all_good(good),
        reached(job, start, good) != Step::Done,
    ensures
        ({
            let writing = start == Step::CheckOutput && (good.len() == 3 || good.len() == 4);
            let failed = good.push(false);
            &&& !writing ==> reached(job, start, failed + more) == Step::Failed
            &&& writing ==> reached(job, start, failed) == Step::RemoveTemp
            &&& writing && !job.fallback_raw ==> reached(job, start, failed.push(answer) + more)
                == Step::Failed
            &&& writing && job.fallback_raw ==> reached(job, start, failed.push(answer) + more)
                == reached(job, Step::CreateRawDir, more)
        }),
{
    let failed = good.push(false);
    if start == Step::CheckOutput {
        law_work_that_goes_well(job, good);
    } else {
        law_raw_work_that_goes_well(job, good);
    }
    assert(failed.drop_last() =~= good);
    assert(failed.push(answer).drop_last() =~= failed);
    law_work_goes_on(job, start, failed, more);
    law_work_goes_on(job, Step::Failed, Seq::empty(), more);
    law_work_goes_on(job, start, failed.push(answer), more);
}

/// An extraction begins with its output, or with the streams where those are
/// asked for; the streams are the fallback exactly where there is a directory
/// for them.
pub proof fn law_extraction_begins_with_its_plan(plan: PlanView, delete_source: bool)
    ensures
        ({
            let (job, step) = extract_start(plan, delete_source);
            &&& job.delete_source == delete_source
            &&& job.fallback_raw <==> (plan matches PlanView::Remux(_, dir) && dir is Some)
            &&& step == (if plan is Raw {
                Step::CreateRawDir
            } else {
                Step::CheckOutput
            })
        }),
{
}

} // verus!
