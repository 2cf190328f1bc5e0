//! The order in which the streams of one input are written, all or none, and
//! what is cleaned up when a step fails.

use vstd::prelude::*;

verus! {

/// A step in writing a number of outputs, each given by its position.
#[derive(Clone, Copy, Debug, PartialEq, Eq, Structural)]
pub enum RawStep {
    /// See that the output is not the input and does not exist.
    CheckOutput(usize),
    /// See that the temporary path is free.
    CheckTemp(usize),
    /// Create the temporary file.
    CreateTemp(usize),
    /// Write all streams into their temporary files.
    Write,
    /// Move the output to its place.
    Commit(usize),
    /// Remove the temporary file, and those after it up to the second position.
    RemoveTemp(usize, usize),
    /// All outputs are in place.
    Done,
    /// The work has failed.
    Failed,
}

/// The temporary files from `from` up to `end` are removed, if there are any.
pub open spec fn cleanup(from: usize, end: usize) -> RawStep {
    if from < end {
        RawStep::RemoveTemp(from, end)
    } else {
        RawStep::Failed
    }
}

/// The positions of a step are those of outputs.
pub open spec fn in_range(count: usize, step: RawStep) -> bool {
    match step {
        RawStep::CheckOutput(i) => i < count,
        RawStep::CheckTemp(i) => i < count,
        RawStep::CreateTemp(i) => i < count,
        RawStep::Commit(i) => i < count,
        RawStep::RemoveTemp(i, end) => i < end <= count,
        _ => true,
    }
}

/// The step that follows a step that went well or did not.
pub open spec fn follow_raw(count: usize, step: RawStep, ok: bool) -> RawStep {
    match step {
        RawStep::CheckOutput(i) => if !ok {
            RawStep::Failed
        } else if i + 1 < count {
            RawStep::CheckOutput((i + 1) as usize)
        } else {
            RawStep::CheckTemp(0)
        },
        RawStep::CheckTemp(i) => if ok {
            RawStep::CreateTemp(i)
        } else {
            cleanup(0, i)
        },
        RawStep::CreateTemp(i) => if !ok {
            cleanup(0, i)
        } else if i + 1 < count {
            RawStep::CheckTemp((i + 1) as usize)
        } else {
            RawStep::Write
        },
        RawStep::Write => if ok {
            RawStep::Commit(0)
        } else {
            cleanup(0, count)
        },
        RawStep::Commit(i) => if !ok {
            cleanup(i, count)
        } else if i + 1 < count {
            RawStep::Commit((i + 1) as usize)
        } else {
            RawStep::Done
        },
        RawStep::RemoveTemp(i, end) => cleanup((i + 1) as usize, end),
        RawStep::Done => RawStep::Done,
        RawStep::Failed => RawStep::Failed,
    }
}

/// The temporary files from `from` up to `end` are removed, if there are any.
fn clean(from: usize, end: usize) -> (step: RawStep)
    ensures
        step == cleanup(from, end),
{
    if from < end {
        RawStep::RemoveTemp(from, end)
    } else {
        RawStep::Failed
    }
}

/// The step that follows a step that went well or did not.
pub fn next_raw_step(count: usize, step: RawStep, ok: bool) -> (next: RawStep)
    requires
        count > 0,
        in_range(count, step),
    ensures
        next == follow_raw(count, step, ok),
        in_range(count, next),
{
    match step {
        RawStep::CheckOutput(i) => {
            if !ok {
                RawStep::Failed
            } else if i + 1 < count {
                RawStep::CheckOutput(i + 1)
            } else {
                RawStep::CheckTemp(0)
            }
        },
        RawStep::CheckTemp(i) => {
            if ok {
                RawStep::CreateTemp(i)
            } else {
                clean(0, i)
            }
        },
        RawStep::CreateTemp(i) => {
            if !ok {
                clean(0, i)
            } else if i + 1 < count {
                RawStep::CheckTemp(i + 1)
            } else {
                RawStep::Write
            }
        },
        RawStep::Write => {
            if ok {
                RawStep::Commit(0)
            } else {
                clean(0, count)
            }
        },
        RawStep::Commit(i) => {
            if !ok {
                clean(i, count)
            } else if i + 1 < count {
                RawStep::Commit(i + 1)
            } else {
                RawStep::Done
            }
        },
        RawStep::RemoveTemp(i, end) => clean(i + 1, end),
        RawStep::Done => RawStep::Done,
        RawStep::Failed => RawStep::Failed,
    }
}

/// The files that the work has made, by position.
pub struct RawFiles {
    /// Temporary files that were created and neither moved nor removed.
    pub temps: Set<int>,
    /// Outputs in their place.
    pub outputs: Set<int>,
}

/// What a step does to the files.
pub open spec fn effect(files: RawFiles, step: RawStep, ok: bool) -> RawFiles {
    match step {
        RawStep::CreateTemp(i) => if ok {
            RawFiles { temps: files.temps.insert(i as int), ..files }
        } else {
            files
        },
        RawStep::Commit(i) => if ok {
            RawFiles {
                temps: files.temps.remove(i as int),
                outputs: files.outputs.insert(i as int),
            }
        } else {
            files
        },
        RawStep::RemoveTemp(i, _) => RawFiles { temps: files.temps.remove(i as int), ..files },
        _ => files,
    }
}

/// Where the work stands once some steps are done, and the files it has made,
/// given how each of the steps went.
pub open spec fn raw_reached(count: usize, answers: Seq<bool>) -> (RawStep, RawFiles)
    decreases answers.len(),
{
    if answers.len() == 0 {
        (RawStep::CheckOutput(0), RawFiles { temps: Set::empty(), outputs: Set::empty() })
    } else {
        let (step, files) = raw_reached(count, answers.drop_last());
        (follow_raw(count, step, answers.last()), effect(files, step, answers.last()))
    }
}

/// The positions from `from` up to `end`.
pub open spec fn span(from: int, end: int) -> Set<int> {
    Set::new(|i: int| from <= i < end)
}

/// The files that there are at each step.
spec fn accounted(count: usize, step: RawStep, files: RawFiles) -> bool {
    match step {
        RawStep::CheckOutput(_) => files.temps == span(0, 0) && files.outputs == span(0, 0),
        RawStep::CheckTemp(i) => files.temps == span(0, i as int) && files.outputs == span(0, 0),
        RawStep::CreateTemp(i) => files.temps == span(0, i as int) && files.outputs == span(0, 0),
        RawStep::Write => files.temps == span(0, count as int) && files.outputs == span(0, 0),
        RawStep::Commit(i) => files.temps == span(i as int, count as int) && files.outputs == span(
            0,
            i as int,
        ),
        RawStep::RemoveTemp(i, end) => files.temps == span(i as int, end as int),
        RawStep::Done => files.temps == span(0, 0) && files.outputs == span(0, count as int),
        RawStep::Failed => files.temps == span(0, 0),
    }
}

/// The files are accounted for at every step.
proof fn lemma_accounted(count: usize, answers: Seq<bool>)
    requires
        count > 0,
    ensures
        in_range(count, raw_reached(count, answers).0),
        accounted(count, raw_reached(count, answers).0, raw_reached(count, answers).1),
    decreases answers.len(),
{
    let (next, after) = raw_reached(count, answers);
    if answers.len() == 0 {
        assert(after.temps =~= span(0, 0));
        assert(after.outputs =~= span(0, 0));
    } else {
        lemma_accounted(count, answers.drop_last());
        let (step, files) = raw_reached(count, answers.drop_last());
        match step {
            RawStep::CheckOutput(i) => {},
            RawStep::CheckTemp(i) => {
                if i == 0 {
                    assert(after.temps =~= span(0, 0));
                }
            },
            RawStep::CreateTemp(i) => {
                if answers.last() {
                    assert(after.temps =~= span(0, i + 1));
                }
            },
            RawStep::Write => {},
            RawStep::Commit(i) => {
                if answers.last() {
                    assert(after.temps =~= span(i + 1, count as int));
                    assert(after.outputs =~= span(0, i + 1));
                    if i + 1 == count {
                        assert(after.temps =~= span(0, 0));
                    }
                }
            },
            RawStep::RemoveTemp(i, end) => {
                assert(after.temps =~= span(i + 1, end as int));
                if i + 1 == end {
                    assert(after.temps =~= span(0, 0));
                }
            },
            RawStep::Done => {},
            RawStep::Failed => {},
        }
    }
}

/// Where the work is done, every output is in place and no temporary file is
/// left.
pub proof fn law_all_outputs_are_in_place(count: usize, answers: Seq<bool>)
    requires
        count > 0,
        raw_reached(count, answers).0 == RawStep::Done,
    ensures
        raw_reached(count, answers).1.outputs == span(0, count as int),
        raw_reached(count, answers).1.temps.is_empty(),
{
    lemma_accounted(count, answers);
}

/// Where the work has failed, every temporary file it created has been moved or
/// removed.
pub proof fn law_failure_leaves_no_temps(count: usize, answers: Seq<bool>)
    requires
        count > 0,
        raw_reached(count, answers).0 == RawStep::Failed,
    ensures
        raw_reached(count, answers).1.temps.is_empty(),
{
    lemma_accounted(count, answers);
}

/// Only temporary files that the work itself created, and that are still there,
/// are moved or removed.
pub proof fn law_only_own_temps_are_touched(count: usize, answers: Seq<bool>)
    requires
        count > 0,
    ensures
        ({
            let (step, files) = raw_reached(count, answers);
            &&& step matches RawStep::Commit(i) ==> files.temps.contains(i as int)
            &&& step matches RawStep::RemoveTemp(i, _) ==> files.temps.contains(i as int)
        }),
{
    lemma_accounted(count, answers);
}

/// Nothing is written before all outputs have been seen to be free.
pub proof fn law_outputs_are_checked_first(count: usize, answers: Seq<bool>)
    requires
        count > 0,
        raw_reached(count, answers).1.temps.len() > 0 || raw_reached(count, answers).1.outputs.len()
            > 0,
    ensures
        answers.len() > count,
        forall|i: int| 0 <= i < count ==> #[trigger] answers[i],
{
    lemma_checked(count, answers);
    lemma_accounted(count, answers);
}

/// While outputs are being seen to, nothing has been written.
proof fn lemma_checked(count: usize, answers: Seq<bool>)
    requires
        count > 0,
    ensures
        ({
            let (step, files) = raw_reached(count, answers);
            let untouched = files.temps =~= Set::empty() && files.outputs =~= Set::empty();
            match step {
                RawStep::CheckOutput(i) => untouched && answers.len() == i && forall|k: int|
                    0 <= k < i ==> #[trigger] answers[k],
                _ => (untouched && step == RawStep::Failed) || (answers.len() >= count && forall|
                    k: int,
                |
                    0 <= k < count ==> #[trigger] answers[k]) && (answers.len() > count || untouched),
            }
        }),
    decreases answers.len(),
{
    if answers.len() > 0 {
        lemma_checked(count, answers.drop_last());
        let (step, files) = raw_reached(count, answers.drop_last());
        assert forall|k: int| 0 <= k < answers.len() - 1 implies answers.drop_last()[k]
            == #[trigger] answers[k] by {}
    }
}

/// How many steps can still follow.
spec fn raw_rank(count: usize, step: RawStep) -> int {
    match step {
        RawStep::CheckOutput(i) => 5 * count + 3 - i,
        RawStep::CheckTemp(i) => 4 * count + 2 - 2 * i,
        RawStep::CreateTemp(i) => 4 * count + 1 - 2 * i,
        RawStep::Write => 2 * count + 2,
        RawStep::Commit(i) => 2 * count + 1 - i,
        RawStep::RemoveTemp(i, end) => end - i,
        RawStep::Done => 0,
        RawStep::Failed => 0,
    }
}

/// The work comes to an end: after five steps per output and three more at
/// most.
pub proof fn law_raw_work_ends(count: usize, answers: Seq<bool>)
    requires
        count > 0,
        answers.len() >= 5 * count + 3,
    ensures
        raw_reached(count, answers).0 == RawStep::Done || raw_reached(count, answers).0
            == RawStep::Failed,
{
    lemma_raw_rank(count, answers);
}

/// Every step leaves fewer to follow.
proof fn lemma_raw_rank(count: usize, answers: Seq<bool>)
    requires
        count > 0,
    ensures
        in_range(count, raw_reached(count, answers).0),
        raw_rank(count, raw_reached(count, answers).0) == 0 || raw_rank(
            count,
            raw_reached(count, answers).0,
        ) + answers.len() <= 5 * count + 3,
    decreases answers.len(),
{
    if answers.len() > 0 {
        lemma_raw_rank(count, answers.drop_last());
    }
}

/// Where nothing fails, all outputs are seen to be free, each temporary file is
/// seen to be free and made, all are written, each output is moved into place,
/// and the work is done: in this order.
pub proof fn law_raw_work_that_goes_well(count: usize, answers: Seq<bool>)
    requires
        count > 0,
        forall|i: int| 0 <= i < answers.len() ==> #[trigger] answers[i],
    ensures
        ({
            let n = answers.len() as int;
            let step = raw_reached(count, answers).0;
            &&& n < count ==> step == RawStep::CheckOutput(n as usize)
            &&& count <= n < 3 * count && (n - count) % 2 == 0 ==> step == RawStep::CheckTemp(
                ((n - count) / 2) as usize,
            )
            &&& count <= n < 3 * count && (n - count) % 2 == 1 ==> step == RawStep::CreateTemp(
                ((n - count) / 2) as usize,
            )
            &&& n == 3 * count ==> step == RawStep::Write
            &&& 3 * count < n <= 4 * count ==> step == RawStep::Commit((n - 3 * count - 1) as usize)
            &&& n > 4 * count ==> step == RawStep::Done
        }),
    decreases answers.len(),
{
    if answers.len() > 0 {
        let head = answers.drop_last();
        assert forall|i: int| 0 <= i < head.len() implies #[trigger] head[i] by {
            assert(head[i] == answers[i]);
        }
        law_raw_work_that_goes_well(count, head);
        assert(answers.last() == answers[answers.len() - 1]);
    }
}

/// Cleaning up, or failed.
spec fn is_lost(step: RawStep) -> bool {
    step is RemoveTemp || step is Failed
}

/// Work in which a step failed is never done: once something goes wrong before
/// the end, all that follows is cleaning up and failure.
pub proof fn law_failed_raw_step_ends_the_work(count: usize, good: Seq<bool>, more: Seq<bool>)
    requires
        count > 0,
        forall|i: int| 0 <= i < good.len() ==> #[trigger] good[i],
        good.len() <= 4 * count,
    ensures
        ({
            let step = raw_reached(count, good.push(false) + more).0;
            step is RemoveTemp || step is Failed
        }),
{
    law_raw_work_that_goes_well(count, good);
    assert(good.push(false).drop_last() =~= good);
    assert(good.push(false).last() == false);
    lemma_lost_stays_lost(count, good.push(false), more);
}

/// What is lost stays lost.
proof fn lemma_lost_stays_lost(count: usize, answers: Seq<bool>, more: Seq<bool>)
    requires
        is_lost(raw_reached(count, answers).0),
    ensures
        is_lost(raw_reached(count, answers + more).0),
    decreases more.len(),
{
    if more.len() == 0 {
        assert(answers + more =~= answers);
    } else {
        lemma_lost_stays_lost(count, answers, more.drop_last());
        assert((answers + more).drop_last() =~= answers + more.drop_last());
    }
}

} // verus!
