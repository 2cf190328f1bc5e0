use tsbox::media::judge_remux;
use tsbox::media::remux_args;
use tsbox::media::RemuxArg;
use tsbox::media::RemuxError;
use tsbox::media::RemuxRun;
use tsbox::paths::OutputPath;
use tsbox::preflight::ExtractPlan;
use tsbox::progress::format_outputs;
use tsbox::progress::worker_count;
use tsbox::progress::Outcome;
use tsbox::progress::Progress;
use tsbox::progress::WorkQueue;
use tsbox::raw_workflow::next_raw_step;
use tsbox::raw_workflow::RawStep;
use tsbox::workflow::extract_job;
use tsbox::workflow::next_step;
use tsbox::workflow::pack_job;
use tsbox::workflow::Job;
use tsbox::workflow::Step;

/// The steps taken when those in `failing` fail.
fn run(job: Job, start: Step, failing: &[Step]) -> Vec<Step> {
    let mut steps = vec![start];
    let mut step = start;
    while step != Step::Done && step != Step::Failed {
        step = next_step(job, step, !failing.contains(&step));
        steps.push(step);
    }
    steps
}

#[test]
fn a_pack_that_goes_well() {
    let (job, start) = pack_job(true);
    assert_eq!(
        run(job, start, &[]),
        vec![
            Step::CheckOutput,
            Step::CheckTemp,
            Step::CreateDir,
            Step::Produce,
            Step::Commit,
            Step::DeleteSource,
            Step::Done,
        ]
    );
    let (job, start) = pack_job(false);
    assert!(!run(job, start, &[]).contains(&Step::DeleteSource));
}

#[test]
fn failures_keep_the_source() {
    let (job, start) = pack_job(true);
    for failing in [Step::CheckOutput, Step::CheckTemp, Step::CreateDir] {
        let steps = run(job, start, &[failing]);
        assert_eq!(steps.last(), Some(&Step::Failed));
        assert!(!steps.contains(&Step::RemoveTemp));
        assert!(!steps.contains(&Step::DeleteSource));
    }
    for failing in [Step::Produce, Step::Commit] {
        let steps = run(job, start, &[failing]);
        assert_eq!(steps[steps.len() - 2..], [Step::RemoveTemp, Step::Failed]);
        assert!(!steps.contains(&Step::DeleteSource));
    }
    let steps = run(job, start, &[Step::DeleteSource]);
    assert_eq!(steps.last(), Some(&Step::Failed));
}

#[test]
fn fallback_after_failed_remux() {
    let path = OutputPath::Exact(b"o.mp4".to_vec());
    let plan = ExtractPlan::Remux(path, Some(b"o".to_vec()));
    let (job, start) = extract_job(&plan, true);
    assert_eq!(
        run(job, start, &[Step::Produce]),
        vec![
            Step::CheckOutput,
            Step::CheckTemp,
            Step::CreateDir,
            Step::Produce,
            Step::RemoveTemp,
            Step::CreateRawDir,
            Step::Demux,
            Step::DeleteSource,
            Step::Done,
        ]
    );
    let steps = run(job, start, &[Step::Produce, Step::Demux]);
    assert_eq!(steps.last(), Some(&Step::Failed));
    assert!(!steps.contains(&Step::DeleteSource));
    assert_eq!(run(job, start, &[Step::CheckOutput]), vec![Step::CheckOutput, Step::Failed]);
}

#[test]
fn first_steps_of_extractions() {
    let path = || OutputPath::Exact(b"o".to_vec());
    let plain = Job { delete_source: false, fallback_raw: false };
    assert_eq!(
        extract_job(&ExtractPlan::Container(path()), false),
        (plain, Step::CheckOutput)
    );
    assert_eq!(
        extract_job(&ExtractPlan::Remux(path(), None), false),
        (plain, Step::CheckOutput)
    );
    assert_eq!(
        extract_job(&ExtractPlan::Raw(b"o".to_vec()), false),
        (plain, Step::CreateRawDir)
    );
}

fn run_raw(count: usize, failing: RawStep) -> Vec<RawStep> {
    let mut step = RawStep::CheckOutput(0);
    let mut steps = vec![step];
    while step != RawStep::Done && step != RawStep::Failed {
        step = next_raw_step(count, step, step != failing);
        steps.push(step);
    }
    steps
}

#[test]
fn raw_outputs_all_or_none() {
    assert_eq!(
        run_raw(2, RawStep::Failed),
        vec![
            RawStep::CheckOutput(0),
            RawStep::CheckOutput(1),
            RawStep::CheckTemp(0),
            RawStep::CreateTemp(0),
            RawStep::CheckTemp(1),
            RawStep::CreateTemp(1),
            RawStep::Write,
            RawStep::Commit(0),
            RawStep::Commit(1),
            RawStep::Done,
        ]
    );
    let removed = |failing: RawStep| {
        let steps = run_raw(3, failing);
        assert_eq!(steps.last(), Some(&RawStep::Failed));
        let mut gone = Vec::new();
        for step in steps {
            if let RawStep::RemoveTemp(i, _) = step {
                gone.push(i);
            }
        }
        gone
    };
    assert_eq!(removed(RawStep::CheckOutput(2)), Vec::<usize>::new());
    assert_eq!(removed(RawStep::CheckTemp(0)), Vec::<usize>::new());
    assert_eq!(removed(RawStep::CheckTemp(2)), vec![0, 1]);
    assert_eq!(removed(RawStep::CreateTemp(1)), vec![0]);
    assert_eq!(removed(RawStep::Write), vec![0, 1, 2]);
    assert_eq!(removed(RawStep::Commit(0)), vec![0, 1, 2]);
    assert_eq!(removed(RawStep::Commit(1)), vec![1, 2]);
}

#[test]
fn workers() {
    assert_eq!(worker_count(0, 0), 1);
    assert_eq!(worker_count(0, 5), 1);
    assert_eq!(worker_count(4, 2), 2);
    assert_eq!(worker_count(4, 9), 4);
    assert_eq!(worker_count(4, 0), 1);
}

#[test]
fn queue_hands_out_each_task_once() {
    let mut queue = WorkQueue::new(3);
    assert_eq!(queue.take(), Some(0));
    assert_eq!(queue.take(), Some(1));
    assert_eq!(queue.take(), Some(2));
    assert_eq!(queue.take(), None);
    assert_eq!(queue.take(), None);
}

#[test]
fn progress_lines() {
    let mut progress = Progress::new(12);
    let fine = Outcome::Finished(vec![b"o/a".to_vec(), b"o/b".to_vec()]);
    assert_eq!(
        progress.report(false, "extracted", b"in.ts", &fine),
        Some(b"[1/12] extracted in.ts -> o/a, o/b".to_vec())
    );
    assert_eq!(progress.report(true, "extracted", b"in.ts", &fine), None);
    assert_eq!(progress.verdict(), Ok(()));
    let broken = Outcome::Broken(b"no luck".to_vec());
    assert_eq!(
        progress.report(true, "packed", b"x", &broken),
        Some(b"[3/12] failed to packed x: no luck".to_vec())
    );
    progress.note_broken_worker();
    assert_eq!(progress.done, 3);
    assert_eq!(progress.verdict(), Err(b"2 file(s) failed".to_vec()));
}

#[test]
fn outputs_in_a_line() {
    assert_eq!(format_outputs(&vec![]), b"");
    assert_eq!(format_outputs(&vec![b"a".to_vec()]), b"a");
    assert_eq!(format_outputs(&vec![b"a".to_vec(), b"b".to_vec(), b"".to_vec()]), b"a, b, ");
}

#[test]
fn remux_runs() {
    let fine = RemuxRun::Exited { success: true };
    assert_eq!(judge_remux(fine, Some(1)), Ok(()));
    assert_eq!(judge_remux(fine, Some(0)), Err(RemuxError::EmptyOutput));
    assert_eq!(judge_remux(fine, None), Err(RemuxError::NoOutput));
    let failed = RemuxRun::Exited { success: false };
    assert_eq!(judge_remux(failed, Some(1)), Err(RemuxError::Failed));
    assert_eq!(judge_remux(RemuxRun::NotStarted, Some(1)), Err(RemuxError::NotStarted));
}

#[test]
fn remux_command_line() {
    let words: Vec<&str> = remux_args()
        .iter()
        .map(|arg| match arg {
            RemuxArg::Word(word) => *word,
            RemuxArg::Input => "IN",
            RemuxArg::Output => "OUT",
        })
        .collect();
    assert_eq!(
        words.join(" "),
        "-hide_banner -loglevel error -nostdin -y -i IN -c copy -movflags +faststart OUT"
    );
}
