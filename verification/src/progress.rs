//! Handing work to workers, and telling how it went.

use vstd::prelude::*;
use vstd::utf8::encode_utf8;

use crate::bytes::append;
use crate::bytes::views;
use crate::text::append_decimal;
use crate::text::decimal;

verus! {

/// The number of workers for some tasks: as many as asked for, but at least
/// one, and no more than there are tasks.
pub open spec fn workers(jobs: usize, total: usize) -> int {
    let asked = if jobs < 1 {
        1int
    } else {
        jobs as int
    };
    let useful = if total < 1 {
        1int
    } else {
        total as int
    };
    if asked < useful {
        asked
    } else {
        useful
    }
}

/// The number of workers for some tasks.
pub fn worker_count(jobs: usize, total: usize) -> (count: usize)
    ensures
        count == workers(jobs, total),
        1 <= count,
        total > 0 ==> count <= total,
{
    let asked: usize = if jobs < 1 { 1 } else { jobs };
    let useful: usize = if total < 1 { 1 } else { total };
    if asked < useful {
        asked
    } else {
        useful
    }
}

/// The tasks that no worker has taken yet, by position.
pub struct WorkQueue {
    pub next: usize,
    pub total: usize,
}

impl WorkQueue {
    pub open spec fn wf(&self) -> bool {
        self.next <= self.total
    }

    /// The tasks still to be taken, in order.
    pub open spec fn waiting(&self) -> Seq<usize> {
        Seq::new((self.total - self.next) as nat, |i: int| (self.next + i) as usize)
    }

    /// A queue of `total` tasks.
    pub fn new(total: usize) -> (queue: WorkQueue)
        ensures
            queue.wf(),
            queue.waiting() == Seq::new(total as nat, |i: int| i as usize),
    {
        let queue = WorkQueue { next: 0, total };
        assert(queue.waiting() =~= Seq::new(total as nat, |i: int| i as usize));
        queue
    }

    /// Takes the first task that is waiting, if there is one. No task is taken
    /// twice.
    pub fn take(&mut self) -> (task: Option<usize>)
        requires
            old(self).wf(),
        ensures
            final(self).wf(),
            if old(self).waiting().len() == 0 {
                task is None && *final(self) == *old(self)
            } else {
                &&& task == Some(old(self).waiting()[0])
                &&& final(self).waiting() == old(self).waiting().drop_first()
            },
    {
        if self.next < self.total {
            let task: usize = self.next;
            self.next += 1;
            assert(self.waiting() =~= old(self).waiting().drop_first());
            Some(task)
        } else {
            None
        }
    }
}

/// Several names in a row, with `, ` between them.
pub open spec fn comma_joined(names: Seq<Seq<u8>>) -> Seq<u8>
    decreases names.len(),
{
    if names.len() == 0 {
        Seq::empty()
    } else if names.len() == 1 {
        names[0]
    } else {
        comma_joined(names.drop_last()) + seq![0x2Cu8, 0x20u8] + names.last()
    }
}

/// The names of several outputs as one line, with `, ` between them.
pub fn format_outputs(names: &Vec<Vec<u8>>) -> (line: Vec<u8>)
    ensures
        line@ == comma_joined(views(names@)),
{
    let mut line: Vec<u8> = Vec::new();
    let mut i: usize = 0;
    let ghost all = views(names@);
    assert(all.take(0) =~= Seq::<Seq<u8>>::empty());
    while i < names.len()
        invariant
            i <= names@.len(),
            all == views(names@),
            line@ == comma_joined(all.take(i as int)),
        decreases names@.len() - i,
    {
        if i > 0 {
            line.push(0x2C);
            line.push(0x20);
        }
        append(&mut line, &names[i]);
        proof {
            let next = all.take(i + 1);
            assert(next.drop_last() =~= all.take(i as int));
            assert(next.last() == names@[i as int]@);
            assert(line@ =~= comma_joined(next));
        }
        i += 1;
    }
    assert(all.take(i as int) =~= all);
    line
}

/// How a run of tasks is going.
pub struct Progress {
    pub total: usize,
    pub done: usize,
    pub failures: usize,
}

/// How one task went: the names of its outputs, or what went wrong.
pub enum Outcome {
    Finished(Vec<Vec<u8>>),
    Broken(Vec<u8>),
}

/// The head of a progress line: how many tasks are over, of how many.
pub open spec fn line_head(done: nat, total: nat) -> Seq<u8> {
    seq![0x5Bu8] + decimal(done) + seq![0x2Fu8] + decimal(total) + seq![0x5Du8, 0x20u8]
}

/// The line that tells of one task.
pub open spec fn progress_line(
    done: nat,
    total: nat,
    verb: Seq<u8>,
    input: Seq<u8>,
    outcome: Outcome,
) -> Seq<u8> {
    match outcome {
        Outcome::Finished(outputs) => line_head(done, total) + verb + seq![0x20u8] + input
            + encode_utf8(" -> "@) + comma_joined(views(outputs@)),
        Outcome::Broken(error) => line_head(done, total) + encode_utf8("failed to "@) + verb + seq![
            0x20u8,
        ] + input + encode_utf8(": "@) + error@,
    }
}

/// The message after tasks have failed.
pub open spec fn failure_text(failures: nat) -> Seq<u8> {
    decimal(failures) + encode_utf8(" file(s) failed"@)
}

impl Progress {
    /// Counting another task does not overflow.
    pub open spec fn has_room(&self) -> bool {
        self.done < usize::MAX && self.failures < usize::MAX
    }

    /// A run of `total` tasks, none of which is over.
    pub fn new(total: usize) -> (progress: Progress)
        ensures
            progress == (Progress { total, done: 0, failures: 0 }),
    {
        Progress { total, done: 0, failures: 0 }
    }

    /// Counts a task that is over and gives the line that tells of it. Where
    /// `quiet`, only failures are told of.
    pub fn report(&mut self, quiet: bool, verb: &str, input: &[u8], outcome: &Outcome) -> (line: Option<
        Vec<u8>,
    >)
        requires
            old(self).has_room(),
        ensures
            final(self).total == old(self).total,
            final(self).done == old(self).done + 1,
            final(self).failures == old(self).failures + (if outcome is Broken {
                1int
            } else {
                0
            }),
            match line {
                Some(text) => text@ == progress_line(
                    final(self).done as nat,
                    old(self).total as nat,
                    encode_utf8(verb@),
                    input@,
                    *outcome,
                ),
                None => true,
            },
            line is None <==> quiet && outcome is Finished,
    {
        self.done += 1;
        let mut text: Vec<u8> = Vec::new();
        text.push(0x5B);
        append_decimal(&mut text, self.done as u64);
        text.push(0x2F);
        append_decimal(&mut text, self.total as u64);
        text.push(0x5D);
        text.push(0x20);
        assert(text@ =~= line_head(self.done as nat, self.total as nat));
        match outcome {
            Outcome::Finished(outputs) => {
                if quiet {
                    return None;
                }
                append(&mut text, verb.as_bytes());
                text.push(0x20);
                append(&mut text, input);
                append(&mut text, " -> ".as_bytes());
                let names = format_outputs(outputs);
                append(&mut text, &names);
            },
            Outcome::Broken(error) => {
                self.failures += 1;
                append(&mut text, "failed to ".as_bytes());
                append(&mut text, verb.as_bytes());
                text.push(0x20);
                append(&mut text, input);
                append(&mut text, ": ".as_bytes());
                append(&mut text, error);
            },
        }
        assert(text@ =~= progress_line(
            self.done as nat,
            self.total as nat,
            encode_utf8(verb@),
            input@,
            *outcome,
        ));
        Some(text)
    }

    /// Counts a worker that broke down.
    pub fn note_broken_worker(&mut self)
        requires
            old(self).has_room(),
        ensures
            *final(self) == (Progress {
                failures: (old(self).failures + 1) as usize,
                ..*old(self)
            }),
    {
        self.failures += 1;
    }

    /// How the run went: well only where nothing failed.
    pub fn verdict(&self) -> (result: Result<(), Vec<u8>>)
        ensures
            if self.failures == 0 {
                result is Ok
            } else {
                result matches Err(text) && text@ == failure_text(self.failures as nat)
            },
    {
        if self.failures > 0 {
            let mut text: Vec<u8> = Vec::new();
            append_decimal(&mut text, self.failures as u64);
            append(&mut text, " file(s) failed".as_bytes());
            assert(text@ =~= failure_text(self.failures as nat));
            return Err(text);
        }
        Ok(())
    }
}

/// How a run stands once some tasks have been told of, of which those marked
/// were broken.
pub open spec fn told(progress: Progress, broken: Seq<bool>) -> Progress
    decreases broken.len(),
{
    if broken.len() == 0 {
        progress
    } else {
        let before = told(progress, broken.drop_last());
        Progress {
            total: before.total,
            done: (before.done + 1) as usize,
            failures: if broken.last() {
                (before.failures + 1) as usize
            } else {
                before.failures
            },
        }
    }
}

/// A run goes well if and only if every one of its tasks does, however many
/// there are.
pub proof fn law_one_failure_fails_the_run(total: usize, broken: Seq<bool>)
    requires
        broken.len() <= usize::MAX,
    ensures
        ({
            let end = told(Progress { total, done: 0, failures: 0 }, broken);
            &&& end.done == broken.len()
            &&& end.failures <= end.done
            &&& end.failures == 0 <==> forall|i: int|
                0 <= i < broken.len() ==> !#[trigger] broken[i]
        }),
    decreases broken.len(),
{
    if broken.len() > 0 {
        let head = broken.drop_last();
        law_one_failure_fails_the_run(total, head);
        assert forall|i: int| 0 <= i < head.len() implies head[i] == #[trigger] broken[i] by {}
        assert(broken.last() == broken[broken.len() - 1]);
        if forall|i: int| 0 <= i < broken.len() ==> !#[trigger] broken[i] {
            assert forall|i: int| 0 <= i < head.len() implies !#[trigger] head[i] by {
                assert(head[i] == broken[i]);
            }
        }
    }
}

/// There are as many workers as asked for, as long as there is a task for each;
/// there is always one.
pub proof fn law_workers_have_work(jobs: usize, total: usize)
    ensures
        1 <= jobs <= total ==> workers(jobs, total) == jobs,
        1 <= total < jobs ==> workers(jobs, total) == total,
        jobs == 0 || total == 0 ==> workers(jobs, total) == 1,
{
}

/// Names in a line are told apart by a comma and a space, and by nothing else.
pub proof fn law_names_stand_in_a_line(names: Seq<Seq<u8>>, name: Seq<u8>)
    ensures
        comma_joined(Seq::empty()) == Seq::<u8>::empty(),
        comma_joined(seq![name]) == name,
        names.len() > 0 ==> comma_joined(names.push(name)) == comma_joined(names) + seq![
            0x2Cu8,
            0x20u8,
        ] + name,
{
    assert(names.push(name).drop_last() =~= names);
}

/// A line tells how many tasks are over, of how many, in brackets; and what was
/// done to which input with which outputs, or that it failed and why.
pub proof fn law_line_tells_the_outcome(
    done: nat,
    total: nat,
    verb: Seq<u8>,
    input: Seq<u8>,
    outcome: Outcome,
)
    ensures
        ({
            let head = seq![0x5Bu8] + decimal(done) + seq![0x2Fu8] + decimal(total) + seq![
                0x5Du8,
                0x20u8,
            ];
            progress_line(done, total, verb, input, outcome) == (match outcome {
                Outcome::Finished(outputs) => head + verb + seq![0x20u8] + input + encode_utf8(
                    " -> "@,
                ) + comma_joined(views(outputs@)),
                Outcome::Broken(error) => head + encode_utf8("failed to "@) + verb + seq![0x20u8]
                    + input + encode_utf8(": "@) + error@,
            })
        }),
        failure_text(total) == decimal(total) + encode_utf8(" file(s) failed"@),
{
}

} // verus!
