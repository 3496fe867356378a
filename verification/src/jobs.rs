//! Commands that run in the background.
use std::collections::{HashMap, HashSet};
use vstd::prelude::*;
use vstd::string::*;

use crate::format::{decimal, decimal_text, pad_right, padded_right};
use crate::split::{drop_end, equals, trim, trim_end_char, trim_text};
use crate::text::{same, texts};

verus! {

broadcast use vstd::std_specs::hash::group_hash_axioms;

/// A command that runs in the background, or did so until lately. The status is
/// `Running` or `Done`.
#[derive(Debug, Clone)]
pub struct Job {
    pub job_number: u32,
    pub pid: u32,
    pub command: String,
    pub status: String,
}

/// What a `Job` stands for.
pub struct JobView {
    pub job_number: u32,
    pub pid: u32,
    pub command: Seq<char>,
    pub status: Seq<char>,
}

impl View for Job {
    type V = JobView;

    open spec fn view(&self) -> JobView {
        JobView {
            job_number: self.job_number,
            pid: self.pid,
            command: self.command@,
            status: self.status@,
        }
    }
}

/// What jobs stand for.
pub open spec fn job_views(jobs: Seq<Job>) -> Seq<JobView> {
    Seq::new(jobs.len(), |i: int| jobs[i]@)
}

/// The marks of jobs, by process: a plus for the most recent job, then a minus for the one
/// before it.
pub open spec fn job_marks(jobs: Seq<JobView>) -> Map<u32, Seq<char>> {
    let n = jobs.len() as int;
    if n == 0 {
        Map::empty()
    } else if n == 1 {
        Map::empty().insert(jobs[0].pid, "+"@)
    } else {
        Map::empty().insert(jobs[n - 1].pid, "+"@).insert(jobs[n - 2].pid, "-"@)
    }
}

/// Marks by their characters.
pub open spec fn mark_texts(markers: Map<u32, &'static str>) -> Map<u32, Seq<char>> {
    markers.map_values(|m: &'static str| m@)
}

/// The marks of jobs, by process.
pub fn get_job_markers(jobs: &[Job]) -> (markers: HashMap<u32, &'static str>)
    ensures
        mark_texts(markers@) == job_marks(job_views(jobs@)),
{
    let mut markers: HashMap<u32, &'static str> = HashMap::new();
    let n = jobs.len();
    if n >= 1 {
        markers.insert(jobs[n - 1].pid, "+");
    }
    if n >= 2 {
        markers.insert(jobs[n - 2].pid, "-");
    }
    assert(mark_texts(markers@) =~= job_marks(job_views(jobs@)));
    markers
}

/// The mark of a process: a space if it has none.
pub open spec fn mark_of(marks: Map<u32, Seq<char>>, pid: u32) -> Seq<char> {
    if marks.contains_key(pid) {
        marks[pid]
    } else {
        " "@
    }
}

/// A job as it is reported: number, mark, status in a column of its own, command, and an
/// ampersand after a command that still runs.
pub open spec fn job_line(job: JobView, mark: Seq<char>, ampersand: bool) -> Seq<char> {
    let line = "["@ + decimal(job.job_number as nat) + "]"@ + mark + "  "@ + pad_right(
        job.status,
        24,
    ) + job.command;
    if ampersand {
        line + " &"@
    } else {
        line
    }
}

fn format_job(job: &Job, markers: &HashMap<u32, &'static str>, ampersand: bool) -> (r: String)
    ensures
        r@ == job_line(job@, mark_of(mark_texts(markers@), job.pid), ampersand),
{
    let mark = match markers.get(&job.pid) {
        Some(m) => *m,
        None => " ",
    };
    let mut out = "[".to_owned();
    out.append(&decimal_text(job.job_number as usize));
    out.append("]");
    out.append(mark);
    out.append("  ");
    out.append(&padded_right(&job.status, 24));
    out.append(&job.command);
    if ampersand {
        out.append(" &");
    }
    out
}

/// The jobs, and the processes of jobs that have not been seen to end.
pub struct JobTable {
    pub jobs: Vec<Job>,
    pub children: HashSet<u32>,
}

/// What a `JobTable` stands for.
pub struct TableView {
    pub jobs: Seq<JobView>,
    pub children: Set<u32>,
}

impl View for JobTable {
    type V = TableView;

    open spec fn view(&self) -> TableView {
        TableView { jobs: job_views(self.jobs@), children: self.children@ }
    }
}

/// The highest number of a job.
pub open spec fn highest(jobs: Seq<JobView>) -> nat
    decreases jobs.len(),
{
    if jobs.len() == 0 {
        0
    } else {
        let h = highest(jobs.drop_last());
        if jobs.last().job_number > h {
            jobs.last().job_number as nat
        } else {
            h
        }
    }
}

/// The number of the next job: one more than the highest number in use.
pub open spec fn next_number(jobs: Seq<JobView>) -> nat {
    highest(jobs) + 1
}

/// The command of a job as it is remembered: without the ampersands at its end, and without
/// white space at either end.
pub open spec fn job_command(original: Seq<char>) -> Seq<char> {
    trim(drop_end(original, equals('&')))
}

/// Whether a job is to be asked whether it has ended.
pub open spec fn due(t: TableView, i: int) -> bool {
    0 <= i < t.jobs.len() && t.jobs[i].status == "Running"@ && t.children.contains(t.jobs[i].pid)
}

/// The table once the process of a job has ended.
pub open spec fn finished(t: TableView, i: int) -> TableView {
    TableView {
        jobs: t.jobs.update(i, JobView { status: "Done"@, ..t.jobs[i] }),
        children: t.children.remove(t.jobs[i].pid),
    }
}

/// What the jobs have answered, by place; a place without an answer means that the job has
/// not ended.
pub open spec fn answers(exited: Seq<bool>) -> spec_fn(int) -> bool {
    |i: int| 0 <= i < exited.len() && exited[i]
}

/// The table once the first `n` jobs have been asked, in order, where due, whether they have
/// ended: `ended` says so for each place.
pub open spec fn pass(t: TableView, ended: spec_fn(int) -> bool, n: int) -> TableView
    decreases n,
{
    if n <= 0 {
        t
    } else {
        let before = pass(t, ended, n - 1);
        if due(before, n - 1) && ended(n - 1) {
            finished(before, n - 1)
        } else {
            before
        }
    }
}

/// Whether a job is done.
pub open spec fn is_done(job: JobView) -> bool {
    job.status == "Done"@
}

/// The jobs that are not done.
pub open spec fn unfinished(jobs: Seq<JobView>) -> Seq<JobView> {
    jobs.filter(|job: JobView| !is_done(job))
}

/// The reports on the first `n` jobs: on those that are done, and on the others if `all`
/// is set. The marks are those of the whole table.
pub open spec fn reports(jobs: Seq<JobView>, n: int, all: bool) -> Seq<Seq<char>>
    decreases n,
{
    if n <= 0 {
        Seq::empty()
    } else {
        let before = reports(jobs, n - 1, all);
        let job = jobs[n - 1];
        let mark = mark_of(job_marks(jobs), job.pid);
        if is_done(job) {
            before.push(job_line(job, mark, false))
        } else if all {
            before.push(job_line(job, mark, true))
        } else {
            before
        }
    }
}

fn copy_job(job: &Job) -> (r: Job)
    ensures
        r@ == job@,
{
    Job {
        job_number: job.job_number,
        pid: job.pid,
        command: job.command.clone(),
        status: job.status.clone(),
    }
}

impl JobTable {
    /// A table without jobs.
    pub fn new() -> (r: Self)
        ensures
            r@.jobs == Seq::<JobView>::empty(),
            r@.children == Set::<u32>::empty(),
    {
        let r = JobTable { jobs: Vec::new(), children: HashSet::new() };
        assert(r@.jobs =~= Seq::<JobView>::empty());
        r
    }

    fn highest_number(&self) -> (h: u32)
        ensures
            h == highest(self@.jobs),
    {
        let mut h: u32 = 0;
        let mut i: usize = 0;
        assert(self@.jobs.take(0) =~= Seq::empty());
        while i < self.jobs.len()
            invariant
                i <= self.jobs@.len(),
                h == highest(self@.jobs.take(i as int)),
            decreases self.jobs@.len() - i,
        {
            proof {
                assert(self@.jobs.take(i + 1).drop_last() =~= self@.jobs.take(i as int));
                assert(self@.jobs.take(i + 1).last() == self.jobs@[i as int]@);
            }
            if self.jobs[i].job_number > h {
                h = self.jobs[i].job_number;
            }
            i = i + 1;
        }
        assert(self@.jobs.take(i as int) =~= self@.jobs);
        h
    }

    /// Whether there is a number for one more job.
    pub fn has_next_number(&self) -> (r: bool)
        ensures
            r == (next_number(self@.jobs) <= u32::MAX),
    {
        self.highest_number() < u32::MAX
    }

    /// Takes in a command that has been started in the background, and says so.
    pub fn start(&mut self, pid: u32, original_command: &str) -> (announcement: String)
        requires
            next_number(old(self)@.jobs) <= u32::MAX,
        ensures
            final(self)@.jobs == old(self)@.jobs.push(
                JobView {
                    job_number: next_number(old(self)@.jobs) as u32,
                    pid,
                    command: job_command(original_command@),
                    status: "Running"@,
                },
            ),
            final(self)@.children == old(self)@.children.insert(pid),
            announcement@ == "["@ + decimal(next_number(old(self)@.jobs)) + "] "@ + decimal(
                pid as nat,
            ),
    {
        let number: u32 = self.highest_number() + 1;
        let command = trim_text(&trim_end_char(original_command, '&'));
        let job = Job { job_number: number, pid, command, status: "Running".to_owned() };
        let ghost before = self@.jobs;
        let ghost view = job@;
        self.children.insert(pid);
        self.jobs.push(job);
        assert(self@.jobs =~= before.push(view));
        let mut out = "[".to_owned();
        out.append(&decimal_text(number as usize));
        out.append("] ");
        out.append(&decimal_text(pid as usize));
        out
    }

    /// For each job the process that is to be asked whether it has ended, where there is one.
    pub fn due_processes(&self) -> (r: Vec<Option<u32>>)
        ensures
            r@.len() == self@.jobs.len(),
            forall|i: int|
                0 <= i < r@.len() ==> #[trigger] r@[i] == if due(self@, i) {
                    Some(self@.jobs[i].pid)
                } else {
                    None
                },
    {
        let mut out: Vec<Option<u32>> = Vec::new();
        let mut i: usize = 0;
        while i < self.jobs.len()
            invariant
                i <= self.jobs@.len(),
                out@.len() == i,
                forall|j: int|
                    0 <= j < i ==> #[trigger] out@[j] == if due(self@, j) {
                        Some(self@.jobs[j].pid)
                    } else {
                        None
                    },
            decreases self.jobs@.len() - i,
        {
            let pid = self.jobs[i].pid;
            if same(&self.jobs[i].status, "Running") && self.children.contains(&pid) {
                out.push(Some(pid));
            } else {
                out.push(None);
            }
            i = i + 1;
        }
        out
    }

    /// Takes in that the process of a job has ended.
    fn finish(&mut self, index: usize)
        requires
            due(old(self)@, index as int),
        ensures
            final(self)@ == finished(old(self)@, index as int),
    {
        let pid = self.jobs[index].pid;
        self.children.remove(&pid);
        let mut job = copy_job(&self.jobs[index]);
        job.status = "Done".to_owned();
        self.jobs[index] = job;
        assert(self@.jobs =~= finished(old(self)@, index as int).jobs);
    }

    /// Takes in the answers of the jobs that were asked whether they have ended.
    fn record(&mut self, exited: &[bool])
        ensures
            final(self)@ == pass(old(self)@, answers(exited@), old(self)@.jobs.len() as int),
    {
        let mut i: usize = 0;
        let n = self.jobs.len();
        while i < n
            invariant
                i <= n,
                n == old(self)@.jobs.len(),
                self@.jobs.len() == n,
                self@ == pass(old(self)@, answers(exited@), i as int),
            decreases n - i,
        {
            if i < exited.len() && exited[i] && same(&self.jobs[i].status, "Running")
                && self.children.contains(&self.jobs[i].pid) {
                self.finish(i);
            }
            i = i + 1;
        }
    }

    /// The reports on jobs that are done, and on the others if `all` is set.
    fn report(&self, all: bool) -> (r: Vec<String>)
        ensures
            texts(r@) == reports(self@.jobs, self@.jobs.len() as int, all),
    {
        let markers = get_job_markers(&self.jobs);
        let mut out: Vec<String> = Vec::new();
        let mut i: usize = 0;
        assert(texts(out@) =~= Seq::empty());
        while i < self.jobs.len()
            invariant
                i <= self.jobs@.len(),
                mark_texts(markers@) == job_marks(self@.jobs),
                texts(out@) == reports(self@.jobs, i as int, all),
            decreases self.jobs@.len() - i,
        {
            let ghost before = texts(out@);
            let done = same(&self.jobs[i].status, "Done");
            assert(self@.jobs[i as int] == self.jobs@[i as int]@);
            if done || all {
                let line = format_job(&self.jobs[i], &markers, !done);
                let ghost text = line@;
                out.push(line);
                assert(texts(out@) =~= before.push(text));
            }
            i = i + 1;
        }
        out
    }

    /// Forgets the jobs that are done.
    fn forget_done(&mut self)
        ensures
            final(self)@.jobs == unfinished(old(self)@.jobs),
            final(self)@.children == old(self)@.children,
    {
        let ghost all = self@.jobs;
        let ghost test = |job: JobView| !is_done(job);
        let mut kept: Vec<Job> = Vec::new();
        let mut i: usize = 0;
        proof {
            reveal(Seq::filter);
            assert(job_views(kept@) =~= all.take(0).filter(test));
        }
        while i < self.jobs.len()
            invariant
                i <= self.jobs@.len(),
                self@ == old(self)@,
                all == self@.jobs,
                test == (|job: JobView| !is_done(job)),
                job_views(kept@) == all.take(i as int).filter(test),
            decreases self.jobs@.len() - i,
        {
            let ghost before = job_views(kept@);
            proof {
                reveal(Seq::filter);
                assert(all.take(i + 1).drop_last() =~= all.take(i as int));
                assert(all.take(i + 1).last() == self.jobs@[i as int]@);
            }
            if !same(&self.jobs[i].status, "Done") {
                kept.push(copy_job(&self.jobs[i]));
                assert(job_views(kept@) =~= before.push(all[i as int]));
            }
            i = i + 1;
        }
        assert(all.take(i as int) =~= all);
        self.jobs = kept;
    }

    /// Takes in which jobs have ended: `exited` says so for each place. Then reports the jobs
    /// that are done, and forgets them, if `display_reaped` is set.
    pub fn reap_jobs(&mut self, exited: &[bool], display_reaped: bool) -> (lines: Vec<String>)
        ensures
            ({
                let t = pass(old(self)@, answers(exited@), old(self)@.jobs.len() as int);
                if display_reaped {
                    &&& final(self)@.jobs == unfinished(t.jobs)
                    &&& final(self)@.children == t.children
                    &&& texts(lines@) == reports(t.jobs, t.jobs.len() as int, false)
                } else {
                    &&& final(self)@ == t
                    &&& lines@.len() == 0
                }
            }),
    {
        self.record(exited);
        if !display_reaped {
            return Vec::new();
        }
        let lines = self.report(false);
        self.forget_done();
        lines
    }

    /// Reports every job, and forgets those that are done.
    pub fn list_jobs(&mut self) -> (lines: Vec<String>)
        ensures
            final(self)@.jobs == unfinished(old(self)@.jobs),
            final(self)@.children == old(self)@.children,
            texts(lines@) == reports(old(self)@.jobs, old(self)@.jobs.len() as int, true),
    {
        let lines = self.report(true);
        self.forget_done();
        lines
    }
}

/// Whether no two jobs have the same number, and every number is positive.
pub open spec fn numbered(jobs: Seq<JobView>) -> bool {
    &&& forall|i: int| 0 <= i < jobs.len() ==> (#[trigger] jobs[i]).job_number > 0
    &&& forall|i: int, j: int|
        0 <= i < j < jobs.len() ==> (#[trigger] jobs[i]).job_number != (
        #[trigger] jobs[j]).job_number
}

proof fn lemma_highest(jobs: Seq<JobView>)
    ensures
        forall|i: int| 0 <= i < jobs.len() ==> (#[trigger] jobs[i]).job_number <= highest(jobs),
    decreases jobs.len(),
{
    if jobs.len() > 0 {
        lemma_highest(jobs.drop_last());
        assert forall|i: int| 0 <= i < jobs.len() implies (#[trigger] jobs[i]).job_number
            <= highest(jobs) by {
            if i < jobs.len() - 1 {
                assert(jobs[i] == jobs.drop_last()[i]);
            }
        }
    }
}

/// A new job gets a number above those of all jobs in the table, and the numbers stay
/// distinct.
pub proof fn law_new_number_is_fresh(jobs: Seq<JobView>, job: JobView)
    requires
        numbered(jobs),
        job.job_number == next_number(jobs),
    ensures
        forall|i: int| 0 <= i < jobs.len() ==> (#[trigger] jobs[i]).job_number < job.job_number,
        numbered(jobs.push(job)),
{
    lemma_highest(jobs);
    assert forall|i: int, j: int| 0 <= i < j < jobs.push(job).len() implies (#[trigger] jobs.push(
        job,
    )[i]).job_number != (#[trigger] jobs.push(job)[j]).job_number by {
        assert(jobs.push(job)[i] == jobs[i]);
    }
}

/// Numbers are used again: the next number follows the number of a job in the table, and is
/// one where the table is empty.
pub proof fn law_numbers_are_used_again(jobs: Seq<JobView>)
    ensures
        jobs.len() == 0 ==> next_number(jobs) == 1,
        jobs.len() > 0 ==> exists|i: int|
            0 <= i < jobs.len() && (#[trigger] jobs[i]).job_number + 1 == next_number(jobs),
    decreases jobs.len(),
{
    if jobs.len() > 0 {
        let rest = jobs.drop_last();
        law_numbers_are_used_again(rest);
        if next_number(jobs) == jobs.last().job_number + 1 {
            assert(jobs[jobs.len() - 1].job_number + 1 == next_number(jobs));
        } else if rest.len() > 0 {
            let i = choose|i: int|
                0 <= i < rest.len() && (#[trigger] rest[i]).job_number + 1 == next_number(rest);
            assert(jobs[i].job_number + 1 == next_number(jobs));
        }
    }
}

/// Taking in which jobs have ended keeps the numbers distinct.
pub proof fn law_pass_keeps_numbers(t: TableView, ended: spec_fn(int) -> bool, n: int)
    requires
        0 <= n <= t.jobs.len(),
        numbered(t.jobs),
    ensures
        pass(t, ended, n).jobs.len() == t.jobs.len(),
        numbered(pass(t, ended, n).jobs),
    decreases n,
{
    if n > 0 {
        law_pass_keeps_numbers(t, ended, n - 1);
        let before = pass(t, ended, n - 1);
        if due(before, n - 1) {
            law_finishing_changes_one_status(before, n - 1);
        }
    }
}

/// That a job has ended changes no number, process or command, and no other job.
pub proof fn law_finishing_changes_one_status(t: TableView, i: int)
    requires
        due(t, i),
    ensures
        finished(t, i).jobs.len() == t.jobs.len(),
        is_done(finished(t, i).jobs[i]),
        finished(t, i).jobs[i] == (JobView { status: "Done"@, ..t.jobs[i] }),
        forall|j: int|
            0 <= j < t.jobs.len() && j != i ==> #[trigger] finished(t, i).jobs[j] == t.jobs[j],
        numbered(t.jobs) ==> numbered(finished(t, i).jobs),
        !due(finished(t, i), i),
{
    let after = finished(t, i).jobs;
    if numbered(t.jobs) {
        assert forall|a: int| 0 <= a < after.len() implies (#[trigger] after[a]).job_number
            > 0 by {
            assert(t.jobs[a].job_number > 0);
        }
        assert forall|a: int, b: int| 0 <= a < b < after.len() implies (
        #[trigger] after[a]).job_number != (#[trigger] after[b]).job_number by {
            assert(t.jobs[a].job_number != t.jobs[b].job_number);
        }
    }
    reveal_strlit("Running");
    reveal_strlit("Done");
    assert("Running"@.len() != "Done"@.len());
}

/// Once jobs that are done have been reported none is left, the others stay, and the
/// numbers stay distinct.
pub proof fn law_reported_jobs_are_gone(jobs: Seq<JobView>)
    ensures
        forall|i: int| 0 <= i < unfinished(jobs).len() ==> !is_done(#[trigger] unfinished(jobs)[i]),
        forall|i: int|
            0 <= i < jobs.len() && !is_done(#[trigger] jobs[i]) ==> unfinished(jobs).contains(
                jobs[i],
            ),
        numbered(jobs) ==> numbered(unfinished(jobs)),
    decreases jobs.len(),
{
    reveal(Seq::filter);
    let test = |job: JobView| !is_done(job);
    assert forall|i: int| 0 <= i < unfinished(jobs).len() implies !is_done(
        #[trigger] unfinished(jobs)[i],
    ) by {
        jobs.lemma_filter_pred(test, i);
    }
    assert forall|i: int| 0 <= i < jobs.len() && !is_done(#[trigger] jobs[i]) implies unfinished(
        jobs,
    ).contains(jobs[i]) by {
        jobs.lemma_filter_contains(test, i);
    }
    if numbered(jobs) {
        lemma_unfinished_numbered(jobs);
    }
}

proof fn lemma_unfinished_numbered(jobs: Seq<JobView>)
    requires
        numbered(jobs),
    ensures
        numbered(unfinished(jobs)),
    decreases jobs.len(),
{
    reveal(Seq::filter);
    let test = |job: JobView| !is_done(job);
    if jobs.len() > 0 {
        let rest = jobs.drop_last();
        assert forall|i: int| 0 <= i < rest.len() implies (#[trigger] rest[i]).job_number > 0 by {
            assert(rest[i] == jobs[i]);
        }
        assert forall|i: int, j: int| 0 <= i < j < rest.len() implies (
        #[trigger] rest[i]).job_number != (#[trigger] rest[j]).job_number by {
            assert(rest[i] == jobs[i] && rest[j] == jobs[j]);
        }
        lemma_unfinished_numbered(rest);
        let kept = unfinished(rest);
        assert forall|i: int| 0 <= i < kept.len() implies (#[trigger] kept[i]).job_number
            != jobs.last().job_number by {
            assert(rest.filter(test).contains(kept[i]));
            rest.lemma_filter_contains_rev(test, kept[i]);
            let k = choose|k: int| 0 <= k < rest.len() && rest[k] == kept[i];
            assert(jobs[k] == kept[i]);
        }
        assert(jobs[jobs.len() - 1].job_number > 0);
    }
}

/// Whether the process of the job at place `j` is found at its end: the job runs, its process has
/// not been seen to end, and its answer is that it has.
pub open spec fn has_ended(t: TableView, ended: spec_fn(int) -> bool, j: int) -> bool {
    t.jobs[j].status == "Running"@ && t.children.contains(t.jobs[j].pid) && ended(j)
}

/// Asking the jobs makes exactly those done whose processes are found at their ends, and of
/// several jobs with one process the first of them; everything else of every job stays as it
/// was, and of the processes those are left that were not found at their ends.
pub proof fn law_pass_finishes_what_has_ended(
    t: TableView,
    ended: spec_fn(int) -> bool,
    n: int,
)
    requires
        0 <= n <= t.jobs.len(),
    ensures
        pass(t, ended, n).jobs.len() == t.jobs.len(),
        forall|j: int|
            0 <= j < t.jobs.len() ==> #[trigger] pass(t, ended, n).jobs[j] == if j < n
                && has_ended(t, ended, j) && !exists|i: int|
                0 <= i < j && #[trigger] has_ended(t, ended, i) && t.jobs[i].pid == t.jobs[j].pid {
                JobView { status: "Done"@, ..t.jobs[j] }
            } else {
                t.jobs[j]
            },
        forall|pid: u32| #[trigger]
            pass(t, ended, n).children.contains(pid) <==> t.children.contains(pid) && !exists|
                i: int,
            |
                0 <= i < n && #[trigger] has_ended(t, ended, i) && t.jobs[i].pid == pid,
    decreases n,
{
    if n > 0 {
        law_pass_finishes_what_has_ended(t, ended, n - 1);
        let before = pass(t, ended, n - 1);
        let after = pass(t, ended, n);
        let last = t.jobs[n - 1];
        assert(before.jobs[n - 1] == last);
        assert(before.children.contains(last.pid) <==> t.children.contains(last.pid) && !exists|
            i: int,
        |
            0 <= i < n - 1 && #[trigger] has_ended(t, ended, i) && t.jobs[i].pid == last.pid);
        let now = due(before, n - 1) && ended(n - 1);
        assert(now <==> has_ended(t, ended, n - 1) && !exists|i: int|
            0 <= i < n - 1 && #[trigger] has_ended(t, ended, i) && t.jobs[i].pid == last.pid);
        assert forall|j: int| 0 <= j < t.jobs.len() implies #[trigger] after.jobs[j] == if j < n
            && has_ended(t, ended, j) && !exists|i: int|
            0 <= i < j && #[trigger] has_ended(t, ended, i) && t.jobs[i].pid == t.jobs[j].pid {
            JobView { status: "Done"@, ..t.jobs[j] }
        } else {
            t.jobs[j]
        } by {
            if j != n - 1 {
                assert(after.jobs[j] == before.jobs[j]);
            }
        }
        assert forall|pid: u32| #[trigger]
            after.children.contains(pid) <==> t.children.contains(pid) && !exists|i: int|
                0 <= i < n && #[trigger] has_ended(t, ended, i) && t.jobs[i].pid == pid by {
            assert(before.children.contains(pid) <==> t.children.contains(pid) && !exists|i: int|
                0 <= i < n - 1 && #[trigger] has_ended(t, ended, i) && t.jobs[i].pid == pid);
            if pid == last.pid && has_ended(t, ended, n - 1) {
                if t.children.contains(pid) && before.children.contains(pid) {
                    assert(now);
                }
            }
        }
    }
}

/// A job is asked exactly while it runs and its process has not been seen to end.
pub proof fn law_which_jobs_are_asked(t: TableView, i: int)
    ensures
        due(t, i) <==> 0 <= i < t.jobs.len() && t.jobs[i].status == "Running"@
            && t.children.contains(t.jobs[i].pid),
{
}

/// Whether the numbers of the jobs rise.
pub open spec fn rising(jobs: Seq<JobView>) -> bool {
    forall|i: int, j: int|
        0 <= i < j < jobs.len() ==> (#[trigger] jobs[i]).job_number < (
        #[trigger] jobs[j]).job_number
}

proof fn lemma_unfinished_rising(jobs: Seq<JobView>)
    requires
        rising(jobs),
    ensures
        rising(unfinished(jobs)),
    decreases jobs.len(),
{
    reveal(Seq::filter);
    let test = |job: JobView| !is_done(job);
    if jobs.len() > 0 {
        let rest = jobs.drop_last();
        assert forall|i: int, j: int| 0 <= i < j < rest.len() implies (
        #[trigger] rest[i]).job_number < (#[trigger] rest[j]).job_number by {
            assert(rest[i] == jobs[i] && rest[j] == jobs[j]);
        }
        lemma_unfinished_rising(rest);
        let kept = unfinished(rest);
        assert forall|i: int| 0 <= i < kept.len() implies (#[trigger] kept[i]).job_number
            < jobs.last().job_number by {
            assert(rest.filter(test).contains(kept[i]));
            rest.lemma_filter_contains_rev(test, kept[i]);
            let k = choose|k: int| 0 <= k < rest.len() && rest[k] == kept[i];
            assert(jobs[k] == kept[i]);
        }
    }
}

/// The numbers of the jobs in a table rise: a new job, a pass over the jobs, and forgetting
/// those that are done keep it so.
pub proof fn law_numbers_rise(
    t: TableView,
    job: JobView,
    ended: spec_fn(int) -> bool,
    n: int,
)
    requires
        rising(t.jobs),
        0 <= n <= t.jobs.len(),
    ensures
        job.job_number == next_number(t.jobs) ==> rising(t.jobs.push(job)),
        pass(t, ended, n).jobs.len() == t.jobs.len(),
        rising(pass(t, ended, n).jobs),
        rising(unfinished(t.jobs)),
    decreases n,
{
    lemma_highest(t.jobs);
    lemma_unfinished_rising(t.jobs);
    if n > 0 {
        law_numbers_rise(t, job, ended, n - 1);
        let before = pass(t, ended, n - 1);
        if due(before, n - 1) {
            let after = finished(before, n - 1);
            assert forall|i: int, j: int| 0 <= i < j < after.jobs.len() implies (
            #[trigger] after.jobs[i]).job_number < (#[trigger] after.jobs[j]).job_number by {
                assert(before.jobs[i].job_number < before.jobs[j].job_number);
            }
        }
    }
}

proof fn lemma_nothing_to_report(jobs: Seq<JobView>, n: int)
    requires
        0 <= n <= jobs.len(),
        forall|i: int| 0 <= i < jobs.len() ==> !is_done(#[trigger] jobs[i]),
    ensures
        reports(jobs, n, false) == Seq::<Seq<char>>::empty(),
    decreases n,
{
    if n > 0 {
        lemma_nothing_to_report(jobs, n - 1);
        assert(!is_done(jobs[n - 1]));
    }
}

/// A job that is done is reported once: after it has been reported and forgotten there is
/// nothing left to report or to forget.
pub proof fn law_reaping_again_reports_nothing(jobs: Seq<JobView>)
    ensures
        reports(unfinished(jobs), unfinished(jobs).len() as int, false)
            == Seq::<Seq<char>>::empty(),
        unfinished(unfinished(jobs)) == unfinished(jobs),
{
    law_reported_jobs_are_gone(jobs);
    lemma_nothing_to_report(unfinished(jobs), unfinished(jobs).len() as int);
    lemma_unfinished_all(unfinished(jobs));
}

proof fn lemma_unfinished_all(jobs: Seq<JobView>)
    requires
        forall|i: int| 0 <= i < jobs.len() ==> !is_done(#[trigger] jobs[i]),
    ensures
        unfinished(jobs) == jobs,
    decreases jobs.len(),
{
    reveal(Seq::filter);
    if jobs.len() > 0 {
        let rest = jobs.drop_last();
        assert forall|i: int| 0 <= i < rest.len() implies !is_done(#[trigger] rest[i]) by {
            assert(rest[i] == jobs[i]);
        }
        lemma_unfinished_all(rest);
        assert(!is_done(jobs[jobs.len() - 1]));
        assert(rest.push(jobs.last()) =~= jobs);
    } else {
        assert(unfinished(jobs) =~= jobs);
    }
}

/// A minus marks the process of the job before the most recent one, a plus that of the most
/// recent one unless it is the same, and a space every other process.
pub proof fn law_marks(jobs: Seq<JobView>, pid: u32)
    ensures
        mark_of(job_marks(jobs), pid) == if jobs.len() >= 2 && pid == jobs[jobs.len() - 2].pid {
            "-"@
        } else if jobs.len() >= 1 && pid == jobs[jobs.len() - 1].pid {
            "+"@
        } else {
            " "@
        },
{
}

/// A job is reported with its number in brackets, its mark, its status and then its command;
/// the status takes up at least twenty-four places, filled with spaces.
pub proof fn law_job_line(job: JobView, mark: Seq<char>)
    ensures
        ({
            let fill = Seq::new(
                if job.status.len() < 24 {
                    (24 - job.status.len()) as nat
                } else {
                    0
                },
                |i: int| ' ',
            );
            let line = "["@ + decimal(job.job_number as nat) + "]"@ + mark + "  "@ + job.status
                + fill + job.command;
            &&& job_line(job, mark, false) == line
            &&& job_line(job, mark, true) == line + " &"@
        }),
{
    let fill = Seq::new(
        if job.status.len() < 24 {
            (24 - job.status.len()) as nat
        } else {
            0
        },
        |i: int| ' ',
    );
    let start = "["@ + decimal(job.job_number as nat) + "]"@ + mark + "  "@;
    assert(pad_right(job.status, 24) =~= job.status + fill);
    assert(start + (job.status + fill) + job.command =~= start + job.status + fill + job.command);
}

/// Before a prompt every job that is done is reported, in the order of the table, and no other;
/// on request every job is, those that are not done with an ampersand.
pub proof fn law_every_job_is_reported(jobs: Seq<JobView>)
    ensures
        reports(jobs, jobs.len() as int, false) == jobs.filter(
            |job: JobView| job.status == "Done"@,
        ).map_values(|job: JobView| job_line(job, mark_of(job_marks(jobs), job.pid), false)),
        reports(jobs, jobs.len() as int, true) == jobs.map_values(
            |job: JobView|
                job_line(job, mark_of(job_marks(jobs), job.pid), job.status != "Done"@),
        ),
{
    lemma_reports_done(jobs, jobs.len() as int);
    lemma_reports_all(jobs, jobs.len() as int);
    assert(jobs.take(jobs.len() as int) =~= jobs);
}

proof fn lemma_reports_done(jobs: Seq<JobView>, n: int)
    requires
        0 <= n <= jobs.len(),
    ensures
        reports(jobs, n, false) == jobs.take(n).filter(
            |job: JobView| job.status == "Done"@,
        ).map_values(|job: JobView| job_line(job, mark_of(job_marks(jobs), job.pid), false)),
    decreases n,
{
    reveal(Seq::filter);
    let done = |job: JobView| job.status == "Done"@;
    let line = |job: JobView| job_line(job, mark_of(job_marks(jobs), job.pid), false);
    if n > 0 {
        lemma_reports_done(jobs, n - 1);
        assert(jobs.take(n).drop_last() =~= jobs.take(n - 1));
        assert(jobs.take(n).last() == jobs[n - 1]);
        let kept = jobs.take(n - 1).filter(done);
        if done(jobs[n - 1]) {
            assert(kept.push(jobs[n - 1]).map_values(line) =~= kept.map_values(line).push(
                line(jobs[n - 1]),
            ));
        }
    } else {
        assert(jobs.take(0).filter(done).map_values(line) =~= Seq::empty());
    }
}

proof fn lemma_reports_all(jobs: Seq<JobView>, n: int)
    requires
        0 <= n <= jobs.len(),
    ensures
        reports(jobs, n, true) == jobs.take(n).map_values(
            |job: JobView|
                job_line(job, mark_of(job_marks(jobs), job.pid), job.status != "Done"@),
        ),
    decreases n,
{
    let line = |job: JobView|
        job_line(job, mark_of(job_marks(jobs), job.pid), job.status != "Done"@);
    if n > 0 {
        lemma_reports_all(jobs, n - 1);
        assert(jobs.take(n).map_values(line) =~= jobs.take(n - 1).map_values(line).push(
            line(jobs[n - 1]),
        ));
    } else {
        assert(jobs.take(0).map_values(line) =~= Seq::empty());
    }
}

/// What is forgotten is exactly what is done: of the jobs those stay, in order, whose status is
/// not `Done`, and each of the others has been reported by its line.
pub proof fn law_forgotten_jobs_were_reported(jobs: Seq<JobView>)
    ensures
        unfinished(jobs) == jobs.filter(|job: JobView| job.status != "Done"@),
        reports(jobs, jobs.len() as int, false).len() + unfinished(jobs).len() == jobs.len(),
        forall|i: int|
            0 <= i < jobs.len() && (#[trigger] jobs[i]).status == "Done"@ ==> reports(
                jobs,
                jobs.len() as int,
                false,
            ).contains(job_line(jobs[i], mark_of(job_marks(jobs), jobs[i].pid), false)),
{
    let done = |job: JobView| job.status == "Done"@;
    let line = |job: JobView| job_line(job, mark_of(job_marks(jobs), job.pid), false);
    let all = reports(jobs, jobs.len() as int, false);
    law_every_job_is_reported(jobs);
    assert((|job: JobView| !is_done(job)) =~= (|job: JobView| job.status != "Done"@));
    lemma_done_or_not(jobs);
    assert forall|i: int| 0 <= i < jobs.len() && (#[trigger] jobs[i]).status
        == "Done"@ implies all.contains(line(jobs[i])) by {
        jobs.lemma_filter_contains(done, i);
        let kept = jobs.filter(done);
        let k = choose|k: int| 0 <= k < kept.len() && kept[k] == jobs[i];
        assert(all[k] == line(jobs[i]));
    }
}

proof fn lemma_done_or_not(jobs: Seq<JobView>)
    ensures
        jobs.filter(|job: JobView| job.status == "Done"@).len() + unfinished(jobs).len()
            == jobs.len(),
    decreases jobs.len(),
{
    reveal(Seq::filter);
    if jobs.len() > 0 {
        lemma_done_or_not(jobs.drop_last());
    }
}

/// The command of a job is what was entered without the ampersands at its end, and without
/// white space at the ends of the rest.
pub proof fn law_job_command(text: Seq<char>, n: nat)
    requires
        text.len() == 0 || text.last() != '&',
    ensures
        job_command(text + Seq::new(n, |i: int| '&')) == trim(text),
    decreases n,
{
    let all = text + Seq::new(n, |i: int| '&');
    if n == 0 {
        assert(all =~= text);
    } else {
        let m = (n - 1) as nat;
        law_job_command(text, m);
        assert(all.drop_last() =~= text + Seq::new(m, |i: int| '&'));
        assert(all.last() == '&');
    }
}

} // verus!
