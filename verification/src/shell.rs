//! Shell state: variables, status, history and the job table.

use vstd::prelude::*;

use crate::env::{defined_by, Env};
use crate::number::{
    digits, law_parse_reads_decimal, law_parse_refuses, lemma_digits_are_digits, parse_usize,
    parsed_int,
};
use crate::text::{chars_of, is_digit_char, string_of, texts, trim_text, trimmed};

verus! {

/// State of a tracked job.
#[derive(Debug, Clone, Copy, PartialEq, Eq, Structural)]
pub enum JobState {
    Running,
    Stopped,
}

/// A background or stopped pipeline tracked by the shell.
#[derive(Debug, PartialEq, Eq)]
pub struct Job {
    pub id: usize,
    /// Process group shared by all stages of the pipeline.
    pub pgid: i32,
    /// Stage pids not known to have exited yet.
    pub pids: Vec<i32>,
    pub command_line: String,
    pub state: JobState,
}

/// Model of a [`Job`].
pub struct JobView {
    pub id: int,
    pub pgid: i32,
    pub pids: Seq<i32>,
    pub command_line: Seq<char>,
    pub state: JobState,
}

impl View for Job {
    type V = JobView;

    open spec fn view(&self) -> JobView {
        JobView {
            id: self.id as int,
            pgid: self.pgid,
            pids: self.pids@,
            command_line: self.command_line@,
            state: self.state,
        }
    }
}

/// The models of a job table.
pub open spec fn job_views(v: Seq<Job>) -> Seq<JobView> {
    Seq::new(v.len(), |i: int| v[i]@)
}

/// Mutable shell state shared by the REPL, builtins and the executor.
pub struct Shell {
    pub env: Env,
    pub last_status: i32,
    pub should_exit: bool,
    pub history: Vec<String>,
    /// Background and stopped pipelines, oldest first.
    pub jobs: Vec<Job>,
    /// When `Some`, command stdout that would go to the terminal is appended
    /// here instead (command substitution capture).
    pub capture: Option<Vec<u8>>,
}

/// `a` and `b` differ at most in their job tables.
pub open spec fn same_but_jobs(a: Shell, b: Shell) -> bool {
    &&& a.env == b.env
    &&& a.last_status == b.last_status
    &&& a.should_exit == b.should_exit
    &&& a.history == b.history
    &&& a.capture == b.capture
}

// ---------------------------------------------------------------------------
// Job ids.

/// Some job has the id `id`.
pub open spec fn id_used(jobs: Seq<JobView>, id: int) -> bool {
    exists|i: int| 0 <= i < jobs.len() && (#[trigger] jobs[i]).id == id
}

/// `id` is the lowest id from 1 on that no job has.
pub open spec fn lowest_free(jobs: Seq<JobView>, id: int) -> bool {
    &&& id >= 1
    &&& !id_used(jobs, id)
    &&& forall|k: int| 1 <= k < id ==> #[trigger] id_used(jobs, k)
}

/// Every id is at least 1 and no two jobs share one.
pub open spec fn ids_distinct(jobs: Seq<JobView>) -> bool {
    &&& forall|i: int| 0 <= i < jobs.len() ==> (#[trigger] jobs[i]).id >= 1
    &&& forall|i: int, j: int|
        0 <= i < j < jobs.len() ==> (#[trigger] jobs[i]).id != (#[trigger] jobs[j]).id
}

/// The first job with the id `id`, from `i` on.
pub open spec fn index_of_id(jobs: Seq<JobView>, id: int, i: int) -> Option<int>
    decreases jobs.len() - i,
{
    if !(0 <= i < jobs.len()) {
        None
    } else if jobs[i].id == id {
        Some(i)
    } else {
        index_of_id(jobs, id, i + 1)
    }
}

/// The job number that `%n` or `n` names.
pub open spec fn spec_id(spec: Seq<char>) -> Option<int> {
    let body = if spec.len() > 0 && spec[0] == '%' {
        spec.skip(1)
    } else {
        spec
    };
    parsed_int(body, 0, usize::MAX as int)
}

/// The index of the job that `spec` names; the last one where there is none.
pub open spec fn job_at(jobs: Seq<JobView>, spec: Option<Seq<char>>) -> Option<int> {
    match spec {
        None => if jobs.len() == 0 {
            None
        } else {
            Some(jobs.len() - 1)
        },
        Some(spec) => match spec_id(spec) {
            Some(id) => index_of_id(jobs, id, 0),
            None => None,
        },
    }
}

proof fn lemma_ids_bound(jobs: Seq<JobView>, k: int)
    requires
        k >= 0,
        forall|n: int| 1 <= n <= k ==> #[trigger] id_used(jobs, n),
    ensures
        k <= jobs.len(),
{
    let ids = Seq::new(jobs.len(), |i: int| jobs[i].id);
    let range = vstd::set_lib::set_int_range(1, k + 1);
    vstd::set_lib::lemma_int_range(1, k + 1);
    ids.lemma_cardinality_of_set();
    assert forall|n: int| range.contains(n) implies ids.to_set().contains(n) by {
        assert(id_used(jobs, n));
        let i = choose|i: int| 0 <= i < jobs.len() && (#[trigger] jobs[i]).id == n;
        assert(ids[i] == n);
        assert(ids.contains(n));
    }
    vstd::seq_lib::seq_to_set_is_finite(ids);
    vstd::set_lib::lemma_len_subset(range, ids.to_set());
}

impl Shell {
    /// A shell with the given variables.
    pub fn with_env(vars: Vec<(String, String)>) -> (r: Shell)
        ensures
            r.env@ == defined_by(vars@),
            r.last_status == 0,
            !r.should_exit,
            r.history@.len() == 0,
            r.jobs@.len() == 0,
            r.capture is None,
    {
        Shell {
            env: Env::from_pairs(vars),
            last_status: 0,
            should_exit: false,
            history: Vec::new(),
            jobs: Vec::new(),
            capture: None,
        }
    }

    /// Whether some job has the id `id`.
    fn has_id(&self, id: usize) -> (r: bool)
        ensures
            r == id_used(job_views(self.jobs@), id as int),
    {
        let ghost all = job_views(self.jobs@);
        let mut i: usize = 0;
        while i < self.jobs.len()
            invariant
                all == job_views(self.jobs@),
                i <= self.jobs@.len(),
                forall|k: int| 0 <= k < i ==> (#[trigger] all[k]).id != id,
            decreases self.jobs.len() - i,
        {
            if self.jobs[i].id == id {
                proof {
                    assert(all[i as int].id == id);
                }
                return true;
            }
            i += 1;
        }
        false
    }

    /// Take a line that was typed: without the white space around it, it goes
    /// into the history and is there to be run. A blank line is passed over.
    pub fn accept_line(&mut self, line: &str) -> (r: Option<String>)
        ensures
            match r {
                Some(text) => {
                    &&& trimmed(line@).len() > 0
                    &&& text@ == trimmed(line@)
                    &&& texts(final(self).history@) == texts(old(self).history@).push(text@)
                    &&& *final(self) == (Shell { history: final(self).history, ..*old(self) })
                },
                None => trimmed(line@).len() == 0 && *final(self) == *old(self),
            },
    {
        let text = trim_text(line);
        if chars_of(text.as_str()).len() == 0 {
            return None;
        }
        let entry = trim_text(line);
        self.history.push(entry);
        proof {
            assert(texts(self.history@) =~= texts(old(self).history@).push(text@));
        }
        Some(text)
    }

    /// Track a pipeline as a job; returns the assigned id (lowest free one).
    pub fn add_job(
        &mut self,
        pgid: i32,
        pids: Vec<i32>,
        command_line: String,
        state: JobState,
    ) -> (id: usize)
        requires
            old(self).jobs@.len() < usize::MAX,
        ensures
            lowest_free(job_views(old(self).jobs@), id as int),
            job_views(final(self).jobs@) == job_views(old(self).jobs@).push(
                JobView {
                    id: id as int,
                    pgid,
                    pids: pids@,
                    command_line: command_line@,
                    state,
                },
            ),
            same_but_jobs(*old(self), *final(self)),
    {
        let ghost all = job_views(self.jobs@);
        let mut id: usize = 1;
        while self.has_id(id)
            invariant
                *self == *old(self),
                all == job_views(self.jobs@),
                self.jobs@.len() < usize::MAX,
                1 <= id,
                forall|k: int| 1 <= k < id ==> #[trigger] id_used(all, k),
            decreases self.jobs@.len() + 1 - id,
        {
            proof {
                lemma_ids_bound(all, id as int);
            }
            id += 1;
        }
        let job = Job { id, pgid, pids, command_line, state };
        self.jobs.push(job);
        proof {
            assert(job_views(self.jobs@) =~= all.push(job@));
        }
        id
    }

    /// Index of the job named by `spec` (`%n` or `n`); `None` picks the last.
    pub fn job_index(&self, spec: Option<&str>) -> (r: Option<usize>)
        ensures
            ({
                let named = match spec {
                    Some(text) => Some(text@),
                    None => None,
                };
                match job_at(job_views(self.jobs@), named) {
                    Some(i) => r matches Some(k) && k == i && k < self.jobs@.len(),
                    None => r is None,
                }
            }),
    {
        let ghost all = job_views(self.jobs@);
        match spec {
            None => if self.jobs.len() == 0 {
                None
            } else {
                Some(self.jobs.len() - 1)
            },
            Some(text) => {
                let chars = chars_of(text);
                let n: usize = chars.len();
                let from: usize = if n > 0 && chars[0] == '%' {
                    1
                } else {
                    0
                };
                let body = string_of(chars.as_slice(), from, n);
                proof {
                    if from == 1 {
                        assert(body@ =~= text@.skip(1));
                    } else {
                        assert(body@ =~= text@);
                    }
                }
                match parse_usize(body.as_str()) {
                    None => None,
                    Some(id) => {
                        let mut i: usize = 0;
                        while i < self.jobs.len() && self.jobs[i].id != id
                            invariant
                                all == job_views(self.jobs@),
                                i <= self.jobs@.len(),
                                index_of_id(all, id as int, 0) == index_of_id(
                                    all,
                                    id as int,
                                    i as int,
                                ),
                            decreases self.jobs.len() - i,
                        {
                            i += 1;
                        }
                        if i < self.jobs.len() {
                            Some(i)
                        } else {
                            None
                        }
                    },
                }
            },
        }
    }
}

// ---------------------------------------------------------------------------
// Reaping.

/// What polling a process told.
#[derive(Debug, Clone, Copy, PartialEq, Eq, Structural)]
pub enum News {
    /// It stopped since it was last asked.
    Stopped,
    /// It exited, was killed, or is not there any more.
    Gone,
    /// Nothing new.
    Nothing,
}

/// What a poll of `pid` that returned `rv` means, where `stopped` tells
/// whether the status it delivered is that of a stopped process.
pub open spec fn news_of(pid: i32, rv: i32, stopped: bool) -> News {
    if rv == pid {
        if stopped {
            News::Stopped
        } else {
            News::Gone
        }
    } else if rv == 0 {
        News::Nothing
    } else {
        News::Gone
    }
}

/// What a poll of `pid` that returned `rv` means, where `stopped` tells
/// whether the status it delivered is that of a stopped process.
pub fn poll_news(pid: i32, rv: i32, stopped: bool) -> (r: News)
    ensures
        r == news_of(pid, rv, stopped),
{
    if rv == pid {
        if stopped {
            News::Stopped
        } else {
            News::Gone
        }
    } else if rv == 0 {
        // No news.
        News::Nothing
    } else {
        // Already gone.
        News::Gone
    }
}

/// The pids that are still there.
pub open spec fn pids_left(pids: Seq<i32>, news: Seq<News>) -> Seq<i32>
    decreases pids.len(),
{
    if pids.len() == 0 {
        Seq::empty()
    } else if news[pids.len() - 1] is Gone {
        pids_left(pids.drop_last(), news)
    } else {
        pids_left(pids.drop_last(), news).push(pids.last())
    }
}

/// One of the first `n` processes stopped.
pub open spec fn any_stopped(news: Seq<News>, n: int) -> bool {
    exists|i: int| 0 <= i < n && i < news.len() && #[trigger] news[i] is Stopped
}

/// A job after its processes were polled. A stopped job stays stopped until it
/// is continued: a stop is reported only once.
pub open spec fn polled(job: JobView, news: Seq<News>) -> JobView {
    JobView {
        pids: pids_left(job.pids, news),
        state: if any_stopped(news, job.pids.len() as int) {
            JobState::Stopped
        } else {
            job.state
        },
        ..job
    }
}

/// The job table after all processes were polled: jobs without processes are
/// dropped.
pub open spec fn reaped(jobs: Seq<JobView>, news: Seq<Seq<News>>) -> Seq<JobView>
    decreases jobs.len(),
{
    if jobs.len() == 0 {
        Seq::empty()
    } else {
        let before = reaped(jobs.drop_last(), news);
        let job = polled(jobs.last(), news[jobs.len() - 1]);
        if job.pids.len() == 0 {
            before
        } else {
            before.push(job)
        }
    }
}

/// The news of each job's processes.
pub open spec fn news_views(v: Seq<Vec<News>>) -> Seq<Seq<News>> {
    Seq::new(v.len(), |i: int| v[i]@)
}

/// `news` holds an answer for every process of every job.
pub open spec fn answers_all(jobs: Seq<JobView>, news: Seq<Seq<News>>) -> bool {
    &&& news.len() == jobs.len()
    &&& forall|i: int|
        0 <= i < jobs.len() ==> (#[trigger] news[i]).len() == jobs[i].pids.len()
}

fn poll_job(job: &Job, news: &[News]) -> (r: Job)
    requires
        news@.len() == job.pids@.len(),
    ensures
        r@ == polled(job@, news@),
{
    let mut pids: Vec<i32> = Vec::new();
    let mut stopped = false;
    let mut i: usize = 0;
    proof {
        assert(pids@ =~= pids_left(job.pids@.take(0), news@));
    }
    while i < job.pids.len()
        invariant
            news@.len() == job.pids@.len(),
            i <= job.pids@.len(),
            pids@ == pids_left(job.pids@.take(i as int), news@),
            stopped == any_stopped(news@, i as int),
        decreases job.pids.len() - i,
    {
        proof {
            assert(job.pids@.take(i + 1).drop_last() =~= job.pids@.take(i as int));
        }
        let ghost was = stopped;
        match news[i] {
            News::Stopped => {
                stopped = true;
                pids.push(job.pids[i]);
                proof {
                    assert(news@[i as int] is Stopped);
                }
            },
            News::Gone => {},
            News::Nothing => {
                pids.push(job.pids[i]);
            },
        }
        proof {
            if any_stopped(news@, i + 1) {
                let k = choose|k: int|
                    0 <= k < i + 1 && k < news@.len() && #[trigger] news@[k] is Stopped;
                if k < i {
                    assert(any_stopped(news@, i as int));
                }
            }
        }
        i += 1;
    }
    proof {
        assert(job.pids@.take(job.pids@.len() as int) =~= job.pids@);
    }
    Job {
        id: job.id,
        pgid: job.pgid,
        pids,
        command_line: job.command_line.clone(),
        state: if stopped {
            JobState::Stopped
        } else {
            job.state
        },
    }
}

impl Shell {
    /// Drop finished jobs and mark freshly stopped ones, given what polling
    /// each process of each job told. A stopped job stays Stopped until
    /// `bg`/`fg` continues it: a stop transition is reported only once, so "no
    /// event" must not downgrade the state back to Running.
    pub fn reap_jobs(&mut self, news: &[Vec<News>])
        requires
            answers_all(job_views(old(self).jobs@), news_views(news@)),
        ensures
            job_views(final(self).jobs@) == reaped(job_views(old(self).jobs@), news_views(news@)),
            same_but_jobs(*old(self), *final(self)),
    {
        let ghost all = job_views(self.jobs@);
        let ghost told = news_views(news@);
        let mut left: Vec<Job> = Vec::new();
        let mut i: usize = 0;
        proof {
            assert(job_views(left@) =~= reaped(all.take(0), told));
        }
        while i < self.jobs.len()
            invariant
                *self == *old(self),
                all == job_views(self.jobs@),
                told == news_views(news@),
                answers_all(all, told),
                i <= self.jobs@.len(),
                job_views(left@) == reaped(all.take(i as int), told),
            decreases self.jobs.len() - i,
        {
            proof {
                assert(told[i as int].len() == all[i as int].pids.len());
                assert(all.take(i + 1).drop_last() =~= all.take(i as int));
            }
            let ghost before = job_views(left@);
            let job = poll_job(&self.jobs[i], news[i].as_slice());
            if job.pids.len() > 0 {
                left.push(job);
                proof {
                    assert(job_views(left@) =~= before.push(job@));
                }
            }
            i += 1;
        }
        proof {
            assert(all.take(self.jobs@.len() as int) =~= all);
        }
        self.jobs = left;
    }
}

// ---------------------------------------------------------------------------
// Laws.

/// Tracking a pipeline keeps the ids distinct.
pub proof fn law_add_job_keeps_ids_distinct(jobs: Seq<JobView>, job: JobView)
    requires
        ids_distinct(jobs),
        lowest_free(jobs, job.id),
    ensures
        ids_distinct(jobs.push(job)),
{
    let after = jobs.push(job);
    assert forall|i: int, j: int| 0 <= i < j < after.len() implies (#[trigger] after[i]).id != (
    #[trigger] after[j]).id by {
        if j == jobs.len() {
            assert(after[i] == jobs[i]);
            if jobs[i].id == job.id {
                assert(id_used(jobs, job.id));
            }
        } else {
            assert(after[i] == jobs[i] && after[j] == jobs[j]);
        }
    }
    assert forall|i: int| 0 <= i < after.len() implies (#[trigger] after[i]).id >= 1 by {
        if i < jobs.len() {
            assert(after[i] == jobs[i]);
        }
    }
}

/// Reaping invents no job: what is left of the table comes from it, in order,
/// so ids stay distinct.
pub proof fn law_reaped_keeps_ids_distinct(jobs: Seq<JobView>, news: Seq<Seq<News>>)
    requires
        ids_distinct(jobs),
    ensures
        ids_distinct(reaped(jobs, news)),
{
    lemma_reaped_ids(jobs, news);
}

proof fn lemma_reaped_ids(jobs: Seq<JobView>, news: Seq<Seq<News>>)
    requires
        ids_distinct(jobs),
    ensures
        ids_distinct(reaped(jobs, news)),
        forall|i: int|
            0 <= i < reaped(jobs, news).len() ==> id_used(
                jobs,
                (#[trigger] reaped(jobs, news)[i]).id,
            ),
    decreases jobs.len(),
{
    if jobs.len() > 0 {
        let head = jobs.drop_last();
        assert forall|i: int| 0 <= i < head.len() implies (#[trigger] head[i]).id >= 1 by {
            assert(head[i] == jobs[i]);
        }
        assert forall|i: int, j: int| 0 <= i < j < head.len() implies (#[trigger] head[i]).id != (
        #[trigger] head[j]).id by {
            assert(head[i] == jobs[i] && head[j] == jobs[j]);
        }
        lemma_reaped_ids(head, news);
        let before = reaped(head, news);
        let after = reaped(jobs, news);
        let n = jobs.len() - 1;
        assert forall|i: int| 0 <= i < before.len() implies id_used(
            jobs,
            (#[trigger] before[i]).id,
        ) && before[i].id != jobs[n].id by {
            assert(id_used(head, before[i].id));
            let k = choose|k: int| 0 <= k < head.len() && (#[trigger] head[k]).id == before[i].id;
            assert(jobs[k].id == before[i].id);
            assert(jobs[k].id != jobs[n].id);
        }
        assert(id_used(jobs, jobs[n].id));
        assert(jobs[n].id >= 1);
        if after.len() > before.len() {
            assert forall|i: int, j: int| 0 <= i < j < after.len() implies (
            #[trigger] after[i]).id != (#[trigger] after[j]).id by {
                assert(after[i] == before[i]);
                if j < before.len() {
                    assert(after[j] == before[j]);
                }
            }
            assert forall|i: int| 0 <= i < after.len() implies (#[trigger] after[i]).id >= 1
                && id_used(jobs, after[i].id) by {
                if i < before.len() {
                    assert(after[i] == before[i]);
                }
            }
        }
    }
}

/// Polling that tells nothing changes nothing: a stopped job stays stopped.
pub proof fn law_no_news_no_change(job: JobView, news: Seq<News>)
    requires
        news.len() == job.pids.len(),
        forall|i: int| 0 <= i < news.len() ==> #[trigger] news[i] is Nothing,
    ensures
        polled(job, news) == job,
{
    lemma_pids_stay(job.pids, news);
}

proof fn lemma_pids_stay(pids: Seq<i32>, news: Seq<News>)
    requires
        news.len() >= pids.len(),
        forall|i: int| 0 <= i < news.len() ==> #[trigger] news[i] is Nothing,
    ensures
        pids_left(pids, news) == pids,
    decreases pids.len(),
{
    if pids.len() > 0 {
        assert(news[pids.len() - 1] is Nothing);
        lemma_pids_stay(pids.drop_last(), news);
        assert(pids.drop_last().push(pids.last()) =~= pids);
    } else {
        assert(pids_left(pids, news) =~= pids);
    }
}

/// Jobs whose processes are all gone are dropped.
pub proof fn law_gone_jobs_are_dropped(jobs: Seq<JobView>, news: Seq<Seq<News>>)
    requires
        news.len() >= jobs.len(),
        forall|i: int|
            0 <= i < jobs.len() ==> (#[trigger] news[i]).len() == jobs[i].pids.len(),
        forall|i: int, k: int|
            0 <= i < jobs.len() && 0 <= k < news[i].len() ==> #[trigger] news[i][k] is Gone,
    ensures
        reaped(jobs, news) == Seq::<JobView>::empty(),
    decreases jobs.len(),
{
    if jobs.len() > 0 {
        let n = jobs.len() - 1;
        assert(news[n].len() == jobs[n].pids.len());
        assert forall|k: int| 0 <= k < news[n].len() implies #[trigger] news[n][k] is Gone by {}
        lemma_pids_go(jobs[n].pids, news[n]);
        law_gone_jobs_are_dropped(jobs.drop_last(), news);
    }
}

proof fn lemma_pids_go(pids: Seq<i32>, news: Seq<News>)
    requires
        news.len() >= pids.len(),
        forall|i: int| 0 <= i < news.len() ==> #[trigger] news[i] is Gone,
    ensures
        pids_left(pids, news).len() == 0,
    decreases pids.len(),
{
    if pids.len() > 0 {
        assert(news[pids.len() - 1] is Gone);
        lemma_pids_go(pids.drop_last(), news);
    }
}

/// The ids start at 1, and the lowest one that is free is used again.
pub proof fn law_lowest_id(jobs: Seq<JobView>, k: int, other: int)
    requires
        k >= 0,
        forall|n: int| 1 <= n <= k ==> #[trigger] id_used(jobs, n),
        forall|i: int| 0 <= i < jobs.len() ==> (#[trigger] jobs[i]).id != k + 1,
    ensures
        lowest_free(jobs, k + 1),
        lowest_free(jobs, other) ==> other == k + 1,
        lowest_free(Seq::empty(), other) <==> other == 1,
{
    assert(!id_used(jobs, k + 1));
    if lowest_free(jobs, other) {
        if other < k + 1 {
            assert(id_used(jobs, other));
        }
        if k + 1 < other {
            assert(id_used(jobs, k + 1));
        }
    }
    let none = Seq::<JobView>::empty();
    assert(!id_used(none, 1));
    if other > 1 {
        if lowest_free(none, other) {
            assert(id_used(none, 1));
        }
    }
}

/// A job is named by its number, with or without `%`; without a name the last
/// one is meant, and anything else names none.
pub proof fn law_jobs_are_named(jobs: Seq<JobView>, i: int, n: nat, text: Seq<char>, k: int)
    requires
        n <= usize::MAX,
    ensures
        job_at(jobs, None) == if jobs.len() == 0 {
            None
        } else {
            Some(jobs.len() - 1)
        },
        0 <= i < jobs.len() && jobs[i].id == n && (forall|j: int|
            0 <= j < i ==> (#[trigger] jobs[j]).id != n) ==> job_at(jobs, Some(digits(n))) == Some(i)
            && job_at(jobs, Some(seq!['%'] + digits(n))) == Some(i),
        (forall|j: int| 0 <= j < jobs.len() ==> (#[trigger] jobs[j]).id != n) ==> job_at(
            jobs,
            Some(digits(n)),
        ) is None && job_at(jobs, Some(seq!['%'] + digits(n))) is None,
        1 < k < text.len() && !('0' <= text[k] <= '9') ==> job_at(jobs, Some(text)) is None,
        text.len() > 0 && !('0' <= text[0] <= '9') && text[0] != '%' && text[0] != '+' && text[0]
            != '-' ==> job_at(jobs, Some(text)) is None,
        job_at(jobs, Some(Seq::empty())) is None,
{
    let max = usize::MAX as int;
    lemma_digits_are_digits(n);
    law_parse_reads_decimal(n as int, 0, max);
    let marked = seq!['%'] + digits(n);
    assert(marked.skip(1) =~= digits(n));
    assert(is_digit_char(digits(n)[0]));
    lemma_index_of_id(jobs, n as int, 0, i);
    law_parse_refuses(text, 0, n, 0, max);
    if 1 < k < text.len() {
        law_parse_refuses(text, k, n, 0, max);
        law_parse_refuses(text.skip(1), k - 1, n, 0, max);
        assert(text.skip(1)[k - 1] == text[k]);
    }
}

proof fn lemma_index_of_id(jobs: Seq<JobView>, id: int, from: int, i: int)
    requires
        0 <= from,
    ensures
        from <= i < jobs.len() && jobs[i].id == id && (forall|j: int|
            from <= j < i ==> (#[trigger] jobs[j]).id != id) ==> index_of_id(jobs, id, from) == Some(i),
        (forall|j: int| from <= j < jobs.len() ==> (#[trigger] jobs[j]).id != id) ==> index_of_id(
            jobs,
            id,
            from,
        ) is None,
    decreases jobs.len() - from,
{
    if from < jobs.len() {
        lemma_index_of_id(jobs, id, from + 1, i);
    }
}

/// A poll that returns the process tells that it stopped or is gone, one that
/// returns 0 tells nothing, and any other answer means that it is gone.
pub proof fn law_polls(pid: i32, rv: i32)
    ensures
        news_of(pid, pid, true) is Stopped,
        news_of(pid, pid, false) is Gone,
        pid != 0 ==> news_of(pid, 0, true) is Nothing && news_of(pid, 0, false) is Nothing,
        rv != pid && rv != 0 ==> news_of(pid, rv, true) is Gone && news_of(pid, rv, false) is Gone,
{
}

/// Only processes that are gone leave a job; one that stopped makes it a stopped
/// job, and nothing else about it changes.
pub proof fn law_polled_jobs(job: JobView, news: Seq<News>, pid: i32, more: News)
    requires
        news.len() == job.pids.len(),
    ensures
        ({
            let longer = JobView { pids: job.pids.push(pid), ..job };
            let before = polled(job, news);
            let after = polled(longer, news.push(more));
            &&& after.id == job.id && after.pgid == job.pgid && after.command_line
                == job.command_line
            &&& after.pids == if more is Gone {
                before.pids
            } else {
                before.pids.push(pid)
            }
            &&& after.state == if more is Stopped {
                JobState::Stopped
            } else {
                before.state
            }
        }),
        job.pids.len() == 0 ==> polled(job, news) == job,
{
    let pids = job.pids.push(pid);
    let all = news.push(more);
    let n = job.pids.len() as int;
    assert(pids.drop_last() =~= job.pids);
    lemma_pids_left_prefix(job.pids, news, all);
    assert(all[n] == more);
    if any_stopped(news, n) {
        let i = choose|i: int| 0 <= i < n && i < news.len() && #[trigger] news[i] is Stopped;
        assert(all[i] is Stopped);
    }
    if any_stopped(all, n + 1) && !(more is Stopped) {
        let i = choose|i: int| 0 <= i < n + 1 && i < all.len() && #[trigger] all[i] is Stopped;
        assert(news[i] is Stopped);
    }
    if job.pids.len() == 0 {
        assert(pids_left(job.pids, news) =~= job.pids);
    }
}

proof fn lemma_pids_left_prefix(pids: Seq<i32>, a: Seq<News>, b: Seq<News>)
    requires
        pids.len() <= a.len(),
        pids.len() <= b.len(),
        forall|i: int| 0 <= i < pids.len() ==> a[i] == b[i],
    ensures
        pids_left(pids, a) == pids_left(pids, b),
    decreases pids.len(),
{
    if pids.len() > 0 {
        lemma_pids_left_prefix(pids.drop_last(), a, b);
    }
}

/// The table keeps the jobs that have processes left, as they are after the
/// polls and in their order.
pub proof fn law_reaped_in_order(jobs: Seq<JobView>, news: Seq<Seq<News>>, job: JobView, more: Seq<News>)
    requires
        answers_all(jobs, news),
        more.len() == job.pids.len(),
    ensures
        reaped(jobs.push(job), news.push(more)) == if (forall|k: int|
            0 <= k < more.len() ==> #[trigger] more[k] is Gone) {
            reaped(jobs, news)
        } else {
            reaped(jobs, news).push(polled(job, more))
        },
        reaped(Seq::empty(), Seq::empty()) == Seq::<JobView>::empty(),
{
    let all = jobs.push(job);
    assert(all.drop_last() =~= jobs);
    lemma_reaped_prefix(jobs, news, news.push(more));
    if forall|k: int| 0 <= k < more.len() ==> #[trigger] more[k] is Gone {
        lemma_pids_go(job.pids, more);
    } else {
        let k = choose|k: int| 0 <= k < more.len() && !(#[trigger] more[k] is Gone);
        lemma_pid_stays(job.pids, more, k);
    }
}

proof fn lemma_pid_stays(pids: Seq<i32>, news: Seq<News>, k: int)
    requires
        0 <= k < pids.len() <= news.len(),
        !(news[k] is Gone),
    ensures
        pids_left(pids, news).len() > 0,
    decreases pids.len(),
{
    if k < pids.len() - 1 {
        lemma_pid_stays(pids.drop_last(), news, k);
    }
}

proof fn lemma_reaped_prefix(jobs: Seq<JobView>, a: Seq<Seq<News>>, b: Seq<Seq<News>>)
    requires
        jobs.len() <= a.len(),
        jobs.len() <= b.len(),
        forall|i: int| 0 <= i < jobs.len() ==> a[i] == b[i],
    ensures
        reaped(jobs, a) == reaped(jobs, b),
    decreases jobs.len(),
{
    if jobs.len() > 0 {
        lemma_reaped_prefix(jobs.drop_last(), a, b);
    }
}

} // verus!
