//! Waiting for children and moving jobs between foreground and background.

use vstd::prelude::*;

use crate::number::{decimal, digits, signed_text, unsigned_text};
use crate::shell::{job_at, job_views, same_but_jobs, Job, JobState, JobView, Shell};

verus! {

// ---------------------------------------------------------------------------
// Wait statuses.

/// `libc::WIFEXITED`: whether the status is that of a process that exited. A
/// status of 0 is one on every platform. Of the others nothing is said: each is
/// one on some platform, and none is one on all of them.
#[verifier::external_body]
pub(crate) fn wif_exited(status: i32) -> (r: bool)
    ensures
        status == 0 ==> r,
{
    libc::WIFEXITED(status)
}

/// `libc::WEXITSTATUS`: the exit code in a status. It is the status's second
/// byte or its first one, as the platform has it; one platform finds -1 in the
/// status of a process that did not exit, and one always 0. In a status of 0 it
/// is 0 on every platform.
#[verifier::external_body]
pub(crate) fn wexit_status(status: i32) -> (r: i32)
    ensures
        -1 <= r <= 0xff,
        r == (status >> 8) & 0xff || r == status & 0xff || r == 0 || r == -1,
        status == 0 ==> r == 0,
{
    libc::WEXITSTATUS(status)
}

/// `libc::WIFSIGNALED`: whether the status is that of a process that a signal
/// killed. On every platform such a status has a bit set in its low two bytes;
/// which of these are one depends on the platform.
#[verifier::external_body]
pub(crate) fn wif_signaled(status: i32) -> (r: bool)
    ensures
        r ==> status & 0xffff != 0,
        status == 0 ==> !r,
{
    libc::WIFSIGNALED(status)
}

/// `libc::WTERMSIG`: the signal that killed the process. It is the low seven
/// bits of the status, its second byte or its third one, as the platform has
/// it; one platform finds -1 in the status of a process that was not killed,
/// and one always 0.
#[verifier::external_body]
pub(crate) fn wterm_sig(status: i32) -> (r: i32)
    ensures
        -1 <= r <= 0xff,
        r == status & 0x7f || r == (status >> 8) & 0xff || r == (status >> 16) & 0xff || r == 0
            || r == -1,
{
    libc::WTERMSIG(status)
}

/// `libc::WIFSTOPPED`: whether the status is that of a process that a signal
/// stopped. On every platform such a status has the bit 0x40 or a bit of its
/// third byte set; which of these are one depends on the platform.
#[verifier::external_body]
pub(crate) fn wif_stopped(status: i32) -> (r: bool)
    ensures
        r ==> status & 0x40 != 0 || status & 0xff_0000 != 0,
        status == 0 ==> !r,
{
    libc::WIFSTOPPED(status)
}

/// `libc::WSTOPSIG`: the signal that stopped the process. It is all of the
/// status above its low byte, its second byte or its third one, as the platform
/// has it; one platform finds -1 in the status of a process that was not
/// stopped, and one always 0.
#[verifier::external_body]
pub(crate) fn wstop_sig(status: i32) -> (r: i32)
    ensures
        -0x80_0000 <= r <= 0x7f_ffff,
        r == status >> 8 || r == (status >> 8) & 0xff || r == (status >> 16) & 0xff || r == 0
            || r == -1,
{
    libc::WSTOPSIG(status)
}

/// What a wait status says of a process.
#[derive(Debug, Clone, Copy, PartialEq, Eq, Structural)]
pub enum Fate {
    Exited(i32),
    Killed(i32),
    Stopped(i32),
    /// Something else happened to it.
    Other,
}

impl Fate {
    /// Codes and signals lie where a wait status has room for them.
    pub open spec fn wf(self) -> bool {
        match self {
            Fate::Exited(code) => -1 <= code <= 0xff,
            Fate::Killed(signal) => -1 <= signal <= 0xff,
            Fate::Stopped(signal) => -0x80_0000 <= signal <= 0x7f_ffff,
            Fate::Other => true,
        }
    }

    /// The exit status of a process: its exit code, 128 and the signal that
    /// killed it, or 1.
    pub open spec fn exit_code(self) -> int {
        match self {
            Fate::Exited(code) => code as int,
            Fate::Killed(signal) => 128 + signal,
            _ => 1,
        }
    }
}

/// What the system reads out of a wait status.
#[derive(Debug, Clone, Copy, PartialEq, Eq, Structural)]
pub struct StatusReading {
    pub stopped: bool,
    pub stop_signal: i32,
    pub exited: bool,
    pub exit_code: i32,
    pub killed: bool,
    pub kill_signal: i32,
}

impl StatusReading {
    /// Codes and signals lie where a wait status has room for them.
    pub open spec fn wf(self) -> bool {
        &&& -0x80_0000 <= self.stop_signal <= 0x7f_ffff
        &&& -1 <= self.exit_code <= 0xff
        &&& -1 <= self.kill_signal <= 0xff
    }

    /// The reading is one that some platform may give of `status`: what it
    /// finds stands in the bits where platforms keep it.
    pub open spec fn may_be_of(self, status: i32) -> bool {
        &&& self.stopped ==> status & 0x40 != 0 || status & 0xff_0000 != 0
        &&& self.killed ==> status & 0xffff != 0
        &&& {
            ||| self.stop_signal == status >> 8
            ||| self.stop_signal == (status >> 8) & 0xff
            ||| self.stop_signal == (status >> 16) & 0xff
            ||| self.stop_signal == 0
            ||| self.stop_signal == -1
        }
        &&& {
            ||| self.exit_code == (status >> 8) & 0xff
            ||| self.exit_code == status & 0xff
            ||| self.exit_code == 0
            ||| self.exit_code == -1
        }
        &&& {
            ||| self.kill_signal == status & 0x7f
            ||| self.kill_signal == (status >> 8) & 0xff
            ||| self.kill_signal == (status >> 16) & 0xff
            ||| self.kill_signal == 0
            ||| self.kill_signal == -1
        }
        &&& status == 0 ==> self.exited && self.exit_code == 0 && !self.killed && !self.stopped
    }

    /// The exit status that the reading stands for: an exit is asked for
    /// first, then a kill; with neither it is 1.
    pub open spec fn code(self) -> int {
        if self.exited {
            self.exit_code as int
        } else if self.killed {
            128 + self.kill_signal
        } else {
            1
        }
    }

    /// What the reading says of the process: a stop is asked for first, then
    /// an exit, then a kill.
    pub open spec fn fate(self) -> Fate {
        if self.stopped {
            Fate::Stopped(self.stop_signal)
        } else if self.exited {
            Fate::Exited(self.exit_code)
        } else if self.killed {
            Fate::Killed(self.kill_signal)
        } else {
            Fate::Other
        }
    }
}

/// What the system reads out of a wait status. A status of 0 is that of a
/// process that exited with 0; which of the readings that platforms give of the
/// others it is depends on the platform.
pub fn read_status(status: i32) -> (r: StatusReading)
    ensures
        r.wf(),
        r.may_be_of(status),
{
    StatusReading {
        stopped: wif_stopped(status),
        stop_signal: wstop_sig(status),
        exited: wif_exited(status),
        exit_code: wexit_status(status),
        killed: wif_signaled(status),
        kill_signal: wterm_sig(status),
    }
}

/// What a reading says of a process.
pub fn fate_from(reading: StatusReading) -> (r: Fate)
    requires
        reading.wf(),
    ensures
        r == reading.fate(),
        r.wf(),
{
    if reading.stopped {
        Fate::Stopped(reading.stop_signal)
    } else if reading.exited {
        Fate::Exited(reading.exit_code)
    } else if reading.killed {
        Fate::Killed(reading.kill_signal)
    } else {
        Fate::Other
    }
}

/// What a wait status says of a process. How a status is encoded depends on
/// the platform; [`fate_from`] says what is made of its reading.
pub fn fate_of(status: i32) -> (r: Fate)
    ensures
        r.wf(),
        exists|reading: StatusReading|
            reading.wf() && #[trigger] reading.may_be_of(status) && r == reading.fate(),
        status == 0 ==> r == Fate::Exited(0),
{
    fate_from(read_status(status))
}

/// The exit status that a process's fate stands for.
pub fn exit_code_of(fate: Fate) -> (r: i32)
    requires
        fate.wf(),
    ensures
        r == fate.exit_code(),
{
    match fate {
        Fate::Exited(code) => code,
        Fate::Killed(signal) => 128 + signal,
        _ => 1,
    }
}

/// The exit status that a reading stands for.
pub fn exit_code_from(reading: StatusReading) -> (r: i32)
    requires
        reading.wf(),
    ensures
        r == reading.code(),
{
    if reading.exited {
        reading.exit_code
    } else if reading.killed {
        128 + reading.kill_signal
    } else {
        1
    }
}

/// The exit status that a raw wait status stands for. How a status is encoded
/// depends on the platform; [`exit_code_from`] says what is made of its reading.
pub fn exit_code_from_raw(status: i32) -> (r: i32)
    ensures
        exists|reading: StatusReading|
            reading.wf() && #[trigger] reading.may_be_of(status) && r == reading.code(),
        -1 <= r <= 383,
        status == 0 ==> r == 0,
{
    exit_code_from(read_status(status))
}

/// The exit status of a child whose exit code or whose killing signal the
/// standard library tells: the signal wins, and with neither the status is 1.
pub open spec fn reported_code(code: Option<i32>, signal: Option<i32>) -> int {
    match signal {
        Some(signal) => 128 + signal,
        None => match code {
            Some(code) => code as int,
            None => 1,
        },
    }
}

/// The exit status of a child whose exit code or whose killing signal the
/// standard library tells.
pub fn exit_code(code: Option<i32>, signal: Option<i32>) -> (r: i32)
    requires
        signal matches Some(signal) ==> signal <= i32::MAX - 128,
    ensures
        r == reported_code(code, signal),
{
    match signal {
        Some(signal) => 128 + signal,
        None => match code {
            Some(code) => code,
            None => 1,
        },
    }
}

/// Outcome of waiting for one child.
#[derive(Debug, Clone, Copy, PartialEq, Eq, Structural)]
pub struct WaitOutcome {
    pub status: i32,
    /// The child was stopped (Ctrl+Z) and left stopped.
    pub stopped: bool,
}

/// `libc::SIGTSTP`: the number of the signal that Ctrl+Z sends, a small
/// positive number.
#[verifier::external_body]
pub(crate) fn terminal_stop_signal() -> (r: i32)
    ensures
        0 < r <= 0xff,
{
    libc::SIGTSTP
}

/// What waiting for a child came to, when it met `fate`: a stop leaves the
/// child behind with 128 and the signal `tstp`, anything else ends it.
pub open spec fn wait_result(fate: Fate, tstp: i32) -> WaitOutcome {
    match fate {
        Fate::Stopped(_) => WaitOutcome { status: (128 + tstp) as i32, stopped: true },
        _ => WaitOutcome { status: fate.exit_code() as i32, stopped: false },
    }
}

/// What waiting for a child came to, with the signal of Ctrl+Z given.
pub fn wait_outcome_with(fate: Fate, tstp: i32) -> (r: WaitOutcome)
    requires
        fate.wf(),
        0 <= tstp <= 0xff,
    ensures
        r == wait_result(fate, tstp),
        r.status == if fate is Stopped {
            128 + tstp
        } else {
            fate.exit_code()
        },
{
    match fate {
        Fate::Stopped(_) => WaitOutcome { status: 128 + tstp, stopped: true },
        _ => WaitOutcome { status: exit_code_of(fate), stopped: false },
    }
}

/// What waiting for a child came to, when it met `fate`: Ctrl+Z must not hang
/// the shell, so a stopped child is simply left behind.
pub fn wait_outcome(fate: Fate) -> (r: WaitOutcome)
    requires
        fate.wf(),
    ensures
        r.stopped == (fate is Stopped),
        !r.stopped ==> r.status == fate.exit_code(),
        r.stopped ==> 128 < r.status <= 383,
        exists|tstp: i32| 0 < tstp <= 0xff && r == #[trigger] wait_result(fate, tstp),
{
    let tstp = terminal_stop_signal();
    wait_outcome_with(fate, tstp)
}

// ---------------------------------------------------------------------------
// Waiting for the processes of a pipeline.

/// How far waiting for the processes of a pipeline has come.
#[derive(Debug, Clone, Copy, PartialEq, Eq, Structural)]
pub struct WaitState {
    /// Processes waited for.
    pub waited: usize,
    /// The status so far.
    pub status: i32,
    /// The process that was found stopped, if one was.
    pub stopped_at: Option<usize>,
}

/// Nothing waited for yet.
pub open spec fn not_waited() -> WaitState {
    WaitState { waited: 0, status: 0, stopped_at: None }
}

/// `state` after the next process of a foreground job was waited for. A
/// process that is not there any more (`None`) changes nothing; a stop ends
/// the wait.
pub open spec fn job_waited(state: WaitState, fate: Option<Fate>) -> WaitState {
    match fate {
        None => WaitState { waited: (state.waited + 1) as usize, ..state },
        Some(Fate::Stopped(signal)) => WaitState {
            waited: (state.waited + 1) as usize,
            status: (128 + signal) as i32,
            stopped_at: Some(state.waited),
        },
        Some(fate) => WaitState {
            waited: (state.waited + 1) as usize,
            status: fate.exit_code() as i32,
            ..state
        },
    }
}

/// `state` after the next of `count` stages of a pipeline was waited for. The
/// last stage decides the status, unless a stop ends the wait before.
pub open spec fn stage_waited(state: WaitState, count: int, outcome: WaitOutcome) -> WaitState {
    WaitState {
        waited: (state.waited + 1) as usize,
        status: if state.waited + 1 == count || outcome.stopped {
            outcome.status
        } else {
            state.status
        },
        stopped_at: if outcome.stopped {
            Some(state.waited)
        } else {
            state.stopped_at
        },
    }
}

impl WaitState {
    pub fn new() -> (r: WaitState)
        ensures
            r == not_waited(),
    {
        WaitState { waited: 0, status: 0, stopped_at: None }
    }

    /// Whether a process of `count` is left to wait for.
    pub fn goes_on(&self, count: usize) -> (r: bool)
        ensures
            r == (self.stopped_at is None && self.waited < count),
    {
        self.stopped_at.is_none() && self.waited < count
    }

    /// The next process of a foreground job was waited for; `None` when it was
    /// not there any more.
    pub fn saw_process(&mut self, fate: Option<Fate>)
        requires
            old(self).waited < usize::MAX,
            fate matches Some(fate) ==> fate.wf(),
        ensures
            *final(self) == job_waited(*old(self), fate),
    {
        match fate {
            None => {},
            Some(Fate::Stopped(signal)) => {
                self.status = 128 + signal;
                self.stopped_at = Some(self.waited);
            },
            Some(fate) => {
                self.status = exit_code_of(fate);
            },
        }
        self.waited = self.waited + 1;
    }

    /// The next of `count` stages of a pipeline was waited for.
    pub fn saw_stage(&mut self, count: usize, outcome: WaitOutcome)
        requires
            old(self).waited < count,
        ensures
            *final(self) == stage_waited(*old(self), count as int, outcome),
    {
        let index: usize = self.waited;
        self.waited = index + 1;
        if index + 1 == count || outcome.stopped {
            self.status = outcome.status;
        }
        if outcome.stopped {
            self.stopped_at = Some(index);
        }
    }
}

// ---------------------------------------------------------------------------
// Messages.

/// `[id]+ Stopped  label`
pub open spec fn stopped_text(id: int, label: Seq<char>) -> Seq<char> {
    "["@ + digits(id as nat) + "]+ Stopped  "@ + label
}

/// `[id]  label`
pub open spec fn continued_text(id: int, label: Seq<char>) -> Seq<char> {
    "["@ + digits(id as nat) + "]  "@ + label
}

/// `[id] pgid`
pub open spec fn started_text(id: int, pgid: int) -> Seq<char> {
    "["@ + digits(id as nat) + "] "@ + decimal(pgid)
}

/// The line that tells that a job stopped.
pub fn stopped_line(id: usize, label: &str) -> (r: String)
    ensures
        r@ == stopped_text(id as int, label@),
{
    String::from_str("[").concat(unsigned_text(id as u64).as_str()).concat("]+ Stopped  ").concat(
        label,
    )
}

/// The line that tells that a job goes on in the background.
pub fn continued_line(id: usize, label: &str) -> (r: String)
    ensures
        r@ == continued_text(id as int, label@),
{
    String::from_str("[").concat(unsigned_text(id as u64).as_str()).concat("]  ").concat(label)
}

/// The line that tells that a job was started in the background.
pub fn started_line(id: usize, pgid: i32) -> (r: String)
    ensures
        r@ == started_text(id as int, pgid as int),
{
    String::from_str("[").concat(unsigned_text(id as u64).as_str()).concat("] ").concat(
        signed_text(pgid as i64).as_str(),
    )
}

// ---------------------------------------------------------------------------
// fg and bg.

/// The table with the job at `i` running.
pub open spec fn with_running(jobs: Seq<JobView>, i: int) -> Seq<JobView> {
    jobs.update(i, JobView { state: JobState::Running, ..jobs[i] })
}

/// The table with the job at `i` stopped and only its processes from `from`
/// on left.
pub open spec fn with_stopped(jobs: Seq<JobView>, i: int, from: int) -> Seq<JobView> {
    jobs.update(
        i,
        JobView {
            state: JobState::Stopped,
            pids: jobs[i].pids.skip(from),
            ..jobs[i]
        },
    )
}

/// The text of an optional argument.
pub open spec fn arg_text(arg: Option<&str>) -> Option<Seq<char>> {
    match arg {
        Some(text) => Some(text@),
        None => None,
    }
}

/// The pids from `from` on: those that a job tracks whose process there was
/// found stopped.
pub fn pids_from(pids: &[i32], from: usize) -> (r: Vec<i32>)
    requires
        from <= pids@.len(),
    ensures
        r@ == pids@.skip(from as int),
{
    let mut out: Vec<i32> = Vec::new();
    let mut i: usize = from;
    while i < pids.len()
        invariant
            from <= i <= pids@.len(),
            out@ == pids@.subrange(from as int, i as int),
        decreases pids.len() - i,
    {
        out.push(pids[i]);
        proof {
            assert(out@ =~= pids@.subrange(from as int, i + 1));
        }
        i += 1;
    }
    proof {
        assert(pids@.subrange(from as int, pids@.len() as int) =~= pids@.skip(from as int));
    }
    out
}

impl Shell {
    /// Put the job at `index` into a state, with its processes from `from` on.
    fn set_job(&mut self, index: usize, state: JobState, from: usize)
        requires
            index < old(self).jobs@.len(),
            from <= old(self).jobs@[index as int].pids@.len(),
        ensures
            job_views(final(self).jobs@) == job_views(old(self).jobs@).update(
                index as int,
                JobView {
                    state,
                    pids: old(self).jobs@[index as int].pids@.skip(from as int),
                    ..old(self).jobs@[index as int]@
                },
            ),
            same_but_jobs(*old(self), *final(self)),
    {
        let ghost all = job_views(self.jobs@);
        let job = Job {
            id: self.jobs[index].id,
            pgid: self.jobs[index].pgid,
            pids: pids_from(self.jobs[index].pids.as_slice(), from),
            command_line: self.jobs[index].command_line.clone(),
            state,
        };
        self.jobs.set(index, job);
        proof {
            assert(job_views(self.jobs@) =~= all.update(index as int, job@));
        }
    }

    /// `fg [%n]`, once finished jobs are reaped: the index of the job to
    /// continue and wait for, which runs from now on. Without such a job a
    /// message is written and the status is 1.
    pub fn foreground(&mut self, spec: Option<&str>, out: &mut String) -> (r: Result<usize, i32>)
        ensures
            same_but_jobs(*old(self), *final(self)),
            match job_at(job_views(old(self).jobs@), arg_text(spec)) {
                Some(i) => {
                    &&& r matches Ok(index)
                    &&& index == i
                    &&& index < old(self).jobs@.len()
                    &&& job_views(final(self).jobs@) == with_running(job_views(old(self).jobs@), i)
                    &&& final(out)@ == old(out)@
                },
                None => {
                    &&& r == Err::<usize, i32>(1)
                    &&& final(self).jobs == old(self).jobs
                    &&& final(out)@ == old(out)@ + "comma-shell: fg: no such job\n"@
                },
            },
    {
        match self.job_index(spec) {
            None => {
                out.append("comma-shell: fg: no such job\n");
                Err(1)
            },
            Some(index) => {
                let ghost all = job_views(self.jobs@);
                self.set_job(index, JobState::Running, 0);
                proof {
                    let job = old(self).jobs@[index as int];
                    assert(job.pids@.skip(0) =~= job.pids@);
                    assert(job_views(self.jobs@) =~= with_running(all, index as int));
                }
                Ok(index)
            },
        }
    }

    /// The wait for the foreground job at `index` ended: a job that stopped
    /// stays in the table with the processes from the stopped one on, any
    /// other leaves it. Returns the status of the job.
    pub fn end_foreground(&mut self, index: usize, wait: WaitState, out: &mut String) -> (r: i32)
        requires
            index < old(self).jobs@.len(),
            wait.stopped_at matches Some(k) ==> k <= old(self).jobs@[index as int].pids@.len(),
        ensures
            r == wait.status,
            same_but_jobs(*old(self), *final(self)),
            match wait.stopped_at {
                Some(k) => {
                    let job = job_views(old(self).jobs@)[index as int];
                    &&& job_views(final(self).jobs@) == with_stopped(
                        job_views(old(self).jobs@),
                        index as int,
                        k as int,
                    )
                    &&& final(out)@ == old(out)@ + stopped_text(job.id, job.command_line) + "\n"@
                },
                None => {
                    &&& job_views(final(self).jobs@) == job_views(old(self).jobs@).remove(
                        index as int,
                    )
                    &&& final(out)@ == old(out)@
                },
            },
    {
        let ghost all = job_views(self.jobs@);
        match wait.stopped_at {
            Some(k) => {
                let line = stopped_line(
                    self.jobs[index].id,
                    self.jobs[index].command_line.as_str(),
                );
                self.set_job(index, JobState::Stopped, k);
                out.append(line.as_str());
                out.append("\n");
                proof {
                    assert(job_views(self.jobs@) =~= with_stopped(all, index as int, k as int));
                }
            },
            None => {
                self.jobs.remove(index);
                proof {
                    assert(job_views(self.jobs@) =~= all.remove(index as int));
                }
            },
        }
        wait.status
    }

    /// `bg [%n]`, once finished jobs are reaped: the index of the job to
    /// continue, which runs from now on, with a line that says so. Without
    /// such a job a message is written and the status is 1.
    pub fn background(&mut self, spec: Option<&str>, out: &mut String) -> (r: Result<usize, i32>)
        ensures
            same_but_jobs(*old(self), *final(self)),
            match job_at(job_views(old(self).jobs@), arg_text(spec)) {
                Some(i) => {
                    let job = job_views(old(self).jobs@)[i];
                    &&& r matches Ok(index)
                    &&& index == i
                    &&& index < old(self).jobs@.len()
                    &&& job_views(final(self).jobs@) == with_running(job_views(old(self).jobs@), i)
                    &&& final(out)@ == old(out)@ + continued_text(job.id, job.command_line) + "\n"@
                },
                None => {
                    &&& r == Err::<usize, i32>(1)
                    &&& final(self).jobs == old(self).jobs
                    &&& final(out)@ == old(out)@ + "comma-shell: bg: no such job\n"@
                },
            },
    {
        match self.job_index(spec) {
            None => {
                out.append("comma-shell: bg: no such job\n");
                Err(1)
            },
            Some(index) => {
                let ghost all = job_views(self.jobs@);
                let line = continued_line(
                    self.jobs[index].id,
                    self.jobs[index].command_line.as_str(),
                );
                self.set_job(index, JobState::Running, 0);
                out.append(line.as_str());
                out.append("\n");
                proof {
                    let job = old(self).jobs@[index as int];
                    assert(job.pids@.skip(0) =~= job.pids@);
                    assert(job_views(self.jobs@) =~= with_running(all, index as int));
                }
                Ok(index)
            },
        }
    }
}

// ---------------------------------------------------------------------------
// Laws.

/// The state after the stages of a pipeline, `count` in all, came to
/// `outcomes`.
pub open spec fn stages_waited(outcomes: Seq<WaitOutcome>, count: int) -> WaitState
    decreases outcomes.len(),
{
    if outcomes.len() == 0 {
        not_waited()
    } else {
        stage_waited(stages_waited(outcomes.drop_last(), count), count, outcomes.last())
    }
}

/// Without a stop, a pipeline's status is that of its last stage.
pub proof fn law_last_stage_decides(outcomes: Seq<WaitOutcome>)
    requires
        0 < outcomes.len() <= usize::MAX,
        forall|i: int| 0 <= i < outcomes.len() ==> !(#[trigger] outcomes[i]).stopped,
    ensures
        stages_waited(outcomes, outcomes.len() as int).status == outcomes.last().status,
        stages_waited(outcomes, outcomes.len() as int).stopped_at is None,
{
    let n = outcomes.len() as int;
    lemma_no_stop(outcomes, n);
    lemma_no_stop(outcomes.drop_last(), n);
    assert(!outcomes[n - 1].stopped);
}

proof fn lemma_no_stop(outcomes: Seq<WaitOutcome>, count: int)
    requires
        outcomes.len() <= count <= usize::MAX,
        forall|i: int| 0 <= i < outcomes.len() ==> !(#[trigger] outcomes[i]).stopped,
    ensures
        stages_waited(outcomes, count).waited == outcomes.len(),
        stages_waited(outcomes, count).stopped_at is None,
    decreases outcomes.len(),
{
    if outcomes.len() > 0 {
        let head = outcomes.drop_last();
        assert forall|i: int| 0 <= i < head.len() implies !(#[trigger] head[i]).stopped by {
            assert(!outcomes[i].stopped);
        }
        assert(!outcomes[outcomes.len() - 1].stopped);
        lemma_no_stop(head, count);
    }
}

/// A stop at a stage ends the wait there, with the stop's status.
pub proof fn law_stop_ends_the_wait(outcomes: Seq<WaitOutcome>, count: int)
    requires
        0 < outcomes.len() <= count <= usize::MAX,
        forall|i: int| 0 <= i < outcomes.len() - 1 ==> !(#[trigger] outcomes[i]).stopped,
        outcomes.last().stopped,
    ensures
        stages_waited(outcomes, count).status == outcomes.last().status,
        stages_waited(outcomes, count).stopped_at == Some((outcomes.len() - 1) as usize),
{
    let head = outcomes.drop_last();
    assert forall|i: int| 0 <= i < head.len() implies !(#[trigger] head[i]).stopped by {
        assert(!outcomes[i].stopped);
    }
    lemma_no_stop(head, count);
}

/// The exit status of a process that did not stop is the one that its wait
/// status stands for.
pub proof fn law_fate_keeps_the_code(reading: StatusReading)
    requires
        !reading.stopped,
    ensures
        reading.fate().exit_code() == reading.code(),
{
}

/// Whether the process was found stopped.
pub open spec fn is_stop(fate: Option<Fate>) -> bool {
    fate matches Some(Fate::Stopped(_))
}

/// The state once the processes of a foreground job, which met `fates`, were
/// waited for in order, until one was found stopped.
pub open spec fn processes_waited(fates: Seq<Option<Fate>>) -> WaitState
    decreases fates.len(),
{
    if fates.len() == 0 {
        not_waited()
    } else {
        let before = processes_waited(fates.drop_last());
        if before.stopped_at is Some {
            before
        } else {
            job_waited(before, fates.last())
        }
    }
}

/// The first process of a job that is found stopped ends the wait, with 128 and
/// its signal.
pub proof fn law_first_stop_ends_the_job_wait(fates: Seq<Option<Fate>>, k: int)
    requires
        fates.len() <= usize::MAX,
        0 <= k < fates.len(),
        is_stop(fates[k]),
        fates[k]->0.wf(),
        forall|i: int| 0 <= i < k ==> !is_stop(#[trigger] fates[i]),
    ensures
        processes_waited(fates).stopped_at == Some(k as usize),
        processes_waited(fates).waited == k + 1,
        processes_waited(fates).status == 128 + fates[k]->0->Stopped_0,
    decreases fates.len(),
{
    let head = fates.drop_last();
    if k == fates.len() - 1 {
        assert forall|i: int| 0 <= i < head.len() implies !is_stop(#[trigger] head[i]) by {
            assert(!is_stop(fates[i]));
        }
        lemma_no_process_stops(head);
    } else {
        assert forall|i: int| 0 <= i < k implies !is_stop(#[trigger] head[i]) by {
            assert(!is_stop(fates[i]));
        }
        law_first_stop_ends_the_job_wait(head, k);
    }
}

/// Without a stop, the last process of a job that was still there decides the
/// status.
pub proof fn law_last_process_decides(fates: Seq<Option<Fate>>, k: int)
    requires
        fates.len() <= usize::MAX,
        forall|i: int| 0 <= i < fates.len() ==> !is_stop(#[trigger] fates[i]),
        0 <= k < fates.len(),
        fates[k] matches Some(fate) && fate.wf(),
        forall|i: int| k < i < fates.len() ==> (#[trigger] fates[i]) is None,
    ensures
        processes_waited(fates).stopped_at is None,
        processes_waited(fates).waited == fates.len(),
        processes_waited(fates).status == fates[k]->0.exit_code(),
    decreases fates.len(),
{
    let head = fates.drop_last();
    assert forall|i: int| 0 <= i < head.len() implies !is_stop(#[trigger] head[i]) by {
        assert(!is_stop(fates[i]));
    }
    lemma_no_process_stops(head);
    assert(!is_stop(fates[fates.len() - 1]));
    if k < fates.len() - 1 {
        assert forall|i: int| k < i < head.len() implies (#[trigger] head[i]) is None by {
            assert(fates[i] is None);
        }
        law_last_process_decides(head, k);
        assert(fates[fates.len() - 1] is None);
    }
}

/// A job none of whose processes is there any more comes to 0.
pub proof fn law_gone_job_is_0(fates: Seq<Option<Fate>>)
    requires
        fates.len() <= usize::MAX,
        forall|i: int| 0 <= i < fates.len() ==> (#[trigger] fates[i]) is None,
    ensures
        processes_waited(fates) == (WaitState { waited: fates.len() as usize, ..not_waited() }),
    decreases fates.len(),
{
    if fates.len() > 0 {
        let head = fates.drop_last();
        assert forall|i: int| 0 <= i < head.len() implies (#[trigger] head[i]) is None by {
            assert(fates[i] is None);
        }
        law_gone_job_is_0(head);
        assert(fates[fates.len() - 1] is None);
    }
}

proof fn lemma_no_process_stops(fates: Seq<Option<Fate>>)
    requires
        fates.len() <= usize::MAX,
        forall|i: int| 0 <= i < fates.len() ==> !is_stop(#[trigger] fates[i]),
    ensures
        processes_waited(fates).waited == fates.len(),
        processes_waited(fates).stopped_at is None,
    decreases fates.len(),
{
    if fates.len() > 0 {
        let head = fates.drop_last();
        assert forall|i: int| 0 <= i < head.len() implies !is_stop(#[trigger] head[i]) by {
            assert(!is_stop(fates[i]));
        }
        assert(!is_stop(fates[fates.len() - 1]));
        lemma_no_process_stops(head);
    }
}

/// The exit status: the code of a process that exited, 128 more than the signal
/// of one that was killed, and 1 where neither is known. A stop comes before an
/// exit and an exit before a kill.
pub proof fn law_exit_statuses(n: i32, reading: StatusReading, code: Option<i32>, tstp: i32)
    requires
        -1 <= n <= 0xff,
        reading.wf(),
        0 < tstp <= 0xff,
    ensures
        Fate::Exited(n).exit_code() == n,
        Fate::Killed(n).exit_code() == 128 + n,
        Fate::Stopped(n).exit_code() == 1,
        Fate::Other.exit_code() == 1,
        reading.stopped ==> reading.fate() == Fate::Stopped(reading.stop_signal),
        !reading.stopped && reading.exited ==> reading.fate() == Fate::Exited(reading.exit_code),
        !reading.stopped && !reading.exited && reading.killed ==> reading.fate() == Fate::Killed(
            reading.kill_signal,
        ),
        !reading.stopped && !reading.exited && !reading.killed ==> reading.fate() == Fate::Other,
        reading.exited ==> reading.code() == reading.exit_code,
        !reading.exited && reading.killed ==> reading.code() == 128 + reading.kill_signal,
        !reading.exited && !reading.killed ==> reading.code() == 1,
        reported_code(code, Some(n)) == 128 + n,
        reported_code(Some(n), None) == n,
        reported_code(None, None) == 1,
        wait_result(Fate::Stopped(n), tstp) == (WaitOutcome {
            status: (128 + tstp) as i32,
            stopped: true,
        }),
        wait_result(Fate::Exited(n), tstp) == (WaitOutcome { status: n, stopped: false }),
        wait_result(Fate::Killed(n), tstp) == (WaitOutcome {
            status: (128 + n) as i32,
            stopped: false,
        }),
        wait_result(Fate::Other, tstp) == (WaitOutcome { status: 1, stopped: false }),
{
}

/// What is told of a job that stopped, goes on in the background, or was started
/// there.
pub proof fn law_job_messages(id: nat, label: Seq<char>, pgid: nat)
    ensures
        stopped_text(id as int, label) == seq!['['] + digits(id) + seq![
            ']', '+', ' ', 'S', 't', 'o', 'p', 'p', 'e', 'd', ' ', ' ',
        ] + label,
        continued_text(id as int, label) == seq!['['] + digits(id) + seq![']', ' ', ' '] + label,
        started_text(id as int, pgid as int) == seq!['['] + digits(id) + seq![']', ' '] + digits(pgid),
{
    reveal_strlit("[");
    reveal_strlit("]+ Stopped  ");
    reveal_strlit("]  ");
    reveal_strlit("] ");
    assert("["@ =~= seq!['[']);
    assert("]+ Stopped  "@ =~= seq![
        ']', '+', ' ', 'S', 't', 'o', 'p', 'p', 'e', 'd', ' ', ' ',
    ]);
    assert("]  "@ =~= seq![']', ' ', ' ']);
    assert("] "@ =~= seq![']', ' ']);
}

/// A job that is continued keeps all but its state; one that stopped keeps its
/// processes from the stopped one on. The other jobs stay as they are.
pub proof fn law_continued_and_stopped_jobs(jobs: Seq<JobView>, i: int, from: int, k: int, p: int)
    requires
        0 <= i < jobs.len(),
        0 <= k < jobs.len(),
        0 <= from <= jobs[i].pids.len(),
    ensures
        ({
            let running = with_running(jobs, i);
            let stopped = with_stopped(jobs, i, from);
            &&& running.len() == jobs.len() && stopped.len() == jobs.len()
            &&& k != i ==> running[k] == jobs[k] && stopped[k] == jobs[k]
            &&& running[i].state is Running && stopped[i].state is Stopped
            &&& running[i].id == jobs[i].id && stopped[i].id == jobs[i].id
            &&& running[i].pgid == jobs[i].pgid && stopped[i].pgid == jobs[i].pgid
            &&& running[i].command_line == jobs[i].command_line && stopped[i].command_line
                == jobs[i].command_line
            &&& running[i].pids == jobs[i].pids
            &&& stopped[i].pids.len() == jobs[i].pids.len() - from
            &&& 0 <= p < stopped[i].pids.len() ==> stopped[i].pids[p] == jobs[i].pids[from + p]
        }),
{
}

} // verus!
