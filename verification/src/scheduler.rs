//! The task engine's decision logic: per-job retry bookkeeping and the
//! run-wide admission and completion accounting. The surrounding runtime
//! performs the actual network attempts and waits; every decision about
//! what happens next is taken here.

use vstd::prelude::*;

verus! {

/// What one attempt of the external operation came back with.
pub enum AttemptOutcome {
    /// The operation-specific success signal.
    Success,
    /// The operation answered, but not with the success signal.
    Rejected,
    /// The operation did not answer: a transport error or a timeout.
    TransportFailure,
}

impl AttemptOutcome {
    /// Both rejections and transport failures are recoverable: they
    /// spend one retry rather than ending the run.
    pub open spec fn is_success(self) -> bool {
        self is Success
    }
}

/// The success signal of the account-creation operation: the one
/// status code that yields a record.
pub fn is_success_status(status: u16) -> (r: bool)
    ensures
        r <==> status == 201,
{
    status == 201
}

/// Where a job stands.
#[derive(PartialEq, Eq, Structural)]
pub enum JobStatus {
    /// Attempts remain and none has succeeded yet.
    Running,
    /// An attempt succeeded; a record was produced.
    Succeeded,
    /// Every allowed attempt failed.
    Failed,
}

/// The retry bookkeeping of one job.
pub struct JobState {
    pub retries_left: u32,
    pub attempts: u32,
    pub status: JobStatus,
}

/// A fresh job that may attempt the operation up to `max_retries`
/// times. A job with no retries allowed is already failed: it will
/// never attempt anything.
pub fn job_start(max_retries: u32) -> (s: JobState)
    ensures
        s == spec_job_start(max_retries),
{
    JobState {
        retries_left: max_retries,
        attempts: 0,
        status: if max_retries == 0 {
            JobStatus::Failed
        } else {
            JobStatus::Running
        },
    }
}

/// The starting state of a job allowed `max_retries` attempts.
pub open spec fn spec_job_start(max_retries: u32) -> JobState {
    JobState {
        retries_left: max_retries,
        attempts: 0,
        status: if max_retries == 0 {
            JobStatus::Failed
        } else {
            JobStatus::Running
        },
    }
}

/// The state after one attempt concludes: a success ends the job
/// successfully; anything else spends one retry, and spending the last
/// one fails the job permanently.
pub open spec fn spec_job_step(s: JobState, success: bool) -> JobState
    recommends
        s.status == JobStatus::Running,
        s.retries_left > 0,
        s.attempts < u32::MAX,
{
    if success {
        JobState {
            retries_left: s.retries_left,
            attempts: (s.attempts + 1) as u32,
            status: JobStatus::Succeeded,
        }
    } else {
        JobState {
            retries_left: (s.retries_left - 1) as u32,
            attempts: (s.attempts + 1) as u32,
            status: if s.retries_left == 1 {
                JobStatus::Failed
            } else {
                JobStatus::Running
            },
        }
    }
}

/// Accounts one concluded attempt for a running job.
pub fn job_step(s: &JobState, outcome: &AttemptOutcome) -> (t: JobState)
    requires
        s.status == JobStatus::Running,
        s.retries_left > 0,
        s.attempts < u32::MAX,
    ensures
        t == spec_job_step(*s, outcome.is_success()),
{
    match outcome {
        AttemptOutcome::Success => JobState {
            retries_left: s.retries_left,
            attempts: s.attempts + 1,
            status: JobStatus::Succeeded,
        },
        _ => JobState {
            retries_left: s.retries_left - 1,
            attempts: s.attempts + 1,
            status: if s.retries_left == 1 {
                JobStatus::Failed
            } else {
                JobStatus::Running
            },
        },
    }
}

/// Whether a job still gets an attempt.
pub fn job_may_attempt(s: &JobState) -> (r: bool)
    ensures
        r <==> (s.status == JobStatus::Running && s.retries_left > 0),
{
    matches!(s.status, JobStatus::Running) && s.retries_left > 0
}

/// The job state after a sequence of attempt outcomes, each applied
/// only while the job is still running with retries left.
pub open spec fn spec_job_run(s: JobState, outcomes: Seq<bool>) -> JobState
    decreases outcomes.len(),
{
    if outcomes.len() == 0 || s.status != JobStatus::Running || s.retries_left == 0
        || s.attempts >= u32::MAX {
        s
    } else {
        spec_job_run(spec_job_step(s, outcomes[0]), outcomes.drop_first())
    }
}

/// Law: a job allowed `r` retries whose attempts all come back
/// recoverable performs exactly `r` attempts and ends permanently
/// failed.
pub proof fn lemma_job_all_failures(r: u32, outcomes: Seq<bool>)
    requires
        0 < r,
        r <= outcomes.len(),
        forall|i: int| 0 <= i < outcomes.len() ==> !outcomes[i],
    ensures
        spec_job_run(spec_job_start(r), outcomes).status == JobStatus::Failed,
        spec_job_run(spec_job_start(r), outcomes).attempts == r,
{
    lemma_job_failures_from(spec_job_start(r), outcomes);
}

/// Failing attempts drain a running job's retries one by one.
proof fn lemma_job_failures_from(s: JobState, outcomes: Seq<bool>)
    requires
        s.status == JobStatus::Running,
        0 < s.retries_left,
        s.retries_left <= outcomes.len(),
        s.attempts + s.retries_left <= u32::MAX,
        forall|i: int| 0 <= i < outcomes.len() ==> !outcomes[i],
    ensures
        spec_job_run(s, outcomes).status == JobStatus::Failed,
        spec_job_run(s, outcomes).attempts == s.attempts + s.retries_left,
    decreases outcomes.len(),
{
    let t = spec_job_step(s, outcomes[0]);
    if s.retries_left == 1 {
        lemma_job_run_stopped(t, outcomes.drop_first());
    } else {
        lemma_job_failures_from(t, outcomes.drop_first());
    }
}

/// A job that is no longer running never moves again.
proof fn lemma_job_run_stopped(s: JobState, outcomes: Seq<bool>)
    requires
        s.status != JobStatus::Running,
    ensures
        spec_job_run(s, outcomes) == s,
{
}

/// Law: a job allowed `r` retries whose first `k - 1` attempts come
/// back recoverable and whose `k`-th attempt succeeds (`k <= r`)
/// performs exactly `k` attempts and ends successfully.
pub proof fn lemma_job_success_at(r: u32, k: u32, outcomes: Seq<bool>)
    requires
        0 < k,
        k <= r,
        k <= outcomes.len(),
        forall|i: int| 0 <= i < k - 1 ==> !outcomes[i],
        outcomes[k - 1],
    ensures
        spec_job_run(spec_job_start(r), outcomes).status == JobStatus::Succeeded,
        spec_job_run(spec_job_start(r), outcomes).attempts == k,
{
    lemma_job_success_from(spec_job_start(r), k, outcomes);
}

/// The run-wide accounting of one scheduled batch: how many jobs still
/// wait for admission, run right now, and have concluded either way.
/// Every job is in exactly one of the four columns.
pub struct RunState {
    pub total: usize,
    pub max_concurrent: usize,
    pub pending: usize,
    pub in_flight: usize,
    pub succeeded: usize,
    pub failed: usize,
}

impl RunState {
    /// The accounting invariant: the columns partition the batch, and
    /// the jobs past admission never outnumber the concurrency cap.
    pub open spec fn wf(self) -> bool {
        &&& self.pending + self.in_flight + self.succeeded + self.failed == self.total
        &&& self.in_flight <= self.max_concurrent
    }

    /// A fresh run of `total` jobs under the cap `max_concurrent`:
    /// every job pending, none admitted, none concluded.
    pub fn start(total: usize, max_concurrent: usize) -> (s: Self)
        ensures
            s.total == total,
            s.max_concurrent == max_concurrent,
            s.pending == total,
            s.in_flight == 0,
            s.succeeded == 0,
            s.failed == 0,
            s.wf(),
    {
        RunState { total, max_concurrent, pending: total, in_flight: 0, succeeded: 0, failed: 0 }
    }

    /// Admits one pending job when a slot is free: exactly when a job
    /// waits and the cap leaves room. Nothing else changes.
    pub fn try_admit(&mut self) -> (admitted: bool)
        requires
            old(self).wf(),
        ensures
            final(self).wf(),
            admitted <==> (old(self).pending > 0 && old(self).in_flight
                < old(self).max_concurrent),
            admitted ==> *final(self) == (RunState {
                pending: (old(self).pending - 1) as usize,
                in_flight: (old(self).in_flight + 1) as usize,
                ..*old(self)
            }),
            !admitted ==> *final(self) == *old(self),
    {
        if self.pending > 0 && self.in_flight < self.max_concurrent {
            self.pending = self.pending - 1;
            self.in_flight = self.in_flight + 1;
            true
        } else {
            false
        }
    }

    /// Concludes one admitted job, freeing its slot and counting it as
    /// a success or a permanent failure. Nothing else changes.
    pub fn finish(&mut self, success: bool)
        requires
            old(self).wf(),
            old(self).in_flight > 0,
        ensures
            final(self).wf(),
            *final(self) == (RunState {
                in_flight: (old(self).in_flight - 1) as usize,
                succeeded: if success {
                    (old(self).succeeded + 1) as usize
                } else {
                    old(self).succeeded
                },
                failed: if success {
                    old(self).failed
                } else {
                    (old(self).failed + 1) as usize
                },
                ..*old(self)
            }),
    {
        self.in_flight = self.in_flight - 1;
        if success {
            self.succeeded = self.succeeded + 1;
        } else {
            self.failed = self.failed + 1;
        }
    }

    /// The run is over when no job waits and none is still in flight;
    /// every job then stands concluded.
    pub fn is_done(&self) -> (r: bool)
        ensures
            r <==> (self.pending == 0 && self.in_flight == 0),
    {
        self.pending == 0 && self.in_flight == 0
    }

    /// How many jobs failed permanently: the run's observability report.
    pub fn permanent_failures(&self) -> (r: usize)
        ensures
            r == self.failed,
    {
        self.failed
    }

    /// How many records the run emitted: one per successful job.
    pub fn records_emitted(&self) -> (r: usize)
        ensures
            r == self.succeeded,
    {
        self.succeeded
    }
}

/// One observable move of a run: a job passes admission, or an admitted
/// job concludes.
pub enum RunEvent {
    Admit,
    Finish { success: bool },
}

/// The state one event leads to. An event that is not enabled (an
/// admission with no free slot or no pending job, a conclusion with
/// nothing in flight) changes nothing.
pub open spec fn spec_run_step(s: RunState, e: RunEvent) -> RunState {
    match e {
        RunEvent::Admit => {
            if s.pending > 0 && s.in_flight < s.max_concurrent {
                RunState {
                    pending: (s.pending - 1) as usize,
                    in_flight: (s.in_flight + 1) as usize,
                    ..s
                }
            } else {
                s
            }
        },
        RunEvent::Finish { success } => {
            if s.in_flight > 0 {
                RunState {
                    in_flight: (s.in_flight - 1) as usize,
                    succeeded: if success {
                        (s.succeeded + 1) as usize
                    } else {
                        s.succeeded
                    },
                    failed: if success {
                        s.failed
                    } else {
                        (s.failed + 1) as usize
                    },
                    ..s
                }
            } else {
                s
            }
        },
    }
}

/// The state a run reaches after a sequence of events.
pub open spec fn spec_run_events(s: RunState, es: Seq<RunEvent>) -> RunState
    decreases es.len(),
{
    if es.len() == 0 {
        s
    } else {
        spec_run_events(spec_run_step(s, es[0]), es.drop_first())
    }
}

/// One event keeps the accounting invariant.
proof fn lemma_run_step_wf(s: RunState, e: RunEvent)
    requires
        s.wf(),
    ensures
        spec_run_step(s, e).wf(),
{
}

/// Law: along every interleaving of admissions and conclusions from a
/// well-formed start, each intermediate state is well-formed — at no
/// point do more than `max_concurrent` jobs stand past admission and
/// before completion, and the four columns always partition the batch.
pub proof fn lemma_admission_bound(s: RunState, es: Seq<RunEvent>)
    requires
        s.wf(),
    ensures
        forall|i: int|
            0 <= i <= es.len() ==> #[trigger] spec_run_events(s, es.take(i)).wf(),
        spec_run_events(s, es).in_flight <= s.max_concurrent,
    decreases es.len(),
{
    assert(es.take(0) =~= Seq::<RunEvent>::empty());
    if es.len() > 0 {
        let t = spec_run_step(s, es[0]);
        lemma_run_step_wf(s, es[0]);
        lemma_admission_bound(t, es.drop_first());
        assert forall|i: int|
            0 <= i <= es.len() implies #[trigger] spec_run_events(s, es.take(i)).wf() by {
            if i > 0 {
                assert(es.take(i).drop_first() =~= es.drop_first().take(i - 1));
                assert(spec_run_events(s, es.take(i)) == spec_run_events(
                    t,
                    es.drop_first().take(i - 1),
                ));
            }
        }
        assert(es.drop_first() =~= es.drop_first().take(es.len() - 1));
        assert(spec_run_events(s, es) == spec_run_events(t, es.drop_first()));
        assert(spec_run_events(t, es.drop_first()).wf());
        assert(t.max_concurrent == s.max_concurrent);
    }
}

/// A success on the `k`-th attempt ends a running job after exactly
/// `k` further attempts.
proof fn lemma_job_success_from(s: JobState, k: u32, outcomes: Seq<bool>)
    requires
        s.status == JobStatus::Running,
        0 < k,
        k <= s.retries_left,
        k <= outcomes.len(),
        s.attempts + k <= u32::MAX,
        forall|i: int| 0 <= i < k - 1 ==> !outcomes[i],
        outcomes[k - 1],
    ensures
        spec_job_run(s, outcomes).status == JobStatus::Succeeded,
        spec_job_run(s, outcomes).attempts == s.attempts + k,
    decreases k,
{
    let t = spec_job_step(s, outcomes[0]);
    if k == 1 {
        lemma_job_run_stopped(t, outcomes.drop_first());
    } else {
        lemma_job_success_from(t, (k - 1) as u32, outcomes.drop_first());
    }
}

} // verus!
