//! Durable indexing notifications in one queue file.
//!
//! The log and the manifest stay authoritative: a queue job only prompts a
//! worker to catch a namespace up to a committed position. Claims have leases
//! that expire, and the attempt number of a claim fences a timed-out worker from
//! finishing a job that another worker has taken over.
//!
//! The state transitions here are what callers run between reading the queue
//! file and writing it back with compare-and-set.

use vstd::prelude::*;
use vstd::string::*;

use crate::wal::position_text;
use crate::error;
use crate::strings;
use crate::phrase;
use crate::phrase::say;
use crate::wal;
use crate::seqs;
use crate::namespace;
use crate::error::{corrupt, Error};
use crate::metrics::{incr, IndexLagSample, QueueMetrics, QueueStateSample};
use crate::namespace::validate_namespace_name;
use crate::strings::{chars_of, same_text, text_of};
use crate::textmap::{TextMap, TextSet};
use crate::wal::WalCursor;

verus! {

pub const INDEX_QUEUE_FORMAT_VERSION: u32 = 1;

/// How often a queue update is tried before a lost race is reported.
pub const MAX_CAS_ATTEMPTS: usize = 64;

/// The object that holds the queue.
pub fn index_queue_key() -> (key: String)
    ensures
        key@ == "jobs/indexing_queue.json"@,
{
    "jobs/indexing_queue.json".to_owned()
}

/// The broker that owns the queue.
#[derive(Clone, Debug)]
pub struct BrokerRegistration {
    pub address: String,
    pub owner_id: String,
    pub generation: u64,
}

pub struct BrokerView {
    pub address: Seq<char>,
    pub owner_id: Seq<char>,
    pub generation: u64,
}

impl View for BrokerRegistration {
    type V = BrokerView;

    open spec fn view(&self) -> BrokerView {
        BrokerView {
            address: self.address@,
            owner_id: self.owner_id@,
            generation: self.generation,
        }
    }
}

/// A notification that a namespace has to be indexed up to a position.
#[derive(Clone, Debug)]
pub struct IndexJob {
    pub id: u64,
    pub namespace: String,
    pub target_cursor: WalCursor,
    pub created_at_ms: u64,
    pub attempts: u32,
    pub available_at_ms: u64,
    pub claim: Option<JobClaim>,
}

pub struct JobView {
    pub id: u64,
    pub namespace: Seq<char>,
    pub target_cursor: WalCursor,
    pub created_at_ms: u64,
    pub attempts: u32,
    pub available_at_ms: u64,
    pub claim: Option<JobClaimView>,
}

impl View for IndexJob {
    type V = JobView;

    open spec fn view(&self) -> JobView {
        JobView {
            id: self.id,
            namespace: self.namespace@,
            target_cursor: self.target_cursor,
            created_at_ms: self.created_at_ms,
            attempts: self.attempts,
            available_at_ms: self.available_at_ms,
            claim: match self.claim {
                None => None,
                Some(c) => Some(c@),
            },
        }
    }
}

/// Who works on a job, and until when.
#[derive(Clone, Debug)]
pub struct JobClaim {
    pub worker_id: String,
    pub attempt: u32,
    pub lease_expires_at_ms: u64,
}

pub struct JobClaimView {
    pub worker_id: Seq<char>,
    pub attempt: u32,
    pub lease_expires_at_ms: u64,
}

impl View for JobClaim {
    type V = JobClaimView;

    open spec fn view(&self) -> JobClaimView {
        JobClaimView {
            worker_id: self.worker_id@,
            attempt: self.attempt,
            lease_expires_at_ms: self.lease_expires_at_ms,
        }
    }
}

/// What a worker shows to prove that it holds a job.
#[derive(Clone, Debug)]
pub struct ClaimHandle {
    pub job_id: u64,
    pub worker_id: String,
    pub attempt: u32,
}

pub struct HandleView {
    pub job_id: u64,
    pub worker_id: Seq<char>,
    pub attempt: u32,
}

impl View for ClaimHandle {
    type V = HandleView;

    open spec fn view(&self) -> HandleView {
        HandleView { job_id: self.job_id, worker_id: self.worker_id@, attempt: self.attempt }
    }
}

/// A claimed job with its handle.
#[derive(Clone, Debug)]
pub struct ClaimedJob {
    pub job: IndexJob,
    pub handle: ClaimHandle,
}

/// What became of a notification.
#[derive(Clone, Copy, Debug, PartialEq, Eq, Structural)]
pub enum EnqueueOutcome {
    Added { job_id: u64 },
    Coalesced { job_id: u64 },
}

/// A claim that there may be, for people.
pub open spec fn claim_words(claim: Option<JobClaim>) -> Seq<char> {
    match claim {
        Some(c) => "Some(JobClaim { worker_id: "@ + phrase::quoted(c.worker_id@) + ", attempt: "@
            + strings::decimal(c.attempt as nat) + ", lease_expires_at_ms: "@ + strings::decimal(
            c.lease_expires_at_ms as nat,
        ) + " })"@,
        None => "None"@,
    }
}

/// A job, for people.
pub open spec fn job_words(job: IndexJob) -> Seq<char> {
    "IndexJob { id: "@ + strings::decimal(job.id as nat) + ", namespace: "@ + phrase::quoted(
        job.namespace@,
    ) + ", target_cursor: "@ + wal::cursor_words(job.target_cursor) + ", created_at_ms: "@
        + strings::decimal(job.created_at_ms as nat) + ", attempts: "@ + strings::decimal(
        job.attempts as nat,
    ) + ", available_at_ms: "@ + strings::decimal(job.available_at_ms as nat) + ", claim: "@
        + claim_words(job.claim) + " }"@
}

/// A claimed job, for people.
pub open spec fn claimed_words(c: ClaimedJob) -> Seq<char> {
    "ClaimedJob { job: "@ + job_words(c.job) + ", handle: ClaimHandle { job_id: "@
        + strings::decimal(c.handle.job_id as nat) + ", worker_id: "@ + phrase::quoted(
        c.handle.worker_id@,
    ) + ", attempt: "@ + strings::decimal(c.handle.attempt as nat) + " } }"@
}

fn claim_text(claim: &Option<JobClaim>) -> (s: String)
    ensures
        s@ == claim_words(*claim),
{
    match claim {
        Some(c) => say("Some(JobClaim { worker_id: ").quote(c.worker_id.as_str()).and(
            ", attempt: ",
        ).number(c.attempt as u64).and(", lease_expires_at_ms: ").number(
            c.lease_expires_at_ms,
        ).and(" })").done(),
        None => "None".to_owned(),
    }
}

impl IndexJob {
    /// The job, for people.
    pub fn text(&self) -> (s: String)
        ensures
            s@ == job_words(*self),
    {
        let cursor = self.target_cursor.text();
        let claim = claim_text(&self.claim);
        say("IndexJob { id: ").number(self.id).and(", namespace: ").quote(
            self.namespace.as_str(),
        ).and(", target_cursor: ").and(cursor.as_str()).and(", created_at_ms: ").number(
            self.created_at_ms,
        ).and(", attempts: ").number(self.attempts as u64).and(", available_at_ms: ").number(
            self.available_at_ms,
        ).and(", claim: ").and(claim.as_str()).and(" }").done()
    }
}

impl ClaimedJob {
    /// The job and its handle, for people.
    pub fn text(&self) -> (s: String)
        ensures
            s@ == claimed_words(*self),
    {
        let job = self.job.text();
        say("ClaimedJob { job: ").and(job.as_str()).and(", handle: ClaimHandle { job_id: ").number(
            self.handle.job_id,
        ).and(", worker_id: ").quote(self.handle.worker_id.as_str()).and(", attempt: ").number(
            self.handle.attempt as u64,
        ).and(" } }").done()
    }
}

/// What a worker did.
#[derive(Clone, Debug)]
pub struct WorkerRun {
    pub job_id: u64,
    pub namespace: String,
    pub target_cursor: WalCursor,
    pub did_flush: bool,
}

/// A value, and whether the state it comes from was changed.
#[derive(Clone, Copy, Debug)]
pub enum Mutation<T> {
    Unchanged(T),
    Changed(T),
}

impl<T> Mutation<T> {
    pub open spec fn value(self) -> T {
        match self {
            Mutation::Unchanged(value) => value,
            Mutation::Changed(value) => value,
        }
    }

    /// The value, and whether the state was changed.
    pub fn into_parts(self) -> (r: (T, bool))
        ensures
            r == (self.value(), self is Changed),
    {
        match self {
            Mutation::Unchanged(value) => (value, false),
            Mutation::Changed(value) => (value, true),
        }
    }
}

/// The queue file.
#[derive(Clone, Debug)]
pub struct QueueFile {
    pub format_version: u32,
    pub next_job_id: u64,
    pub broker: Option<BrokerRegistration>,
    pub jobs: Vec<IndexJob>,
}

pub struct QueueView {
    pub format_version: u32,
    pub next_job_id: u64,
    pub broker: Option<BrokerView>,
    pub jobs: Seq<JobView>,
}

pub open spec fn jobs_view(jobs: Seq<IndexJob>) -> Seq<JobView> {
    Seq::new(jobs.len(), |i: int| jobs[i]@)
}

impl View for QueueFile {
    type V = QueueView;

    open spec fn view(&self) -> QueueView {
        QueueView {
            format_version: self.format_version,
            next_job_id: self.next_job_id,
            broker: match self.broker {
                None => None,
                Some(b) => Some(b@),
            },
            jobs: jobs_view(self.jobs@),
        }
    }
}

/// A job has a number, a valid namespace, and a claim of its latest attempt.
pub open spec fn job_valid(job: JobView) -> bool {
    &&& job.id > 0
    &&& namespace::is_namespace_name(job.namespace)
    &&& job.claim matches Some(c) ==> c.attempt == job.attempts
}

/// A registration names an address and an owner and has a generation.
pub open spec fn broker_valid(b: BrokerView) -> bool {
    b.address.len() > 0 && b.owner_id.len() > 0 && b.generation > 0
}

/// What holds of every stored queue: the format is known, jobs are valid, their
/// numbers differ and lie below the next one, and a registered broker is valid.
pub open spec fn queue_valid(q: QueueView) -> bool {
    &&& q.format_version == INDEX_QUEUE_FORMAT_VERSION
    &&& q.next_job_id > 0
    &&& forall|i: int| 0 <= i < q.jobs.len() ==> job_valid(#[trigger] q.jobs[i])
    &&& forall|i: int| 0 <= i < q.jobs.len() ==> #[trigger] q.jobs[i].id < q.next_job_id
    &&& forall|i: int, j: int|
        0 <= i < j < q.jobs.len() ==> #[trigger] q.jobs[i].id != #[trigger] q.jobs[j].id
    &&& q.broker matches Some(b) ==> broker_valid(b)
}

/// What is wrong with a job of a queue, if anything is.
pub open spec fn job_complaint(jobs: Seq<JobView>, i: int) -> Option<Seq<char>> {
    let job = jobs[i];
    let id = strings::decimal(job.id as nat);
    if job.id == 0 || exists|k: int| 0 <= k < i && (#[trigger] jobs[k]).id == job.id {
        Some("invalid or duplicate indexing queue job id "@ + id)
    } else if !namespace::is_namespace_name(job.namespace) {
        Some("indexing queue job "@ + id + " has an invalid namespace"@)
    } else {
        match job.claim {
            Some(c) => if c.attempt != job.attempts {
                Some(
                    "indexing queue job "@ + id + " claim attempt "@ + strings::decimal(
                        c.attempt as nat,
                    ) + " does not match attempts "@ + strings::decimal(job.attempts as nat),
                )
            } else {
                None
            },
            None => None,
        }
    }
}

/// What is wrong with the first damaged job from the `i`th on.
pub open spec fn jobs_complaint(jobs: Seq<JobView>, i: int) -> Option<Seq<char>>
    decreases jobs.len() - i,
{
    if i >= jobs.len() {
        None
    } else {
        match job_complaint(jobs, i) {
            Some(text) => Some(text),
            None => jobs_complaint(jobs, i + 1),
        }
    }
}

/// The highest number of the first `n` jobs.
pub open spec fn highest_id(jobs: Seq<JobView>, n: int) -> u64
    decreases n,
{
    if n <= 0 {
        0
    } else if jobs[n - 1].id > highest_id(jobs, n - 1) {
        jobs[n - 1].id
    } else {
        highest_id(jobs, n - 1)
    }
}

/// What is wrong with a stored queue, if anything is.
pub open spec fn queue_complaint(q: QueueView) -> Option<Seq<char>> {
    let highest = highest_id(q.jobs, q.jobs.len() as int);
    if q.format_version != INDEX_QUEUE_FORMAT_VERSION {
        Some(
            "unsupported indexing queue format version "@ + strings::decimal(
                q.format_version as nat,
            ),
        )
    } else if jobs_complaint(q.jobs, 0) is Some {
        jobs_complaint(q.jobs, 0)
    } else if q.next_job_id <= highest {
        Some(
            "indexing queue next job id "@ + strings::decimal(q.next_job_id as nat)
                + " is not above live max id "@ + strings::decimal(highest as nat),
        )
    } else if q.broker matches Some(b) && !broker_valid(b) {
        Some("indexing queue has an invalid broker registration"@)
    } else {
        None
    }
}

/// The job is claimed and its lease has not run out.
pub open spec fn live(job: JobView, now_ms: u64) -> bool {
    job.claim matches Some(c) && c.lease_expires_at_ms > now_ms
}

/// Some job of the namespace has a live claim.
pub open spec fn namespace_active(jobs: Seq<JobView>, ns: Seq<char>, now_ms: u64) -> bool {
    exists|i: int| 0 <= i < jobs.len() && live(#[trigger] jobs[i], now_ms) && jobs[i].namespace == ns
}

/// The job can be claimed now.
pub open spec fn claimable(jobs: Seq<JobView>, job: JobView, now_ms: u64) -> bool {
    job.available_at_ms <= now_ms && !namespace_active(jobs, job.namespace, now_ms)
}

/// The first job that can be claimed now; the number of jobs if there is none.
pub open spec fn next_claimable(jobs: Seq<JobView>, now_ms: u64) -> int {
    seqs::first_where(jobs, |job: JobView| claimable(jobs, job, now_ms))
}

/// The first unclaimed job of a namespace.
pub open spec fn unclaimed_of(jobs: Seq<JobView>, ns: Seq<char>) -> int {
    seqs::first_where(jobs, |job: JobView| job.namespace == ns && job.claim is None)
}

/// The first claimed job of a namespace that already covers a position.
pub open spec fn covering_of(jobs: Seq<JobView>, ns: Seq<char>, target: WalCursor) -> int {
    seqs::first_where(
        jobs,
        |job: JobView|
            job.namespace == ns && job.claim is Some && wal::cursor_le(target, job.target_cursor),
    )
}

/// The first job with a number.
pub open spec fn job_with_id(jobs: Seq<JobView>, id: u64) -> int {
    seqs::first_where(jobs, |job: JobView| job.id == id)
}

/// The handle is the one of the job's current claim.
pub open spec fn handle_matches(job: JobView, h: HandleView) -> bool {
    job.claim matches Some(c) && c.worker_id == h.worker_id && c.attempt == h.attempt
}

/// The job that a handle holds; the number of jobs if it holds none.
pub open spec fn held_job(jobs: Seq<JobView>, h: HandleView) -> int {
    let i = job_with_id(jobs, h.job_id);
    if i < jobs.len() && handle_matches(jobs[i], h) {
        i
    } else {
        jobs.len() as int
    }
}

/// `a + b`, up to the largest number of milliseconds.
pub open spec fn later(a: u64, b: u64) -> u64 {
    if a + b > u64::MAX {
        u64::MAX
    } else {
        (a + b) as u64
    }
}

pub open spec fn max_u64(a: u64, b: u64) -> u64 {
    if a >= b {
        a
    } else {
        b
    }
}

/// The job that a first notification of a namespace adds.
pub open spec fn new_job(id: u64, ns: Seq<char>, target: WalCursor, now_ms: u64) -> JobView {
    JobView {
        id,
        namespace: ns,
        target_cursor: target,
        created_at_ms: now_ms,
        attempts: 0,
        available_at_ms: now_ms,
        claim: None,
    }
}

/// The job after a worker has claimed it.
pub open spec fn claimed_job(job: JobView, worker: Seq<char>, lease_ms: u64, now_ms: u64) -> JobView {
    JobView {
        attempts: (job.attempts + 1) as u32,
        claim: Some(
            JobClaimView {
                worker_id: worker,
                attempt: (job.attempts + 1) as u32,
                lease_expires_at_ms: later(now_ms, lease_ms),
            },
        ),
        ..job
    }
}

/// The job after its claim has been extended.
pub open spec fn extended_job(job: JobView, lease_ms: u64, now_ms: u64) -> JobView {
    let c = job.claim->Some_0;
    JobView {
        claim: Some(
            JobClaimView {
                lease_expires_at_ms: max_u64(c.lease_expires_at_ms, later(now_ms, lease_ms)),
                ..c
            },
        ),
        ..job
    }
}

/// The job after its worker has given it back.
pub open spec fn failed_job(job: JobView, retry_delay_ms: u64, now_ms: u64) -> JobView {
    JobView { claim: None, available_at_ms: later(now_ms, retry_delay_ms), ..job }
}

/// What is said of a handle that does not hold its job.
pub open spec fn stale_words(h: HandleView, reason: Seq<char>) -> Seq<char> {
    "job "@ + strings::decimal(h.job_id as nat) + " attempt "@ + strings::decimal(h.attempt as nat)
        + " for worker "@ + phrase::quoted(h.worker_id) + ": "@ + reason
}

/// Why a handle holds no job.
pub open spec fn handle_complaint(jobs: Seq<JobView>, h: HandleView) -> Seq<char> {
    stale_words(
        h,
        if job_with_id(jobs, h.job_id) < jobs.len() {
            "job is owned by another claim"@
        } else {
            "job no longer exists"@
        },
    )
}

/// Why no claim is made for a worker.
pub open spec fn claim_complaint(worker_id: Seq<char>) -> Seq<char> {
    if worker_id.len() == 0 {
        "worker id cannot be empty"@
    } else {
        "lease duration must be positive"@
    }
}

/// Why a job cannot be claimed once more.
pub open spec fn attempts_complaint(job: JobView) -> Seq<char> {
    "job "@ + strings::decimal(job.id as nat) + " attempts exhausted"@
}

/// Why a claim is not extended.
pub open spec fn heartbeat_complaint(jobs: Seq<JobView>, h: HandleView, lease_ms: u64) -> Seq<char> {
    if lease_ms == 0 {
        "lease duration must be positive"@
    } else if held_job(jobs, h) >= jobs.len() {
        handle_complaint(jobs, h)
    } else {
        stale_words(h, "lease has expired"@)
    }
}

fn stale_claim(handle: &ClaimHandle, reason: &str) -> (e: Error)
    ensures
        e is InvalidQueueClaim,
        e->InvalidQueueClaim_0@ == stale_words(handle@, reason@),
{
    Error::InvalidQueueClaim(
        say("job ").number(handle.job_id).and(" attempt ").number(handle.attempt as u64).and(
            " for worker ",
        ).quote(handle.worker_id.as_str()).and(": ").and(reason).done(),
    )
}

fn invalid_job_id(id: u64) -> (e: Error)
    ensures
        e is Corrupt,
        e->Corrupt_0@ == "invalid or duplicate indexing queue job id "@ + strings::decimal(
            id as nat,
        ),
{
    Error::Corrupt(say("invalid or duplicate indexing queue job id ").number(id).done())
}

fn invalid_claim(reason: &str) -> (e: Error)
    ensures
        e is InvalidQueueClaim,
        e->InvalidQueueClaim_0@ == reason@,
{
    Error::InvalidQueueClaim(reason.to_owned())
}

/// Whether a job is claimed and its lease has not run out.
fn is_live(job: &IndexJob, now_ms: u64) -> (b: bool)
    ensures
        b == live(job@, now_ms),
{
    match &job.claim {
        Some(claim) => claim.lease_expires_at_ms > now_ms,
        None => false,
    }
}

/// Whether some job of the namespace has a live claim.
fn is_namespace_active(jobs: &Vec<IndexJob>, ns: &str, now_ms: u64) -> (b: bool)
    ensures
        b == namespace_active(jobs_view(jobs@), ns@, now_ms),
{
    let ghost view = jobs_view(jobs@);
    let mut i: usize = 0;
    while i < jobs.len()
        invariant
            i <= jobs@.len(),
            view == jobs_view(jobs@),
            forall|j: int|
                0 <= j < i ==> !(live(#[trigger] view[j], now_ms) && view[j].namespace == ns@),
        decreases jobs@.len() - i,
    {
        assert(view[i as int] == jobs@[i as int]@);
        if is_live(&jobs[i], now_ms) && same_text(jobs[i].namespace.as_str(), ns) {
            return true;
        }
        i = i + 1;
    }
    false
}

impl QueueFile {
    /// A queue without jobs.
    pub fn empty() -> (q: QueueFile)
        ensures
            queue_valid(q@),
            q@.jobs.len() == 0,
            q@.next_job_id == 1,
            q@.broker is None,
    {
        QueueFile {
            format_version: INDEX_QUEUE_FORMAT_VERSION,
            next_job_id: 1,
            broker: None,
            jobs: Vec::new(),
        }
    }

    /// Checks what holds of every stored queue.
    pub fn validate(&self) -> (r: Result<(), Error>)
        ensures
            queue_valid(self@) ==> r is Ok,
            !queue_valid(self@) ==> r is Err && r->Err_0 is Corrupt,
            r is Ok ==> queue_complaint(self@) is None,
            r is Err ==> queue_complaint(self@) == Some(r->Err_0->Corrupt_0@),
    {
        if self.format_version != INDEX_QUEUE_FORMAT_VERSION {
            return Err(Error::Corrupt(
                    say("unsupported indexing queue format version ").number(
                        self.format_version as u64,
                    ).done(),
                ));
        }
        let ghost view = self@;
        let mut max_id: u64 = 0;
        let mut i: usize = 0;
        while i < self.jobs.len()
            invariant
                i <= self.jobs@.len(),
                view == self@,
                forall|k: int| 0 <= k < i ==> job_valid(#[trigger] view.jobs[k]),
                forall|k: int| 0 <= k < i ==> #[trigger] view.jobs[k].id <= max_id,
                max_id > 0 ==> exists|k: int| 0 <= k < i && #[trigger] view.jobs[k].id == max_id,
                max_id == highest_id(view.jobs, i as int),
                view.format_version == INDEX_QUEUE_FORMAT_VERSION,
                jobs_complaint(view.jobs, 0) == jobs_complaint(view.jobs, i as int),
                forall|k: int, l: int|
                    0 <= k < l < i ==> #[trigger] view.jobs[k].id != #[trigger] view.jobs[l].id,
            decreases self.jobs@.len() - i,
        {
            let job = &self.jobs[i];
            assert(view.jobs[i as int] == job@);
            if job.id == 0 {
                return Err(invalid_job_id(job.id));
            }
            let mut k: usize = 0;
            while k < i
                invariant
                    k <= i < self.jobs@.len(),
                    view == self@,
                    view.jobs[i as int] == job@,
                    view.format_version == INDEX_QUEUE_FORMAT_VERSION,
                    jobs_complaint(view.jobs, 0) == jobs_complaint(view.jobs, i as int),
                    forall|l: int| 0 <= l < k ==> #[trigger] view.jobs[l].id != job.id,
                decreases i - k,
            {
                assert(view.jobs[k as int] == self.jobs@[k as int]@);
                if self.jobs[k].id == job.id {
                    return Err(invalid_job_id(job.id));
                }
                k = k + 1;
            }
            if validate_namespace_name(job.namespace.as_str()).is_err() {
                return Err(Error::Corrupt(
                        say("indexing queue job ").number(job.id).and(
                            " has an invalid namespace",
                        ).done(),
                    ));
            }
            if let Some(claim) = &job.claim {
                if claim.attempt != job.attempts {
                    return Err(
                        Error::Corrupt(
                            say("indexing queue job ").number(job.id).and(
                                " claim attempt ",
                            ).number(claim.attempt as u64).and(
                                " does not match attempts ",
                            ).number(job.attempts as u64).done(),
                        ),
                    );
                }
            }
            if job.id > max_id {
                max_id = job.id;
            }
            i = i + 1;
        }
        if self.next_job_id <= max_id {
            return Err(Error::Corrupt(
                    say("indexing queue next job id ").number(self.next_job_id).and(
                        " is not above live max id ",
                    ).number(max_id).done(),
                ));
        }
        if let Some(broker) = &self.broker {
            if broker.address.as_str().is_empty() || broker.owner_id.as_str().is_empty()
                || broker.generation == 0 {
                return Err(corrupt("indexing queue has an invalid broker registration"));
            }
        }
        Ok(())
    }

    /// What the queue holds at a time.
    pub fn state_sample(&self, now_ms: u64) -> (s: QueueStateSample)
        ensures
            s.jobs == self@.jobs.len(),
            s.claimed_jobs == seqs::count_where(self@.jobs, |job: JobView| live(job, now_ms)),
            s.available_jobs == seqs::count_where(
                self@.jobs,
                |job: JobView| claimable(self@.jobs, job, now_ms),
            ),
            self@.jobs.len() == 0 ==> s.oldest_job_age_seconds == 0,
            forall|i: int|
                0 <= i < self@.jobs.len() ==> age_seconds(#[trigger] self@.jobs[i], now_ms)
                    <= s.oldest_job_age_seconds,
            self@.jobs.len() > 0 ==> exists|i: int|
                0 <= i < self@.jobs.len() && age_seconds(#[trigger] self@.jobs[i], now_ms)
                    == s.oldest_job_age_seconds,
    {
        let ghost jobs = self@.jobs;
        let ghost is_claimed = |job: JobView| live(job, now_ms);
        let ghost is_available = |job: JobView| claimable(jobs, job, now_ms);
        let mut claimed: u64 = 0;
        let mut available: u64 = 0;
        let mut oldest: u64 = 0;
        let mut i: usize = 0;
        assert(jobs.take(0) =~= Seq::empty());
        while i < self.jobs.len()
            invariant
                i <= self.jobs@.len(),
                jobs == self@.jobs,
                is_claimed == (|job: JobView| live(job, now_ms)),
                is_available == (|job: JobView| claimable(jobs, job, now_ms)),
                claimed <= i,
                available <= i,
                claimed == seqs::count_where(jobs.take(i as int), is_claimed),
                available == seqs::count_where(jobs.take(i as int), is_available),
                i == 0 ==> oldest == 0,
                forall|k: int| 0 <= k < i ==> age_seconds(#[trigger] jobs[k], now_ms) <= oldest,
                i > 0 ==> exists|k: int|
                    0 <= k < i && age_seconds(#[trigger] jobs[k], now_ms) == oldest,
            decreases self.jobs@.len() - i,
        {
            let job = &self.jobs[i];
            assert(jobs[i as int] == job@);
            proof {
                seqs::lemma_count_next(jobs, is_claimed, i as int);
                seqs::lemma_count_next(jobs, is_available, i as int);
            }
            if is_live(job, now_ms) {
                claimed = claimed + 1;
            }
            if job.available_at_ms <= now_ms && !is_namespace_active(
                &self.jobs,
                job.namespace.as_str(),
                now_ms,
            ) {
                available = available + 1;
            }
            let age: u64 = now_ms.saturating_sub(job.created_at_ms) / 1000;
            assert(age == age_seconds(jobs[i as int], now_ms));
            if age >= oldest {
                oldest = age;
            }
            i = i + 1;
        }
        assert(jobs.take(i as int) =~= jobs);
        QueueStateSample {
            jobs: self.jobs.len() as u64,
            available_jobs: available,
            claimed_jobs: claimed,
            oldest_job_age_seconds: oldest,
        }
    }

    /// Makes a broker the owner of the queue; the one before it is fenced by the
    /// higher generation.
    pub fn register_broker(&mut self, address: &str, owner_id: &str) -> (r: Result<
        Mutation<BrokerRegistration>,
        Error,
    >)
        ensures
            ({
                let q = old(self)@;
                let generation = match q.broker {
                    None => 1int,
                    Some(b) => b.generation + 1,
                };
                if address@.len() == 0 || owner_id@.len() == 0 {
                    r is Err && r->Err_0 is InvalidQueueBroker && *final(self) == *old(self)
                } else if generation > u64::MAX {
                    r is Err && r->Err_0 is Corrupt && *final(self) == *old(self)
                } else {
                    &&& r is Ok
                    &&& r->Ok_0 is Changed
                    &&& r->Ok_0.value()@ == (BrokerView {
                        address: address@,
                        owner_id: owner_id@,
                        generation: generation as u64,
                    })
                    &&& final(self)@ == (QueueView { broker: Some(r->Ok_0.value()@), ..q })
                }
            }),
            queue_valid(old(self)@) ==> queue_valid(final(self)@),
    {
        if address.is_empty() {
            return Err(Error::InvalidQueueBroker("broker address cannot be empty".to_owned()));
        }
        if owner_id.is_empty() {
            return Err(Error::InvalidQueueBroker("broker owner id cannot be empty".to_owned()));
        }
        let generation: u64 = match &self.broker {
            Some(broker) => match broker.generation.checked_add(1) {
                Some(g) => g,
                None => {
                    return Err(corrupt("queue broker generation exhausted"));
                },
            },
            None => 1,
        };
        let registration = BrokerRegistration {
            address: address.to_owned(),
            owner_id: owner_id.to_owned(),
            generation,
        };
        self.broker = Some(
            BrokerRegistration {
                address: address.to_owned(),
                owner_id: owner_id.to_owned(),
                generation,
            },
        );
        Ok(Mutation::Changed(registration))
    }
}

/// The age of a job in whole seconds.
pub open spec fn age_seconds(job: JobView, now_ms: u64) -> u64 {
    if now_ms >= job.created_at_ms {
        ((now_ms - job.created_at_ms) / 1000) as u64
    } else {
        0
    }
}

/// The first job with `ns` as its namespace and no claim.
fn find_unclaimed(jobs: &Vec<IndexJob>, ns: &str) -> (i: usize)
    ensures
        i == unclaimed_of(jobs_view(jobs@), ns@),
        i <= jobs@.len(),
{
    let ghost view = jobs_view(jobs@);
    let ghost p = |job: JobView| job.namespace == ns@ && job.claim is None;
    let mut i: usize = 0;
    while i < jobs.len()
        invariant
            i <= jobs@.len(),
            view == jobs_view(jobs@),
            p == (|job: JobView| job.namespace == ns@ && job.claim is None),
            forall|j: int| 0 <= j < i ==> !p(#[trigger] view[j]),
        decreases jobs@.len() - i,
    {
        assert(view[i as int] == jobs@[i as int]@);
        if jobs[i].claim.is_none() && same_text(jobs[i].namespace.as_str(), ns) {
            proof {
                seqs::lemma_first_is(view, p, i as int);
            }
            return i;
        }
        i = i + 1;
    }
    proof {
        seqs::lemma_first_is(view, p, i as int);
    }
    i
}

/// The first claimed job of `ns` that covers `target`.
fn find_covering(jobs: &Vec<IndexJob>, ns: &str, target: WalCursor) -> (i: usize)
    ensures
        i == covering_of(jobs_view(jobs@), ns@, target),
        i <= jobs@.len(),
{
    let ghost view = jobs_view(jobs@);
    let ghost p = |job: JobView|
        job.namespace == ns@ && job.claim is Some && wal::cursor_le(target, job.target_cursor);
    let mut i: usize = 0;
    while i < jobs.len()
        invariant
            i <= jobs@.len(),
            view == jobs_view(jobs@),
            p == (|job: JobView|
                job.namespace == ns@ && job.claim is Some && wal::cursor_le(
                    target,
                    job.target_cursor,
                )),
            forall|j: int| 0 <= j < i ==> !p(#[trigger] view[j]),
        decreases jobs@.len() - i,
    {
        assert(view[i as int] == jobs@[i as int]@);
        if jobs[i].claim.is_some() && !jobs[i].target_cursor.is_before(&target) && same_text(
            jobs[i].namespace.as_str(),
            ns,
        ) {
            proof {
                seqs::lemma_first_is(view, p, i as int);
            }
            return i;
        }
        i = i + 1;
    }
    proof {
        seqs::lemma_first_is(view, p, i as int);
    }
    i
}

/// The first job that can be claimed now.
fn find_claimable(jobs: &Vec<IndexJob>, now_ms: u64) -> (i: usize)
    ensures
        i == next_claimable(jobs_view(jobs@), now_ms),
        i <= jobs@.len(),
{
    let ghost view = jobs_view(jobs@);
    let ghost p = |job: JobView| claimable(view, job, now_ms);
    let mut i: usize = 0;
    while i < jobs.len()
        invariant
            i <= jobs@.len(),
            view == jobs_view(jobs@),
            p == (|job: JobView| claimable(view, job, now_ms)),
            forall|j: int| 0 <= j < i ==> !p(#[trigger] view[j]),
        decreases jobs@.len() - i,
    {
        assert(view[i as int] == jobs@[i as int]@);
        if jobs[i].available_at_ms <= now_ms && !is_namespace_active(
            jobs,
            jobs[i].namespace.as_str(),
            now_ms,
        ) {
            proof {
                seqs::lemma_first_is(view, p, i as int);
            }
            return i;
        }
        i = i + 1;
    }
    proof {
        seqs::lemma_first_is(view, p, i as int);
    }
    i
}

/// The position of the job that a handle holds.
fn matching_job_index(queue: &QueueFile, handle: &ClaimHandle) -> (r: Result<usize, Error>)
    ensures
        ({
            let i = held_job(queue@.jobs, handle@);
            if i < queue@.jobs.len() {
                r is Ok && r->Ok_0 == i
            } else {
                r is Err && r->Err_0 is InvalidQueueClaim && r->Err_0->InvalidQueueClaim_0@
                    == handle_complaint(queue@.jobs, handle@)
            }
        }),
{
    let jobs = &queue.jobs;
    let ghost view = queue@.jobs;
    let ghost p = |job: JobView| job.id == handle.job_id;
    let mut i: usize = 0;
    while i < jobs.len()
        invariant
            i <= jobs@.len(),
            view == jobs_view(jobs@),
            p == (|job: JobView| job.id == handle.job_id),
            forall|j: int| 0 <= j < i ==> !p(#[trigger] view[j]),
            jobs@ == queue.jobs@,
            view == queue@.jobs,
        decreases jobs@.len() - i,
    {
        assert(view[i as int] == jobs@[i as int]@);
        if jobs[i].id == handle.job_id {
            proof {
                seqs::lemma_first_is(view, p, i as int);
            }
            let matches = match &jobs[i].claim {
                Some(claim) => claim.attempt == handle.attempt && same_text(
                    claim.worker_id.as_str(),
                    handle.worker_id.as_str(),
                ),
                None => false,
            };
            if matches {
                return Ok(i);
            }
            return Err(stale_claim(handle, "job is owned by another claim"));
        }
        i = i + 1;
    }
    proof {
        seqs::lemma_first_is(view, p, i as int);
    }
    Err(stale_claim(handle, "job no longer exists"))
}

fn copy_job(job: &IndexJob) -> (r: IndexJob)
    ensures
        r@ == job@,
{
    IndexJob {
        id: job.id,
        namespace: job.namespace.clone(),
        target_cursor: job.target_cursor,
        created_at_ms: job.created_at_ms,
        attempts: job.attempts,
        available_at_ms: job.available_at_ms,
        claim: match &job.claim {
            None => None,
            Some(c) => Some(
                JobClaim {
                    worker_id: c.worker_id.clone(),
                    attempt: c.attempt,
                    lease_expires_at_ms: c.lease_expires_at_ms,
                },
            ),
        },
    }
}

/// Replacing one job by one with the same number keeps a queue valid.
proof fn lemma_update_valid(q: QueueView, i: int, job: JobView)
    requires
        queue_valid(q),
        0 <= i < q.jobs.len(),
        job_valid(job),
        job.id == q.jobs[i].id,
    ensures
        queue_valid(QueueView { jobs: q.jobs.update(i, job), ..q }),
{
    let jobs = q.jobs.update(i, job);
    assert forall|k: int, l: int| 0 <= k < l < jobs.len() implies #[trigger] jobs[k].id
        != #[trigger] jobs[l].id by {
        assert(jobs[k].id == q.jobs[k].id);
        assert(jobs[l].id == q.jobs[l].id);
    }
    assert forall|k: int| 0 <= k < jobs.len() implies #[trigger] jobs[k].id < q.next_job_id by {
        assert(jobs[k].id == q.jobs[k].id);
    }
}

/// What a notification does to a queue.
pub open spec fn after_enqueue(
    q: QueueView,
    ns: Seq<char>,
    target: WalCursor,
    now_ms: u64,
) -> QueueView {
    let i = unclaimed_of(q.jobs, ns);
    if i < q.jobs.len() {
        if wal::cursor_lt(q.jobs[i].target_cursor, target) {
            QueueView {
                jobs: q.jobs.update(i, JobView { target_cursor: target, ..q.jobs[i] }),
                ..q
            }
        } else {
            q
        }
    } else if covering_of(q.jobs, ns, target) < q.jobs.len() {
        q
    } else {
        QueueView {
            next_job_id: (q.next_job_id + 1) as u64,
            jobs: q.jobs.push(new_job(q.next_job_id, ns, target, now_ms)),
            ..q
        }
    }
}

/// What a notification is answered.
pub open spec fn enqueue_outcome(q: QueueView, ns: Seq<char>, target: WalCursor) -> EnqueueOutcome {
    let i = unclaimed_of(q.jobs, ns);
    let k = covering_of(q.jobs, ns, target);
    if i < q.jobs.len() {
        EnqueueOutcome::Coalesced { job_id: q.jobs[i].id }
    } else if k < q.jobs.len() {
        EnqueueOutcome::Coalesced { job_id: q.jobs[k].id }
    } else {
        EnqueueOutcome::Added { job_id: q.next_job_id }
    }
}

impl QueueFile {
    /// Adds a notification, or advances the unclaimed one that the namespace
    /// already has. A claimed job that covers the position is enough, too.
    pub fn enqueue(&mut self, namespace: &str, target_cursor: WalCursor, now_ms: u64) -> (r: Result<
        Mutation<EnqueueOutcome>,
        Error,
    >)
        ensures
            ({
                let q = old(self)@;
                let outcome = enqueue_outcome(q, namespace@, target_cursor);
                if !namespace::is_namespace_name(namespace@) {
                    &&& r is Err
                    &&& r->Err_0 is InvalidWrite
                    &&& r->Err_0->InvalidWrite_0@ == namespace::name_complaint(namespace@)
                    &&& *final(self) == *old(self)
                } else if outcome is Added && q.next_job_id == u64::MAX {
                    &&& r is Err
                    &&& r->Err_0 is Corrupt
                    &&& r->Err_0->Corrupt_0@ == "indexing queue job id exhausted"@
                    &&& *final(self) == *old(self)
                } else {
                    &&& r is Ok
                    &&& r->Ok_0.value() == outcome
                    &&& final(self)@ == after_enqueue(q, namespace@, target_cursor, now_ms)
                    &&& r->Ok_0 is Changed == (final(self)@ != q)
                }
            }),
            queue_valid(old(self)@) ==> queue_valid(final(self)@),
    {
        let ghost q = self@;
        match validate_namespace_name(namespace) {
            Ok(_) => {},
            Err(e) => {
                return Err(e);
            },
        }
        let i = find_unclaimed(&self.jobs, namespace);
        if i < self.jobs.len() {
            let job_id: u64 = self.jobs[i].id;
            if self.jobs[i].target_cursor.is_before(&target_cursor) {
                let ghost job = JobView { target_cursor, ..q.jobs[i as int] };
                self.jobs[i].target_cursor = target_cursor;
                assert(self@.jobs =~= q.jobs.update(i as int, job));
                proof {
                    assert(self@.jobs[i as int] != q.jobs[i as int]);
                    if queue_valid(q) {
                        assert(job_valid(q.jobs[i as int]));
                        lemma_update_valid(q, i as int, job);
                    }
                }
                return Ok(Mutation::Changed(EnqueueOutcome::Coalesced { job_id }));
            }
            return Ok(Mutation::Unchanged(EnqueueOutcome::Coalesced { job_id }));
        }
        let k = find_covering(&self.jobs, namespace, target_cursor);
        if k < self.jobs.len() {
            let job_id: u64 = self.jobs[k].id;
            return Ok(Mutation::Unchanged(EnqueueOutcome::Coalesced { job_id }));
        }
        let job_id: u64 = self.next_job_id;
        match self.next_job_id.checked_add(1) {
            None => {
                return Err(corrupt("indexing queue job id exhausted"));
            },
            Some(next) => {
                self.next_job_id = next;
            },
        }
        let job = IndexJob {
            id: job_id,
            namespace: namespace.to_owned(),
            target_cursor,
            created_at_ms: now_ms,
            attempts: 0,
            available_at_ms: now_ms,
            claim: None,
        };
        let ghost added = job@;
        self.jobs.push(job);
        assert(self@.jobs =~= q.jobs.push(added));
        Ok(Mutation::Changed(EnqueueOutcome::Added { job_id }))
    }

    /// Claims the oldest available job whose namespace no worker is active in.
    pub fn claim(&mut self, worker_id: &str, lease_ms: u64, now_ms: u64) -> (r: Result<
        Mutation<Option<ClaimedJob>>,
        Error,
    >)
        ensures
            ({
                let q = old(self)@;
                let i = next_claimable(q.jobs, now_ms);
                let job = q.jobs[i];
                if worker_id@.len() == 0 || lease_ms == 0 {
                    &&& r is Err
                    &&& r->Err_0 is InvalidQueueClaim
                    &&& r->Err_0->InvalidQueueClaim_0@ == claim_complaint(worker_id@)
                    &&& *final(self) == *old(self)
                } else if i >= q.jobs.len() {
                    r is Ok && r->Ok_0 is Unchanged && r->Ok_0.value() is None && *final(self)
                        == *old(self)
                } else if job.attempts == u32::MAX {
                    &&& r is Err
                    &&& r->Err_0 is Corrupt
                    &&& r->Err_0->Corrupt_0@ == attempts_complaint(job)
                    &&& *final(self) == *old(self)
                } else {
                    let taken = claimed_job(job, worker_id@, lease_ms, now_ms);
                    &&& r is Ok
                    &&& r->Ok_0 is Changed
                    &&& r->Ok_0.value() is Some
                    &&& r->Ok_0.value()->Some_0.job@ == taken
                    &&& r->Ok_0.value()->Some_0.handle@ == (HandleView {
                        job_id: job.id,
                        worker_id: worker_id@,
                        attempt: taken.attempts,
                    })
                    &&& final(self)@ == (QueueView { jobs: q.jobs.update(i, taken), ..q })
                }
            }),
            queue_valid(old(self)@) ==> queue_valid(final(self)@),
    {
        let ghost q = self@;
        if worker_id.is_empty() {
            return Err(invalid_claim("worker id cannot be empty"));
        }
        if lease_ms == 0 {
            return Err(invalid_claim("lease duration must be positive"));
        }
        let i = find_claimable(&self.jobs, now_ms);
        if i >= self.jobs.len() {
            return Ok(Mutation::Unchanged(None));
        }
        let attempts: u32 = match self.jobs[i].attempts.checked_add(1) {
            Some(n) => n,
            None => {
                return Err(Error::Corrupt(
                        say("job ").number(self.jobs[i].id).and(" attempts exhausted").done(),
                    ));
            },
        };
        let mut job = copy_job(&self.jobs[i]);
        job.attempts = attempts;
        job.claim = Some(
            JobClaim {
                worker_id: worker_id.to_owned(),
                attempt: attempts,
                lease_expires_at_ms: now_ms.saturating_add(lease_ms),
            },
        );
        let handle = ClaimHandle { job_id: job.id, worker_id: worker_id.to_owned(), attempt: attempts };
        let ghost taken = job@;
        assert(taken == claimed_job(q.jobs[i as int], worker_id@, lease_ms, now_ms));
        let stored = copy_job(&job);
        self.jobs.set(i, stored);
        assert(self@.jobs =~= q.jobs.update(i as int, taken));
        proof {
            if queue_valid(q) {
                assert(job_valid(q.jobs[i as int]));
                lemma_update_valid(q, i as int, taken);
            }
        }
        Ok(Mutation::Changed(Some(ClaimedJob { job, handle })))
    }

    /// Extends a live claim; a lease never gets shorter. A handle whose claim
    /// has run out or was superseded is rejected.
    pub fn heartbeat(&mut self, handle: &ClaimHandle, lease_ms: u64, now_ms: u64) -> (r: Result<
        Mutation<u64>,
        Error,
    >)
        ensures
            ({
                let q = old(self)@;
                let i = held_job(q.jobs, handle@);
                let job = q.jobs[i];
                if lease_ms == 0 || i >= q.jobs.len() || !live(job, now_ms) {
                    &&& r is Err
                    &&& r->Err_0 is InvalidQueueClaim
                    &&& r->Err_0->InvalidQueueClaim_0@ == heartbeat_complaint(
                        q.jobs,
                        handle@,
                        lease_ms,
                    )
                    &&& *final(self) == *old(self)
                } else {
                    let kept = extended_job(job, lease_ms, now_ms);
                    &&& r is Ok
                    &&& r->Ok_0.value() == kept.claim->Some_0.lease_expires_at_ms
                    &&& r->Ok_0.value() >= job.claim->Some_0.lease_expires_at_ms
                    &&& final(self)@ == (QueueView { jobs: q.jobs.update(i, kept), ..q })
                    &&& r->Ok_0 is Changed == (kept != job)
                }
            }),
            queue_valid(old(self)@) ==> queue_valid(final(self)@),
    {
        let ghost q = self@;
        if lease_ms == 0 {
            return Err(invalid_claim("lease duration must be positive"));
        }
        let i = match matching_job_index(self, handle) {
            Ok(i) => i,
            Err(e) => {
                return Err(e);
            },
        };
        let mut job = copy_job(&self.jobs[i]);
        let ghost before = job@;
        let mut expires: u64 = 0;
        let mut changed = false;
        match job.claim {
            None => {
                return Err(stale_claim(handle, "job is owned by another claim"));
            },
            Some(claim) => {
                if claim.lease_expires_at_ms <= now_ms {
                    return Err(stale_claim(handle, "lease has expired"));
                }
                let extended: u64 = now_ms.saturating_add(lease_ms);
                expires = if claim.lease_expires_at_ms >= extended {
                    claim.lease_expires_at_ms
                } else {
                    extended
                };
                changed = expires != claim.lease_expires_at_ms;
                job.claim = Some(
                    JobClaim {
                        worker_id: claim.worker_id,
                        attempt: claim.attempt,
                        lease_expires_at_ms: expires,
                    },
                );
            },
        }
        let ghost kept = job@;
        assert(kept == extended_job(before, lease_ms, now_ms));
        self.jobs.set(i, job);
        assert(self@.jobs =~= q.jobs.update(i as int, kept));
        proof {
            if queue_valid(q) {
                assert(job_valid(q.jobs[i as int]));
                lemma_update_valid(q, i as int, kept);
            }
        }
        if changed {
            Ok(Mutation::Changed(expires))
        } else {
            assert(kept == before);
            Ok(Mutation::Unchanged(expires))
        }
    }

    /// Removes a job that was done.
    pub fn complete(&mut self, handle: &ClaimHandle) -> (r: Result<Mutation<()>, Error>)
        ensures
            ({
                let q = old(self)@;
                let i = held_job(q.jobs, handle@);
                if i >= q.jobs.len() {
                    &&& r is Err
                    &&& r->Err_0 is InvalidQueueClaim
                    &&& r->Err_0->InvalidQueueClaim_0@ == handle_complaint(q.jobs, handle@)
                    &&& *final(self) == *old(self)
                } else {
                    &&& r is Ok
                    &&& r->Ok_0 is Changed
                    &&& final(self)@ == (QueueView { jobs: q.jobs.remove(i), ..q })
                }
            }),
            queue_valid(old(self)@) ==> queue_valid(final(self)@),
    {
        let ghost q = self@;
        let i = match matching_job_index(self, handle) {
            Ok(i) => i,
            Err(e) => {
                return Err(e);
            },
        };
        let _removed = self.jobs.remove(i);
        assert(self@.jobs =~= q.jobs.remove(i as int));
        proof {
            if queue_valid(q) {
                let jobs = q.jobs.remove(i as int);
                assert forall|k: int, l: int| 0 <= k < l < jobs.len() implies #[trigger] jobs[k].id
                    != #[trigger] jobs[l].id by {
                    let a = if k < i { k } else { k + 1 };
                    let b = if l < i { l } else { l + 1 };
                    assert(jobs[k] == q.jobs[a]);
                    assert(jobs[l] == q.jobs[b]);
                }
                assert forall|k: int| 0 <= k < jobs.len() implies job_valid(#[trigger] jobs[k])
                    && jobs[k].id < q.next_job_id by {
                    let a = if k < i { k } else { k + 1 };
                    assert(jobs[k] == q.jobs[a]);
                }
            }
        }
        Ok(Mutation::Changed(()))
    }

    /// Gives a job back, to be claimed again after a delay.
    pub fn fail(&mut self, handle: &ClaimHandle, retry_delay_ms: u64, now_ms: u64) -> (r: Result<
        Mutation<()>,
        Error,
    >)
        ensures
            ({
                let q = old(self)@;
                let i = held_job(q.jobs, handle@);
                if i >= q.jobs.len() {
                    &&& r is Err
                    &&& r->Err_0 is InvalidQueueClaim
                    &&& r->Err_0->InvalidQueueClaim_0@ == handle_complaint(q.jobs, handle@)
                    &&& *final(self) == *old(self)
                } else {
                    &&& r is Ok
                    &&& r->Ok_0 is Changed
                    &&& final(self)@ == (QueueView {
                        jobs: q.jobs.update(i, failed_job(q.jobs[i], retry_delay_ms, now_ms)),
                        ..q
                    })
                }
            }),
            queue_valid(old(self)@) ==> queue_valid(final(self)@),
    {
        let ghost q = self@;
        let i = match matching_job_index(self, handle) {
            Ok(i) => i,
            Err(e) => {
                return Err(e);
            },
        };
        let mut job = copy_job(&self.jobs[i]);
        job.claim = None;
        job.available_at_ms = now_ms.saturating_add(retry_delay_ms);
        let ghost given = job@;
        assert(given == failed_job(q.jobs[i as int], retry_delay_ms, now_ms));
        self.jobs.set(i, job);
        assert(self@.jobs =~= q.jobs.update(i as int, given));
        proof {
            if queue_valid(q) {
                assert(job_valid(q.jobs[i as int]));
                lemma_update_valid(q, i as int, given);
            }
        }
        Ok(Mutation::Changed(()))
    }
}

// ---------------------------------------------------------------------------
// Operations and batches
// ---------------------------------------------------------------------------

/// One request to the queue.
#[derive(Clone, Debug)]
pub enum BrokerOperation {
    Enqueue { namespace: String, target_cursor: WalCursor, timestamp_ms: u64 },
    Claim { worker_id: String, lease_ms: u64, timestamp_ms: u64 },
    Heartbeat { handle: ClaimHandle, lease_ms: u64, timestamp_ms: u64 },
    Complete { handle: ClaimHandle },
    Fail { handle: ClaimHandle, retry_delay_ms: u64, timestamp_ms: u64 },
}

pub enum OperationView {
    Enqueue { namespace: Seq<char>, target_cursor: WalCursor, timestamp_ms: u64 },
    Claim { worker_id: Seq<char>, lease_ms: u64, timestamp_ms: u64 },
    Heartbeat { handle: HandleView, lease_ms: u64, timestamp_ms: u64 },
    Complete { handle: HandleView },
    Fail { handle: HandleView, retry_delay_ms: u64, timestamp_ms: u64 },
}

impl View for BrokerOperation {
    type V = OperationView;

    open spec fn view(&self) -> OperationView {
        match *self {
            BrokerOperation::Enqueue { namespace, target_cursor, timestamp_ms } =>
                OperationView::Enqueue { namespace: namespace@, target_cursor, timestamp_ms },
            BrokerOperation::Claim { worker_id, lease_ms, timestamp_ms } => OperationView::Claim {
                worker_id: worker_id@,
                lease_ms,
                timestamp_ms,
            },
            BrokerOperation::Heartbeat { handle, lease_ms, timestamp_ms } =>
                OperationView::Heartbeat { handle: handle@, lease_ms, timestamp_ms },
            BrokerOperation::Complete { handle } => OperationView::Complete { handle: handle@ },
            BrokerOperation::Fail { handle, retry_delay_ms, timestamp_ms } => OperationView::Fail {
                handle: handle@,
                retry_delay_ms,
                timestamp_ms,
            },
        }
    }
}

/// The answer to a request that was carried out.
#[derive(Clone, Debug)]
pub enum BrokerReply {
    Enqueued(EnqueueOutcome),
    Claimed(Option<ClaimedJob>),
    Heartbeat(u64),
    Completed,
    Failed,
}

pub enum ReplyView {
    Enqueued(EnqueueOutcome),
    Claimed(Option<(JobView, HandleView)>),
    Heartbeat(u64),
    Completed,
    Failed,
}

impl View for BrokerReply {
    type V = ReplyView;

    open spec fn view(&self) -> ReplyView {
        match *self {
            BrokerReply::Enqueued(outcome) => ReplyView::Enqueued(outcome),
            BrokerReply::Claimed(None) => ReplyView::Claimed(None),
            BrokerReply::Claimed(Some(c)) => ReplyView::Claimed(Some((c.job@, c.handle@))),
            BrokerReply::Heartbeat(expires) => ReplyView::Heartbeat(expires),
            BrokerReply::Completed => ReplyView::Completed,
            BrokerReply::Failed => ReplyView::Failed,
        }
    }
}

/// Why a request is refused.
pub enum Refusal {
    InvalidNamespace,
    InvalidClaim,
    Exhausted,
}

/// The error is the one of a refusal.
pub open spec fn refused_with(e: Error, why: Refusal) -> bool {
    match why {
        Refusal::InvalidNamespace => e is InvalidWrite,
        Refusal::InvalidClaim => e is InvalidQueueClaim,
        Refusal::Exhausted => e is Corrupt,
    }
}

/// What a request is answered.
pub open spec fn reply_to(q: QueueView, op: OperationView) -> Result<ReplyView, Refusal> {
    match op {
        OperationView::Enqueue { namespace, target_cursor, timestamp_ms } => {
            let outcome = enqueue_outcome(q, namespace, target_cursor);
            if !namespace::is_namespace_name(namespace) {
                Err(Refusal::InvalidNamespace)
            } else if outcome is Added && q.next_job_id == u64::MAX {
                Err(Refusal::Exhausted)
            } else {
                Ok(ReplyView::Enqueued(outcome))
            }
        },
        OperationView::Claim { worker_id, lease_ms, timestamp_ms } => {
            let i = next_claimable(q.jobs, timestamp_ms);
            if worker_id.len() == 0 || lease_ms == 0 {
                Err(Refusal::InvalidClaim)
            } else if i >= q.jobs.len() {
                Ok(ReplyView::Claimed(None))
            } else if q.jobs[i].attempts == u32::MAX {
                Err(Refusal::Exhausted)
            } else {
                let taken = claimed_job(q.jobs[i], worker_id, lease_ms, timestamp_ms);
                Ok(
                    ReplyView::Claimed(
                        Some(
                            (
                                taken,
                                HandleView {
                                    job_id: taken.id,
                                    worker_id,
                                    attempt: taken.attempts,
                                },
                            ),
                        ),
                    ),
                )
            }
        },
        OperationView::Heartbeat { handle, lease_ms, timestamp_ms } => {
            let i = held_job(q.jobs, handle);
            if lease_ms == 0 || i >= q.jobs.len() || !live(q.jobs[i], timestamp_ms) {
                Err(Refusal::InvalidClaim)
            } else {
                let kept = extended_job(q.jobs[i], lease_ms, timestamp_ms);
                Ok(ReplyView::Heartbeat(kept.claim->Some_0.lease_expires_at_ms))
            }
        },
        OperationView::Complete { handle } => if held_job(q.jobs, handle) >= q.jobs.len() {
            Err(Refusal::InvalidClaim)
        } else {
            Ok(ReplyView::Completed)
        },
        OperationView::Fail { handle, retry_delay_ms, timestamp_ms } => if held_job(q.jobs, handle)
            >= q.jobs.len() {
            Err(Refusal::InvalidClaim)
        } else {
            Ok(ReplyView::Failed)
        },
    }
}

/// What is said of a refused request.
pub open spec fn operation_complaint(q: QueueView, op: OperationView) -> Seq<char> {
    match op {
        OperationView::Enqueue { namespace, .. } => if !namespace::is_namespace_name(namespace) {
            namespace::name_complaint(namespace)
        } else {
            "indexing queue job id exhausted"@
        },
        OperationView::Claim { worker_id, lease_ms, timestamp_ms } => if worker_id.len() == 0
            || lease_ms == 0 {
            claim_complaint(worker_id)
        } else {
            attempts_complaint(q.jobs[next_claimable(q.jobs, timestamp_ms)])
        },
        OperationView::Heartbeat { handle, lease_ms, .. } => heartbeat_complaint(
            q.jobs,
            handle,
            lease_ms,
        ),
        OperationView::Complete { handle } => handle_complaint(q.jobs, handle),
        OperationView::Fail { handle, .. } => handle_complaint(q.jobs, handle),
    }
}

/// What a request does to the queue. A refused request does nothing.
pub open spec fn after_operation(q: QueueView, op: OperationView) -> QueueView {
    if reply_to(q, op) is Err {
        q
    } else {
        match op {
            OperationView::Enqueue { namespace, target_cursor, timestamp_ms } => after_enqueue(
                q,
                namespace,
                target_cursor,
                timestamp_ms,
            ),
            OperationView::Claim { worker_id, lease_ms, timestamp_ms } => {
                let i = next_claimable(q.jobs, timestamp_ms);
                if i >= q.jobs.len() {
                    q
                } else {
                    QueueView {
                        jobs: q.jobs.update(
                            i,
                            claimed_job(q.jobs[i], worker_id, lease_ms, timestamp_ms),
                        ),
                        ..q
                    }
                }
            },
            OperationView::Heartbeat { handle, lease_ms, timestamp_ms } => {
                let i = held_job(q.jobs, handle);
                QueueView {
                    jobs: q.jobs.update(i, extended_job(q.jobs[i], lease_ms, timestamp_ms)),
                    ..q
                }
            },
            OperationView::Complete { handle } => QueueView {
                jobs: q.jobs.remove(held_job(q.jobs, handle)),
                ..q
            },
            OperationView::Fail { handle, retry_delay_ms, timestamp_ms } => {
                let i = held_job(q.jobs, handle);
                QueueView {
                    jobs: q.jobs.update(i, failed_job(q.jobs[i], retry_delay_ms, timestamp_ms)),
                    ..q
                }
            },
        }
    }
}

impl BrokerOperation {
    /// When the request was made, if it depends on the time.
    pub fn timestamp_ms(&self) -> (r: Option<u64>)
        ensures
            r == operation_time(self@),
    {
        match self {
            BrokerOperation::Enqueue { timestamp_ms, .. } => Some(*timestamp_ms),
            BrokerOperation::Claim { timestamp_ms, .. } => Some(*timestamp_ms),
            BrokerOperation::Heartbeat { timestamp_ms, .. } => Some(*timestamp_ms),
            BrokerOperation::Fail { timestamp_ms, .. } => Some(*timestamp_ms),
            BrokerOperation::Complete { .. } => None,
        }
    }

    /// Carries the request out.
    pub fn apply(&self, queue: &mut QueueFile) -> (r: Result<Mutation<BrokerReply>, Error>)
        ensures
            final(queue)@ == after_operation(old(queue)@, self@),
            match reply_to(old(queue)@, self@) {
                Ok(reply) => {
                    &&& r is Ok
                    &&& r->Ok_0.value()@ == reply
                    &&& r->Ok_0 is Changed == (final(queue)@ != old(queue)@)
                },
                Err(why) => r is Err && refused_with(r->Err_0, why) && error::held_text(r->Err_0)
                    == operation_complaint(old(queue)@, self@),
            },
            queue_valid(old(queue)@) ==> queue_valid(final(queue)@),
    {
        let ghost q = queue@;
        match self {
            BrokerOperation::Enqueue { namespace, target_cursor, timestamp_ms } => match queue.enqueue(
                namespace.as_str(),
                *target_cursor,
                *timestamp_ms,
            ) {
                Ok(m) => Ok(
                    match m {
                        Mutation::Unchanged(o) => Mutation::Unchanged(BrokerReply::Enqueued(o)),
                        Mutation::Changed(o) => Mutation::Changed(BrokerReply::Enqueued(o)),
                    },
                ),
                Err(e) => Err(e),
            },
            BrokerOperation::Claim { worker_id, lease_ms, timestamp_ms } => match queue.claim(
                worker_id.as_str(),
                *lease_ms,
                *timestamp_ms,
            ) {
                Ok(m) => {
                    proof {
                        let i = next_claimable(q.jobs, *timestamp_ms);
                        seqs::lemma_first_where(
                            q.jobs,
                            |job: JobView| claimable(q.jobs, job, *timestamp_ms),
                        );
                        if i < q.jobs.len() {
                            assert(queue@.jobs[i].attempts != q.jobs[i].attempts);
                        }
                    }
                    Ok(
                        match m {
                            Mutation::Unchanged(c) => Mutation::Unchanged(BrokerReply::Claimed(c)),
                            Mutation::Changed(c) => Mutation::Changed(BrokerReply::Claimed(c)),
                        },
                    )
                },
                Err(e) => Err(e),
            },
            BrokerOperation::Heartbeat { handle, lease_ms, timestamp_ms } => match queue.heartbeat(
                handle,
                *lease_ms,
                *timestamp_ms,
            ) {
                Ok(m) => {
                    proof {
                        let i = held_job(q.jobs, handle@);
                        seqs::lemma_first_where(q.jobs, |job: JobView| job.id == handle.job_id);
                        if queue@.jobs[i] == q.jobs[i] {
                            assert(q.jobs.update(i, q.jobs[i]) =~= q.jobs);
                        }
                    }
                    Ok(
                        match m {
                            Mutation::Unchanged(t) => Mutation::Unchanged(
                                BrokerReply::Heartbeat(t),
                            ),
                            Mutation::Changed(t) => Mutation::Changed(BrokerReply::Heartbeat(t)),
                        },
                    )
                },
                Err(e) => Err(e),
            },
            BrokerOperation::Complete { handle } => match queue.complete(handle) {
                Ok(_) => {
                    proof {
                        seqs::lemma_first_where(q.jobs, |job: JobView| job.id == handle.job_id);
                        assert(queue@.jobs.len() == q.jobs.len() - 1);
                    }
                    Ok(Mutation::Changed(BrokerReply::Completed))
                },
                Err(e) => Err(e),
            },
            BrokerOperation::Fail { handle, retry_delay_ms, timestamp_ms } => match queue.fail(
                handle,
                *retry_delay_ms,
                *timestamp_ms,
            ) {
                Ok(_) => {
                    proof {
                        let i = held_job(q.jobs, handle@);
                        seqs::lemma_first_where(q.jobs, |job: JobView| job.id == handle.job_id);
                        assert(queue@.jobs[i].claim is None);
                    }
                    Ok(Mutation::Changed(BrokerReply::Failed))
                },
                Err(e) => Err(e),
            },
        }
    }
}

/// When a request was made, if it depends on the time.
pub open spec fn operation_time(op: OperationView) -> Option<u64> {
    match op {
        OperationView::Enqueue { namespace, target_cursor, timestamp_ms } => Some(timestamp_ms),
        OperationView::Claim { worker_id, lease_ms, timestamp_ms } => Some(timestamp_ms),
        OperationView::Heartbeat { handle, lease_ms, timestamp_ms } => Some(timestamp_ms),
        OperationView::Fail { handle, retry_delay_ms, timestamp_ms } => Some(timestamp_ms),
        OperationView::Complete { handle } => None,
    }
}

pub open spec fn operations_view(ops: Seq<BrokerOperation>) -> Seq<OperationView> {
    Seq::new(ops.len(), |i: int| ops[i]@)
}

/// The queue after the first `n` requests of a batch.
pub open spec fn after_operations(q: QueueView, ops: Seq<OperationView>, n: int) -> QueueView
    decreases n,
{
    if n <= 0 {
        q
    } else {
        after_operation(after_operations(q, ops, n - 1), ops[n - 1])
    }
}

/// The answers to a batch of requests, and whether the queue has to be stored.
pub struct BatchOutcome {
    pub replies: Vec<Result<BrokerReply, Error>>,
    pub changed: bool,
}

/// An answer is the one that a request gets in a queue.
pub open spec fn answered(q: QueueView, op: OperationView, r: Result<BrokerReply, Error>) -> bool {
    match reply_to(q, op) {
        Ok(reply) => r is Ok && r->Ok_0@ == reply,
        Err(why) => r is Err && refused_with(r->Err_0, why) && error::held_text(r->Err_0)
            == operation_complaint(q, op),
    }
}

/// The latest time of a batch's requests.
pub fn batch_timestamp(ops: &Vec<BrokerOperation>) -> (r: Option<u64>)
    ensures
        r is None ==> forall|i: int|
            0 <= i < ops@.len() ==> operation_time(#[trigger] ops@[i]@) is None,
        r matches Some(t) ==> {
            &&& exists|i: int| 0 <= i < ops@.len() && operation_time(#[trigger] ops@[i]@) == Some(t)
            &&& forall|i: int|
                0 <= i < ops@.len() ==> (operation_time(#[trigger] ops@[i]@) matches Some(u) ==> u
                    <= t)
        },
{
    let mut latest: Option<u64> = None;
    let mut i: usize = 0;
    while i < ops.len()
        invariant
            i <= ops@.len(),
            latest is None ==> forall|k: int|
                0 <= k < i ==> operation_time(#[trigger] ops@[k]@) is None,
            latest matches Some(t) ==> {
                &&& exists|k: int| 0 <= k < i && operation_time(#[trigger] ops@[k]@) == Some(t)
                &&& forall|k: int|
                    0 <= k < i ==> (operation_time(#[trigger] ops@[k]@) matches Some(u) ==> u <= t)
            },
        decreases ops@.len() - i,
    {
        let time = ops[i].timestamp_ms();
        match time {
            None => {},
            Some(t) => {
                assert(operation_time(ops@[i as int]@) == Some(t));
                match latest {
                    None => {
                        latest = Some(t);
                    },
                    Some(l) => {
                        if t > l {
                            latest = Some(t);
                        }
                    },
                }
            },
        }
        i = i + 1;
    }
    latest
}

/// Carries out a batch of requests in order. A refused request does not affect
/// the others. A broker that no longer owns the queue is refused as a whole.
pub fn apply_batch(
    queue: &mut QueueFile,
    ops: &Vec<BrokerOperation>,
    owner: Option<&BrokerRegistration>,
) -> (r: Result<BatchOutcome, Error>)
    ensures
        ({
            let q = old(queue)@;
            let views = operations_view(ops@);
            if owner is Some && q.broker != Some(owner->Some_0@) {
                &&& r is Err
                &&& r->Err_0 is InvalidQueueBroker
                &&& r->Err_0->InvalidQueueBroker_0@ == "broker "@ + owner->Some_0.owner_id@
                    + " generation "@ + strings::decimal(owner->Some_0.generation as nat)
                    + " no longer owns the queue"@
                &&& *final(queue) == *old(queue)
            } else {
                &&& r is Ok
                &&& final(queue)@ == after_operations(q, views, views.len() as int)
                &&& r->Ok_0.replies@.len() == views.len()
                &&& forall|i: int|
                    0 <= i < views.len() ==> answered(
                        after_operations(q, views, i),
                        views[i],
                        #[trigger] r->Ok_0.replies@[i],
                    )
                &&& r->Ok_0.changed == exists|i: int|
                    0 <= i < views.len() && #[trigger] after_operations(q, views, i + 1)
                        != after_operations(q, views, i)
            }
        }),
        queue_valid(old(queue)@) ==> queue_valid(final(queue)@),
{
    let ghost q = queue@;
    let ghost views = operations_view(ops@);
    if let Some(owner) = owner {
        let owned = match &queue.broker {
            Some(broker) => broker.generation == owner.generation && same_text(
                broker.address.as_str(),
                owner.address.as_str(),
            ) && same_text(broker.owner_id.as_str(), owner.owner_id.as_str()),
            None => false,
        };
        if !owned {
            return Err(
                Error::InvalidQueueBroker(
                    say("broker ").and(owner.owner_id.as_str()).and(" generation ").number(
                        owner.generation,
                    ).and(" no longer owns the queue").done(),
                ),
            );
        }
    }
    let mut replies: Vec<Result<BrokerReply, Error>> = Vec::new();
    let mut changed = false;
    let mut i: usize = 0;
    while i < ops.len()
        invariant
            i <= ops@.len(),
            views == operations_view(ops@),
            queue@ == after_operations(q, views, i as int),
            queue_valid(q) ==> queue_valid(queue@),
            replies@.len() == i,
            forall|k: int|
                0 <= k < i ==> answered(
                    after_operations(q, views, k),
                    views[k],
                    #[trigger] replies@[k],
                ),
            changed == exists|k: int|
                0 <= k < i && #[trigger] after_operations(q, views, k + 1) != after_operations(
                    q,
                    views,
                    k,
                ),
        decreases ops@.len() - i,
    {
        let ghost before = queue@;
        let ghost was_changed = changed;
        assert(views[i as int] == ops@[i as int]@);
        let reply = match ops[i].apply(queue) {
            Ok(mutation) => {
                let (reply, operation_changed) = mutation.into_parts();
                if operation_changed {
                    changed = true;
                }
                Ok(reply)
            },
            Err(e) => Err(e),
        };
        assert(queue@ == after_operations(q, views, i + 1));
        replies.push(reply);
        proof {
            if queue@ != before {
                assert(after_operations(q, views, i + 1) != after_operations(q, views, i as int));
            }
            if was_changed {
                let k = choose|k: int|
                    0 <= k < i && #[trigger] after_operations(q, views, k + 1) != after_operations(
                        q,
                        views,
                        k,
                    );
                assert(after_operations(q, views, k + 1) != after_operations(q, views, k));
            }
        }
        i = i + 1;
    }
    Ok(BatchOutcome { replies, changed })
}

/// The error that every member of a batch gets when the batch as a whole fails.
pub fn copy_batch_error(error: &Error) -> (e: Error)
    ensures
        is_batch_error(*error, e),
{
    match error {
        Error::InvalidQueueBroker(m) => Error::InvalidQueueBroker(m.clone()),
        Error::InvalidQueueClaim(m) => Error::InvalidQueueClaim(m.clone()),
        Error::InvalidWrite(m) => Error::InvalidWrite(m.clone()),
        _ => Error::Io(
            say("indexing queue broker batch failed: ").and(error.message().as_str()).done(),
        ),
    }
}

/// How the commit of a batch ended.
#[derive(Debug)]
pub enum CommitOutcome {
    Committed(Vec<Result<BrokerReply, Error>>),
    Failed(Error),
    TimedOut,
}

/// What the members of a batch are told, and whether the broker goes on.
#[derive(Debug)]
pub struct SettledBatch {
    pub answers: Vec<Result<BrokerReply, Error>>,
    pub goes_on: bool,
}

/// The error that every member of a failed batch gets.
pub open spec fn is_batch_error(error: Error, e: Error) -> bool {
    match error {
        Error::InvalidQueueBroker(m) => e is InvalidQueueBroker && e->InvalidQueueBroker_0@ == m@,
        Error::InvalidQueueClaim(m) => e is InvalidQueueClaim && e->InvalidQueueClaim_0@ == m@,
        Error::InvalidWrite(m) => e is InvalidWrite && e->InvalidWrite_0@ == m@,
        _ => e is Io && e->Io_0@ == "indexing queue broker batch failed: "@ + error::message_of(
            error,
        ),
    }
}

/// Tells the members of a batch how its commit ended. After a commit each gets its
/// own reply. Otherwise all get the same error, and a broker that lost the queue, or
/// does not know whether its commit is durable, stops.
pub fn settle_batch(outcome: CommitOutcome, members: usize) -> (r: SettledBatch)
    ensures
        match outcome {
            CommitOutcome::Committed(replies) => r.goes_on && r.answers == replies,
            CommitOutcome::Failed(error) => {
                &&& r.goes_on == !(error is InvalidQueueBroker)
                &&& r.answers@.len() == members
                &&& forall|i: int|
                    0 <= i < members ==> (#[trigger] r.answers@[i]) is Err && is_batch_error(
                        error,
                        r.answers@[i]->Err_0,
                    )
            },
            CommitOutcome::TimedOut => {
                &&& !r.goes_on
                &&& r.answers@.len() == members
                &&& forall|i: int|
                    0 <= i < members ==> (#[trigger] r.answers@[i]) is Err
                        && r.answers@[i]->Err_0 is Io
            },
        },
{
    let (error, goes_on) = match outcome {
        CommitOutcome::Committed(replies) => {
            return SettledBatch { answers: replies, goes_on: true };
        },
        CommitOutcome::Failed(error) => {
            let lost = matches!(error, Error::InvalidQueueBroker(_));
            (error, !lost)
        },
        CommitOutcome::TimedOut => (
            Error::Io("indexing queue broker group commit timed out".to_owned()),
            false,
        ),
    };
    let mut answers: Vec<Result<BrokerReply, Error>> = Vec::new();
    while answers.len() < members
        invariant
            answers@.len() <= members,
            forall|i: int|
                0 <= i < answers@.len() ==> (#[trigger] answers@[i]) is Err && is_batch_error(
                    error,
                    answers@[i]->Err_0,
                ),
        decreases members - answers@.len(),
    {
        answers.push(Err(copy_batch_error(&error)));
    }
    SettledBatch { answers, goes_on }
}

/// The error for a reply that does not belong to the request.
pub fn unexpected_broker_reply(operation: &str) -> (e: Error)
    ensures
        e is Corrupt,
        e->Corrupt_0@ == "indexing queue broker returned the wrong reply for "@ + operation@,
{
    let mut text = "indexing queue broker returned the wrong reply for ".to_owned();
    text.append(operation);
    Error::Corrupt(text)
}

// ---------------------------------------------------------------------------
// Storing the queue
// ---------------------------------------------------------------------------

/// How a compare-and-set of a stored file ended.
#[derive(Clone, Copy, Debug, PartialEq, Eq, Structural)]
pub enum CasOutcome {
    Stored,
    Mismatch,
    Failed,
}

/// What to do next.
#[derive(Clone, Copy, Debug, PartialEq, Eq, Structural)]
pub enum CasDecision {
    /// The new state is durable.
    Done,
    /// Read the file again and repeat the operation.
    Retry,
    /// Report the error.
    GiveUp,
}

/// A lost race is retried, but only so many times.
pub fn after_cas(attempt: usize, outcome: CasOutcome) -> (d: CasDecision)
    requires
        attempt < MAX_CAS_ATTEMPTS,
    ensures
        d == (match outcome {
            CasOutcome::Stored => CasDecision::Done,
            CasOutcome::Mismatch => if attempt + 1 < MAX_CAS_ATTEMPTS {
                CasDecision::Retry
            } else {
                CasDecision::GiveUp
            },
            CasOutcome::Failed => CasDecision::GiveUp,
        }),
{
    match outcome {
        CasOutcome::Stored => CasDecision::Done,
        CasOutcome::Mismatch => if attempt + 1 < MAX_CAS_ATTEMPTS {
            CasDecision::Retry
        } else {
            CasDecision::GiveUp
        },
        CasOutcome::Failed => CasDecision::GiveUp,
    }
}

/// Counts a try at storing the queue.
pub fn record_cas(metrics: &mut QueueMetrics, outcome: CasOutcome)
    ensures
        *final(metrics) == (QueueMetrics {
            cas_attempts: old(metrics).cas_attempts.wrapping_add(1),
            cas_successes: if outcome == CasOutcome::Stored {
                old(metrics).cas_successes.wrapping_add(1)
            } else {
                old(metrics).cas_successes
            },
            cas_retries: if outcome == CasOutcome::Mismatch {
                old(metrics).cas_retries.wrapping_add(1)
            } else {
                old(metrics).cas_retries
            },
            ..*old(metrics)
        }),
{
    incr(&mut metrics.cas_attempts);
    match outcome {
        CasOutcome::Stored => {
            incr(&mut metrics.cas_successes);
        },
        CasOutcome::Mismatch => {
            incr(&mut metrics.cas_retries);
        },
        CasOutcome::Failed => {},
    }
}

/// How often a lease is renewed: three times per lease, and at least every
/// millisecond.
pub fn heartbeat_interval_ms(lease_ms: u64) -> (ms: u64)
    ensures
        lease_ms == 0 ==> ms == 1,
        lease_ms > 0 ==> ms == (lease_ms + 2) / 3,
{
    let third: u64 = lease_ms / 3;
    let ms: u64 = if lease_ms % 3 > 0 {
        third + 1
    } else {
        third
    };
    if ms == 0 {
        1
    } else {
        ms
    }
}

/// Whether an index that reaches `indexed` has done a job with `target`.
pub fn job_is_done(indexed: Option<WalCursor>, target: WalCursor) -> (b: bool)
    ensures
        b == (indexed matches Some(c) && wal::cursor_le(target, c)),
{
    match indexed {
        None => false,
        Some(c) => !c.is_before(&target),
    }
}

// ---------------------------------------------------------------------------
// Reconciliation
// ---------------------------------------------------------------------------

/// The name of the namespace whose manifest pointer a key is.
pub open spec fn pointer_name(key: Seq<char>) -> Option<Seq<char>> {
    let head = "namespaces/"@;
    let tail = "/manifest/current"@;
    let n = key.len() - head.len() - tail.len();
    if n <= 0 {
        None
    } else {
        let name = key.subrange(head.len() as int, head.len() + n);
        if key == head + name + tail {
            Some(name)
        } else {
            None
        }
    }
}

/// The name of the namespace whose manifest pointer a key is.
pub fn namespace_of_pointer(key: &str) -> (r: Option<String>)
    ensures
        match pointer_name(key@) {
            Some(name) => r is Some && r->Some_0@ == name,
            None => r is None,
        },
{
    let chars = chars_of(key);
    let head = chars_of("namespaces/");
    let tail = chars_of("/manifest/current");
    proof {
        reveal_strlit("namespaces/");
        reveal_strlit("/manifest/current");
    }
    if chars.len() <= head.len() + tail.len() {
        return None;
    }
    let name_end: usize = chars.len() - tail.len();
    let mut name: Vec<char> = Vec::new();
    let mut i: usize = 0;
    while i < chars.len()
        invariant
            i <= chars@.len(),
            chars@ == key@,
            head@ == "namespaces/"@,
            tail@ == "/manifest/current"@,
            head@.len() < name_end,
            name_end == chars@.len() - tail@.len(),
            forall|k: int| 0 <= k < i && k < head@.len() ==> chars@[k] == head@[k],
            forall|k: int| name_end <= k < i ==> chars@[k] == tail@[k - name_end],
            i <= head@.len() ==> name@.len() == 0,
            head@.len() <= i <= name_end ==> name@ == key@.subrange(head@.len() as int, i as int),
            i > name_end ==> name@ == key@.subrange(head@.len() as int, name_end as int),
        decreases chars@.len() - i,
    {
        let c = chars[i];
        let ghost before = name@;
        if i < head.len() {
            if c != head[i] {
                assert(pointer_name(key@) is None) by {
                    if let Some(n) = pointer_name(key@) {
                        assert((head@ + n + tail@)[i as int] == head@[i as int]);
                    }
                }
                return None;
            }
        } else if i >= name_end {
            if c != tail[i - name_end] {
                assert(pointer_name(key@) is None) by {
                    if let Some(n) = pointer_name(key@) {
                        assert((head@ + n + tail@)[i as int] == tail@[i - name_end]);
                    }
                }
                return None;
            }
        } else {
            name.push(c);
            assert(key@.subrange(head@.len() as int, i + 1) =~= key@.subrange(
                head@.len() as int,
                i as int,
            ).push(c));
            proof {
                if i == head@.len() {
                    assert(before =~= key@.subrange(head@.len() as int, i as int));
                }
            }
        }
        i = i + 1;
        proof {
            if i == head@.len() {
                assert(name@ =~= key@.subrange(head@.len() as int, i as int));
            }
        }
    }
    assert(key@ =~= head@ + name@ + tail@);
    Some(text_of(name.as_slice()))
}

/// The names of all namespaces that have a manifest pointer among the keys.
pub fn list_namespace_names(keys: &Vec<String>) -> (names: TextSet)
    ensures
        names.wf(),
        forall|name: Seq<char>|
            #[trigger] names.set().contains(name) == exists|i: int|
                0 <= i < keys@.len() && pointer_name(#[trigger] keys@[i]@) == Some(name),
{
    let mut names = TextSet::new();
    let mut i: usize = 0;
    while i < keys.len()
        invariant
            i <= keys@.len(),
            names.wf(),
            forall|name: Seq<char>|
                #[trigger] names.set().contains(name) == exists|k: int|
                    0 <= k < i && pointer_name(#[trigger] keys@[k]@) == Some(name),
        decreases keys@.len() - i,
    {
        let ghost before = names.set();
        match namespace_of_pointer(keys[i].as_str()) {
            Some(name) => {
                let ghost n = name@;
                let _ = names.insert(name);
                assert forall|x: Seq<char>| #[trigger] names.set().contains(x) == exists|k: int|
                    0 <= k < i + 1 && pointer_name(#[trigger] keys@[k]@) == Some(x) by {
                    if x == n {
                        assert(pointer_name(keys@[i as int]@) == Some(x));
                    } else {
                        assert(names.set().contains(x) == before.contains(x));
                    }
                }
            },
            None => {},
        }
        i = i + 1;
    }
    names
}

/// What a scan saw of a namespace.
#[derive(Clone, Debug)]
pub struct NamespaceProgress {
    pub namespace: String,
    pub commit: WalCursor,
    pub indexed: Option<WalCursor>,
    pub unindexed_bytes: u64,
}

/// Where the index of a namespace has got to; nowhere, if it has none.
pub open spec fn indexed_position(p: NamespaceProgress) -> WalCursor {
    match p.indexed {
        Some(c) => c,
        None => WalCursor { epoch: p.commit.epoch, seq: 0 },
    }
}

/// The namespace has committed writes that are not indexed.
pub open spec fn is_lagging(p: NamespaceProgress) -> bool {
    wal::cursor_lt(indexed_position(p), p.commit)
}

/// The index claims more than was committed.
pub open spec fn is_ahead(p: NamespaceProgress) -> bool {
    p.indexed matches Some(c) && wal::cursor_lt(p.commit, c)
}

/// How far a namespace lags.
pub open spec fn lag_of(p: NamespaceProgress) -> IndexLagSample {
    IndexLagSample {
        unindexed_bytes: p.unindexed_bytes,
        unindexed_batches: if p.commit.seq >= indexed_position(p).seq {
            (p.commit.seq - indexed_position(p).seq) as u64
        } else {
            0
        },
    }
}

/// The lag of each namespace of the first `n` observations.
pub open spec fn lag_map(ps: Seq<NamespaceProgress>, n: int) -> Map<Seq<char>, IndexLagSample>
    decreases n,
{
    if n <= 0 {
        Map::empty()
    } else {
        lag_map(ps, n - 1).insert(ps[n - 1].namespace@, lag_of(ps[n - 1]))
    }
}

/// What a scan found: the lag of every namespace, and which ones to notify, as
/// positions in the list of observations.
pub struct ReconcilePlan {
    pub lag: TextMap<IndexLagSample>,
    pub lagging: Vec<usize>,
}

/// Works out which namespaces missed a notification.
pub fn plan_reconcile(seen: &Vec<NamespaceProgress>) -> (r: Result<ReconcilePlan, Error>)
    ensures
        (exists|i: int| 0 <= i < seen@.len() && is_ahead(#[trigger] seen@[i])) ==> r is Err
            && r->Err_0 is Corrupt,
        (forall|i: int| 0 <= i < seen@.len() ==> !is_ahead(#[trigger] seen@[i])) ==> r is Ok && {
            let plan = r->Ok_0;
            &&& plan.lag.wf()
            &&& plan.lag.map() == lag_map(seen@, seen@.len() as int)
            &&& forall|k: int|
                0 <= k < plan.lagging@.len() ==> #[trigger] plan.lagging@[k] < seen@.len()
                    && is_lagging(seen@[plan.lagging@[k] as int])
            &&& forall|j: int, k: int|
                0 <= j < k < plan.lagging@.len() ==> #[trigger] plan.lagging@[j]
                    < #[trigger] plan.lagging@[k]
            &&& forall|i: int|
                0 <= i < seen@.len() && is_lagging(#[trigger] seen@[i])
                    ==> plan.lagging@.contains(i as usize)
        },
{
    let mut lag: TextMap<IndexLagSample> = TextMap::new();
    let mut lagging: Vec<usize> = Vec::new();
    let mut i: usize = 0;
    while i < seen.len()
        invariant
            i <= seen@.len(),
            lag.wf(),
            lag.map() == lag_map(seen@, i as int),
            forall|k: int| 0 <= k < i ==> !is_ahead(#[trigger] seen@[k]),
            forall|k: int|
                0 <= k < lagging@.len() ==> #[trigger] lagging@[k] < i && is_lagging(
                    seen@[lagging@[k] as int],
                ),
            forall|j: int, k: int|
                0 <= j < k < lagging@.len() ==> #[trigger] lagging@[j] < #[trigger] lagging@[k],
            forall|k: int|
                0 <= k < i && is_lagging(#[trigger] seen@[k]) ==> lagging@.contains(k as usize),
        decreases seen@.len() - i,
    {
        let p = &seen[i];
        let mut indexed = WalCursor::new(p.commit.epoch, 0);
        match p.indexed {
            Some(c) => {
                if p.commit.is_before(&c) {
                    assert(is_ahead(seen@[i as int]));
                    return Err(Error::Corrupt(
                            say("namespace ").quote(p.namespace.as_str()).and(
                                " indexed cursor ",
                            ).and(position_text(p.indexed).as_str()).and(
                                " is ahead of commit ",
                            ).and(p.commit.text().as_str()).done(),
                        ));
                }
                indexed = c;
            },
            None => {},
        }
        assert(indexed == indexed_position(seen@[i as int]));
        let sample = IndexLagSample {
            unindexed_bytes: p.unindexed_bytes,
            unindexed_batches: p.commit.seq.saturating_sub(indexed.seq),
        };
        let _ = lag.insert(p.namespace.clone(), sample);
        let ghost before = lagging@;
        if indexed.is_before(&p.commit) {
            lagging.push(i);
            assert(lagging@[before.len() as int] == i);
            assert forall|k: int| 0 <= k < i + 1 && is_lagging(
                #[trigger] seen@[k],
            ) implies lagging@.contains(k as usize) by {
                if k < i {
                    let j = before.index_of(k as usize);
                    assert(lagging@[j] == k as usize);
                }
            }
        }
        i = i + 1;
    }
    Ok(ReconcilePlan { lag, lagging })
}

/// What a reconciliation did.
pub struct ReconcileReport {
    pub scanned_namespaces: usize,
    pub lagging_namespaces: usize,
    pub notifications_added: usize,
    pub notifications_coalesced: usize,
    pub lag: TextMap<IndexLagSample>,
}

impl ReconcileReport {
    /// The report before any notification was sent.
    pub fn new(scanned: usize, plan: ReconcilePlan) -> (r: ReconcileReport)
        ensures
            r.scanned_namespaces == scanned,
            r.lagging_namespaces == plan.lagging@.len(),
            r.notifications_added == 0,
            r.notifications_coalesced == 0,
            r.lag == plan.lag,
    {
        ReconcileReport {
            scanned_namespaces: scanned,
            lagging_namespaces: plan.lagging.len(),
            notifications_added: 0,
            notifications_coalesced: 0,
            lag: plan.lag,
        }
    }

    /// Counts what became of a notification. Each of the lagging namespaces is
    /// notified once.
    pub fn record(&mut self, outcome: EnqueueOutcome)
        requires
            old(self).notifications_added + old(self).notifications_coalesced < old(
                self,
            ).lagging_namespaces,
        ensures
            final(self).notifications_added == old(self).notifications_added + (if outcome
                is Added {
                1int
            } else {
                0int
            }),
            final(self).notifications_coalesced == old(self).notifications_coalesced + (if outcome
                is Coalesced {
                1int
            } else {
                0int
            }),
            final(self).scanned_namespaces == old(self).scanned_namespaces,
            final(self).lagging_namespaces == old(self).lagging_namespaces,
            final(self).lag == old(self).lag,
    {
        match outcome {
            EnqueueOutcome::Added { .. } => {
                self.notifications_added = self.notifications_added + 1;
            },
            EnqueueOutcome::Coalesced { .. } => {
                self.notifications_coalesced = self.notifications_coalesced + 1;
            },
        }
    }
}

// ---------------------------------------------------------------------------
// What holds of the queue over time
// ---------------------------------------------------------------------------

/// Every request keeps a valid queue valid.
pub proof fn law_queue_stays_valid(q: QueueView, op: OperationView)
    requires
        queue_valid(q),
    ensures
        queue_valid(after_operation(q, op)),
{
    match op {
        OperationView::Enqueue { namespace, target_cursor, timestamp_ms } => {
            let i = unclaimed_of(q.jobs, namespace);
            seqs::lemma_first_where(
                q.jobs,
                |job: JobView| job.namespace == namespace && job.claim is None,
            );
            if i < q.jobs.len() {
                assert(job_valid(q.jobs[i]));
                lemma_update_valid(q, i, JobView { target_cursor, ..q.jobs[i] });
            }
        },
        OperationView::Claim { worker_id, lease_ms, timestamp_ms } => {
            let i = next_claimable(q.jobs, timestamp_ms);
            seqs::lemma_first_where(
                q.jobs,
                |job: JobView| claimable(q.jobs, job, timestamp_ms),
            );
            if i < q.jobs.len() {
                assert(job_valid(q.jobs[i]));
                if q.jobs[i].attempts < u32::MAX {
                    lemma_update_valid(
                        q,
                        i,
                        claimed_job(q.jobs[i], worker_id, lease_ms, timestamp_ms),
                    );
                }
            }
        },
        OperationView::Heartbeat { handle, lease_ms, timestamp_ms } => {
            let i = held_job(q.jobs, handle);
            seqs::lemma_first_where(q.jobs, |job: JobView| job.id == handle.job_id);
            if i < q.jobs.len() {
                assert(job_valid(q.jobs[i]));
                lemma_update_valid(q, i, extended_job(q.jobs[i], lease_ms, timestamp_ms));
            }
        },
        OperationView::Complete { handle } => {
            let i = held_job(q.jobs, handle);
            seqs::lemma_first_where(q.jobs, |job: JobView| job.id == handle.job_id);
            if i < q.jobs.len() {
                let jobs = q.jobs.remove(i);
                assert forall|k: int, l: int| 0 <= k < l < jobs.len() implies #[trigger] jobs[k].id
                    != #[trigger] jobs[l].id by {
                    let a = if k < i { k } else { k + 1 };
                    let b = if l < i { l } else { l + 1 };
                    assert(jobs[k] == q.jobs[a]);
                    assert(jobs[l] == q.jobs[b]);
                }
                assert forall|k: int| 0 <= k < jobs.len() implies job_valid(#[trigger] jobs[k])
                    && jobs[k].id < q.next_job_id by {
                    let a = if k < i { k } else { k + 1 };
                    assert(jobs[k] == q.jobs[a]);
                }
            }
        },
        OperationView::Fail { handle, retry_delay_ms, timestamp_ms } => {
            let i = held_job(q.jobs, handle);
            seqs::lemma_first_where(q.jobs, |job: JobView| job.id == handle.job_id);
            if i < q.jobs.len() {
                assert(job_valid(q.jobs[i]));
                lemma_update_valid(q, i, failed_job(q.jobs[i], retry_delay_ms, timestamp_ms));
            }
        },
    }
}

/// Once a job has been claimed again, a handle of any other attempt no longer
/// holds it: the worker that timed out is fenced.
pub proof fn law_new_claim_fences_old_handles(
    q: QueueView,
    worker: Seq<char>,
    lease_ms: u64,
    now_ms: u64,
    old_handle: HandleView,
)
    requires
        queue_valid(q),
        worker.len() > 0,
        lease_ms > 0,
        next_claimable(q.jobs, now_ms) < q.jobs.len(),
        old_handle.job_id == q.jobs[next_claimable(q.jobs, now_ms)].id,
        q.jobs[next_claimable(q.jobs, now_ms)].attempts < u32::MAX,
        old_handle.attempt <= q.jobs[next_claimable(q.jobs, now_ms)].attempts,
    ensures
        ({
            let after = after_operation(
                q,
                OperationView::Claim { worker_id: worker, lease_ms, timestamp_ms: now_ms },
            );
            held_job(after.jobs, old_handle) >= after.jobs.len()
        }),
{
    let i = next_claimable(q.jobs, now_ms);
    seqs::lemma_first_where(q.jobs, |job: JobView| claimable(q.jobs, job, now_ms));
    let op = OperationView::Claim { worker_id: worker, lease_ms, timestamp_ms: now_ms };
    let after = after_operation(q, op);
    let p = |job: JobView| job.id == old_handle.job_id;
    assert forall|j: int| 0 <= j < i implies !p(#[trigger] after.jobs[j]) by {
        assert(after.jobs[j].id == q.jobs[j].id);
        assert(q.jobs[j].id != q.jobs[i].id);
    }
    seqs::lemma_first_is(after.jobs, p, i);
}

/// No two jobs of one namespace have live claims.
pub open spec fn one_worker_each(jobs: Seq<JobView>, now_ms: u64) -> bool {
    forall|i: int, j: int|
        0 <= i < j < jobs.len() && live(#[trigger] jobs[i], now_ms) && live(
            #[trigger] jobs[j],
            now_ms,
        ) ==> jobs[i].namespace != jobs[j].namespace
}

/// A namespace never has two workers at once: whatever request comes at a time
/// when it has at most one, it has at most one afterwards.
pub proof fn law_one_worker_per_namespace(q: QueueView, op: OperationView, now_ms: u64)
    requires
        one_worker_each(q.jobs, now_ms),
        operation_time(op) is Some ==> operation_time(op) == Some(now_ms),
    ensures
        one_worker_each(after_operation(q, op).jobs, now_ms),
{
    let after = after_operation(q, op).jobs;
    match op {
        OperationView::Enqueue { namespace, target_cursor, timestamp_ms } => {
            let i = unclaimed_of(q.jobs, namespace);
            seqs::lemma_first_where(
                q.jobs,
                |job: JobView| job.namespace == namespace && job.claim is None,
            );
            assert forall|k: int, l: int|
                0 <= k < l < after.len() && live(#[trigger] after[k], now_ms) && live(
                    #[trigger] after[l],
                    now_ms,
                ) implies after[k].namespace != after[l].namespace by {
                assert(k < q.jobs.len() && l < q.jobs.len());
                assert(live(q.jobs[k], now_ms) && live(q.jobs[l], now_ms));
            }
        },
        OperationView::Claim { worker_id, lease_ms, timestamp_ms } => {
            let i = next_claimable(q.jobs, timestamp_ms);
            seqs::lemma_first_where(
                q.jobs,
                |job: JobView| claimable(q.jobs, job, timestamp_ms),
            );
            assert forall|k: int, l: int|
                0 <= k < l < after.len() && live(#[trigger] after[k], now_ms) && live(
                    #[trigger] after[l],
                    now_ms,
                ) implies after[k].namespace != after[l].namespace by {
                if k != i && l != i {
                    assert(after[k] == q.jobs[k] && after[l] == q.jobs[l]);
                } else if i < q.jobs.len() {
                    let other = if k == i { l } else { k };
                    assert(after[other] == q.jobs[other]);
                    assert(live(q.jobs[other], now_ms));
                }
            }
        },
        OperationView::Heartbeat { handle, lease_ms, timestamp_ms } => {
            let i = held_job(q.jobs, handle);
            seqs::lemma_first_where(q.jobs, |job: JobView| job.id == handle.job_id);
            assert forall|k: int, l: int|
                0 <= k < l < after.len() && live(#[trigger] after[k], now_ms) && live(
                    #[trigger] after[l],
                    now_ms,
                ) implies after[k].namespace != after[l].namespace by {
                assert(live(q.jobs[k], now_ms) && live(q.jobs[l], now_ms));
            }
        },
        OperationView::Complete { handle } => {
            let i = held_job(q.jobs, handle);
            seqs::lemma_first_where(q.jobs, |job: JobView| job.id == handle.job_id);
            assert forall|k: int, l: int|
                0 <= k < l < after.len() && live(#[trigger] after[k], now_ms) && live(
                    #[trigger] after[l],
                    now_ms,
                ) implies after[k].namespace != after[l].namespace by {
                if i < q.jobs.len() {
                    let a = if k < i { k } else { k + 1 };
                    let b = if l < i { l } else { l + 1 };
                    assert(after[k] == q.jobs[a]);
                    assert(after[l] == q.jobs[b]);
                }
            }
        },
        OperationView::Fail { handle, retry_delay_ms, timestamp_ms } => {
            let i = held_job(q.jobs, handle);
            seqs::lemma_first_where(q.jobs, |job: JobView| job.id == handle.job_id);
            assert forall|k: int, l: int|
                0 <= k < l < after.len() && live(#[trigger] after[k], now_ms) && live(
                    #[trigger] after[l],
                    now_ms,
                ) implies after[k].namespace != after[l].namespace by {
                assert(live(q.jobs[k], now_ms) && live(q.jobs[l], now_ms));
            }
        },
    }
}

/// Time alone never gives a namespace a second worker.
pub proof fn law_leases_only_run_out(jobs: Seq<JobView>, now_ms: u64, later_ms: u64)
    requires
        one_worker_each(jobs, now_ms),
        now_ms <= later_ms,
    ensures
        one_worker_each(jobs, later_ms),
{
    assert forall|i: int, j: int|
        0 <= i < j < jobs.len() && live(#[trigger] jobs[i], later_ms) && live(
            #[trigger] jobs[j],
            later_ms,
        ) implies jobs[i].namespace != jobs[j].namespace by {
        assert(live(jobs[i], now_ms) && live(jobs[j], now_ms));
    }
}

/// After a notification the namespace has a job that covers the position: it
/// cannot get lost among coalesced ones.
pub proof fn law_notification_is_kept(q: QueueView, ns: Seq<char>, target: WalCursor, now_ms: u64)
    requires
        reply_to(
            q,
            OperationView::Enqueue { namespace: ns, target_cursor: target, timestamp_ms: now_ms },
        ) is Ok,
    ensures
        ({
            let after = after_operation(
                q,
                OperationView::Enqueue { namespace: ns, target_cursor: target, timestamp_ms: now_ms },
            );
            exists|i: int|
                0 <= i < after.jobs.len() && (#[trigger] after.jobs[i]).namespace == ns
                    && wal::cursor_le(target, after.jobs[i].target_cursor)
        }),
{
    let op = OperationView::Enqueue { namespace: ns, target_cursor: target, timestamp_ms: now_ms };
    let after = after_operation(q, op);
    let i = unclaimed_of(q.jobs, ns);
    let k = covering_of(q.jobs, ns, target);
    seqs::lemma_first_where(q.jobs, |job: JobView| job.namespace == ns && job.claim is None);
    seqs::lemma_first_where(
        q.jobs,
        |job: JobView|
            job.namespace == ns && job.claim is Some && wal::cursor_le(target, job.target_cursor),
    );
    if i < q.jobs.len() {
        wal::law_cursors_are_ordered(q.jobs[i].target_cursor, target, target);
        assert(after.jobs[i].namespace == ns);
    } else if k < q.jobs.len() {
        assert(after.jobs[k].namespace == ns);
    } else {
        assert(after.jobs[q.jobs.len() as int].namespace == ns);
    }
}

/// A job that was given back cannot be claimed before its delay is over.
pub proof fn law_failed_job_waits(
    q: QueueView,
    handle: HandleView,
    delay_ms: u64,
    now_ms: u64,
    at_ms: u64,
)
    requires
        held_job(q.jobs, handle) < q.jobs.len(),
        at_ms < later(now_ms, delay_ms),
    ensures
        ({
            let after = after_operation(
                q,
                OperationView::Fail { handle, retry_delay_ms: delay_ms, timestamp_ms: now_ms },
            );
            !claimable(after.jobs, after.jobs[held_job(q.jobs, handle)], at_ms)
        }),
{
    seqs::lemma_first_where(q.jobs, |job: JobView| job.id == handle.job_id);
}

/// A time after a while is that much later, or the last time there is.
pub proof fn law_times_only_go_on(now_ms: u64, while_ms: u64, other: u64)
    ensures
        later(now_ms, while_ms) >= now_ms,
        now_ms + while_ms <= u64::MAX ==> later(now_ms, while_ms) == now_ms + while_ms,
        now_ms + while_ms > u64::MAX ==> later(now_ms, while_ms) == u64::MAX,
        max_u64(now_ms, other) >= now_ms,
        max_u64(now_ms, other) >= other,
        max_u64(now_ms, other) == now_ms || max_u64(now_ms, other) == other,
{
}

/// The time of a job has come, and no worker holds a lease on a job of its namespace.
pub open spec fn is_open(jobs: Seq<JobView>, i: int, now_ms: u64) -> bool {
    &&& 0 <= i < jobs.len()
    &&& jobs[i].available_at_ms <= now_ms
    &&& forall|k: int|
        0 <= k < jobs.len() && (#[trigger] jobs[k]).namespace == jobs[i].namespace ==> (
        jobs[k].claim matches Some(c) ==> c.lease_expires_at_ms <= now_ms)
}

/// A job is given out to the worker of a handle, under its number of attempts.
pub open spec fn is_held_by(jobs: Seq<JobView>, i: int, h: HandleView) -> bool {
    &&& 0 <= i < jobs.len()
    &&& jobs[i].id == h.job_id
    &&& jobs[i].claim matches Some(c) && c.worker_id == h.worker_id && c.attempt == h.attempt
}

/// A claim gives out the first job, in the order in which they were added, whose time has
/// come and of whose namespace no worker holds a lease. It is held until the lease has
/// passed, under the next number of attempts, and no other job is touched. No job is
/// given out only where there is none of that kind.
pub proof fn law_claim_gives_out_the_oldest_job(
    q: QueueView,
    worker_id: Seq<char>,
    lease_ms: u64,
    now_ms: u64,
)
    requires
        worker_id.len() > 0,
        lease_ms > 0,
    ensures
        ({
            let op = OperationView::Claim { worker_id, lease_ms, timestamp_ms: now_ms };
            let after = after_operation(q, op);
            match reply_to(q, op) {
                Ok(ReplyView::Claimed(Some((job, handle)))) => exists|i: int|
                    #![trigger q.jobs[i]]
                    {
                        &&& 0 <= i < q.jobs.len()
                        &&& is_open(q.jobs, i, now_ms)
                        &&& forall|j: int| 0 <= j < i ==> !#[trigger] is_open(q.jobs, j, now_ms)
                        &&& handle == (HandleView {
                            job_id: q.jobs[i].id,
                            worker_id,
                            attempt: (q.jobs[i].attempts + 1) as u32,
                        })
                        &&& job.id == q.jobs[i].id
                        &&& job.namespace == q.jobs[i].namespace
                        &&& job.target_cursor == q.jobs[i].target_cursor
                        &&& job.claim == Some(
                            JobClaimView {
                                worker_id,
                                attempt: handle.attempt,
                                lease_expires_at_ms: later(now_ms, lease_ms),
                            },
                        )
                        &&& after.jobs == q.jobs.update(i, job)
                        &&& after.next_job_id == q.next_job_id
                    },
                Ok(ReplyView::Claimed(None)) => after == q && forall|i: int|
                    0 <= i < q.jobs.len() ==> !#[trigger] is_open(q.jobs, i, now_ms),
                Ok(_) => false,
                Err(_) => after == q,
            }
        }),
{
    let i = next_claimable(q.jobs, now_ms);
    let p = |job: JobView| claimable(q.jobs, job, now_ms);
    seqs::lemma_first_where(q.jobs, p);
    assert forall|j: int| 0 <= j < q.jobs.len() implies #[trigger] is_open(q.jobs, j, now_ms) == p(q.jobs[j]) by {
        if !p(q.jobs[j]) && q.jobs[j].available_at_ms <= now_ms {
            let k = choose|k: int|
                0 <= k < q.jobs.len() && live(#[trigger] q.jobs[k], now_ms) && q.jobs[k].namespace
                    == q.jobs[j].namespace;
            assert(q.jobs[k].claim is Some);
        }
        if p(q.jobs[j]) {
            assert forall|k: int|
                0 <= k < q.jobs.len() && (#[trigger] q.jobs[k]).namespace
                    == q.jobs[j].namespace implies (q.jobs[k].claim matches Some(c)
                ==> c.lease_expires_at_ms <= now_ms) by {
                assert(!live(q.jobs[k], now_ms));
            }
        }
    }
    if i < q.jobs.len() {
        assert(is_open(q.jobs, i, now_ms));
        assert forall|j: int| 0 <= j < i implies !#[trigger] is_open(q.jobs, j, now_ms) by {
            assert(!p(q.jobs[j]));
        }
    } else {
        assert forall|j: int| 0 <= j < q.jobs.len() implies !#[trigger] is_open(q.jobs, j, now_ms) by {
            assert(!p(q.jobs[j]));
        }
    }
}

/// Only the worker that holds a job, under the number of the attempt that it was given
/// out for, can keep it, finish it or give it back. Keeping it never makes the lease
/// shorter and makes it last at least as long as asked for; finishing it takes exactly
/// that job away; giving it back frees it for after the delay. Nothing else is touched.
pub proof fn law_only_the_holder_works_on_a_job(
    q: QueueView,
    h: HandleView,
    lease_ms: u64,
    delay_ms: u64,
    now_ms: u64,
)
    requires
        forall|i: int, j: int|
            0 <= i < j < q.jobs.len() ==> #[trigger] q.jobs[i].id != #[trigger] q.jobs[j].id,
    ensures
        ({
            let keep = OperationView::Heartbeat { handle: h, lease_ms, timestamp_ms: now_ms };
            let finish = OperationView::Complete { handle: h };
            let back = OperationView::Fail {
                handle: h,
                retry_delay_ms: delay_ms,
                timestamp_ms: now_ms,
            };
            &&& reply_to(q, finish) is Ok <==> exists|i: int| #[trigger] is_held_by(q.jobs, i, h)
            &&& reply_to(q, back) is Ok <==> exists|i: int| #[trigger] is_held_by(q.jobs, i, h)
            &&& reply_to(q, keep) is Ok <==> lease_ms > 0 && exists|i: int| #[trigger]
                is_held_by(q.jobs, i, h) && q.jobs[i].claim->Some_0.lease_expires_at_ms > now_ms
            &&& forall|i: int| #[trigger]
                is_held_by(q.jobs, i, h) ==> {
                    let gone = after_operation(q, finish).jobs;
                    let freed = after_operation(q, back).jobs;
                    let kept = after_operation(q, keep).jobs;
                    &&& gone == q.jobs.take(i) + q.jobs.skip(i + 1)
                    &&& freed.len() == q.jobs.len()
                    &&& forall|j: int| 0 <= j < q.jobs.len() && j != i ==> #[trigger] freed[j] == q.jobs[j]
                    &&& freed[i].claim is None
                    &&& freed[i].available_at_ms == later(now_ms, delay_ms)
                    &&& freed[i].id == h.job_id
                    &&& freed[i].target_cursor == q.jobs[i].target_cursor
                    &&& freed[i].attempts == q.jobs[i].attempts
                    &&& reply_to(q, keep) is Ok ==> {
                        &&& kept.len() == q.jobs.len()
                        &&& forall|j: int|
                            0 <= j < q.jobs.len() && j != i ==> #[trigger] kept[j] == q.jobs[j]
                        &&& kept[i].claim is Some
                        &&& kept[i].claim->Some_0.worker_id == h.worker_id
                        &&& kept[i].claim->Some_0.attempt == h.attempt
                        &&& kept[i].claim->Some_0.lease_expires_at_ms
                            >= q.jobs[i].claim->Some_0.lease_expires_at_ms
                        &&& kept[i].claim->Some_0.lease_expires_at_ms >= later(now_ms, lease_ms)
                        &&& reply_to(q, keep) == Ok::<ReplyView, Refusal>(
                            ReplyView::Heartbeat(kept[i].claim->Some_0.lease_expires_at_ms),
                        )
                    }
                }
        }),
{
    let p = |job: JobView| job.id == h.job_id;
    let n = job_with_id(q.jobs, h.job_id);
    seqs::lemma_first_where(q.jobs, p);
    assert forall|i: int| #[trigger] is_held_by(q.jobs, i, h) implies i == n && i == held_job(q.jobs, h) by {
        assert(p(q.jobs[i]));
        if n < i {
            assert(p(q.jobs[n]));
            assert(q.jobs[n].id != q.jobs[i].id);
        } else if i < n {
            assert(!p(q.jobs[i]));
        }
    }
    if held_job(q.jobs, h) < q.jobs.len() {
        assert(p(q.jobs[n]));
        assert(is_held_by(q.jobs, n, h));
    }
    assert forall|i: int| #[trigger] is_held_by(q.jobs, i, h) implies after_operation(
        q,
        OperationView::Complete { handle: h },
    ).jobs == q.jobs.take(i) + q.jobs.skip(i + 1) by {
        assert(q.jobs.remove(i) =~= q.jobs.take(i) + q.jobs.skip(i + 1));
    }
}

/// A notification changes at most one job, and only by moving its position on; or it adds
/// one behind all others, open to be claimed at once. It is not lost to a claimed job that
/// does not cover it: the namespace then has a job that is not claimed.
pub proof fn law_notification_touches_one_job(
    q: QueueView,
    ns: Seq<char>,
    target: WalCursor,
    now_ms: u64,
)
    requires
        reply_to(
            q,
            OperationView::Enqueue { namespace: ns, target_cursor: target, timestamp_ms: now_ms },
        ) is Ok,
    ensures
        ({
            let after = after_operation(
                q,
                OperationView::Enqueue { namespace: ns, target_cursor: target, timestamp_ms: now_ms },
            );
            &&& q.jobs.len() <= after.jobs.len() <= q.jobs.len() + 1
            &&& forall|i: int|
                0 <= i < q.jobs.len() ==> {
                    let was = #[trigger] q.jobs[i];
                    let now = after.jobs[i];
                    now == was || (was.namespace == ns && was.claim is None && now == (JobView {
                        target_cursor: target,
                        ..was
                    }) && wal::cursor_lt(was.target_cursor, target))
                }
            &&& after.jobs.len() > q.jobs.len() ==> {
                let new = after.jobs[q.jobs.len() as int];
                &&& new.namespace == ns
                &&& new.target_cursor == target
                &&& new.claim is None
                &&& new.attempts == 0
                &&& new.available_at_ms == now_ms
                &&& new.id == q.next_job_id
                &&& after.next_job_id == q.next_job_id + 1
            }
            &&& (exists|i: int|
                0 <= i < q.jobs.len() && (#[trigger] q.jobs[i]).namespace == ns && q.jobs[i].claim is None)
                ==> after.jobs.len() == q.jobs.len()
            &&& exists|i: int|
                0 <= i < after.jobs.len() && (#[trigger] after.jobs[i]).namespace == ns && (
                after.jobs[i].claim is None || !wal::cursor_lt(after.jobs[i].target_cursor, target))
        }),
{
    let open = |job: JobView| job.namespace == ns && job.claim is None;
    let covers = |job: JobView|
        job.namespace == ns && job.claim is Some && wal::cursor_le(target, job.target_cursor);
    seqs::lemma_first_where(q.jobs, open);
    seqs::lemma_first_where(q.jobs, covers);
    let i = unclaimed_of(q.jobs, ns);
    let k = covering_of(q.jobs, ns, target);
    let after = after_operation(
        q,
        OperationView::Enqueue { namespace: ns, target_cursor: target, timestamp_ms: now_ms },
    );
    if i < q.jobs.len() {
        assert(open(q.jobs[i]));
        assert(after.jobs[i].namespace == ns);
    } else if k < q.jobs.len() {
        assert(covers(q.jobs[k]));
        assert(after.jobs[k].namespace == ns);
    } else {
        assert(after.jobs[q.jobs.len() as int].namespace == ns);
    }
    if exists|i: int|
        0 <= i < q.jobs.len() && (#[trigger] q.jobs[i]).namespace == ns && q.jobs[i].claim is None {
        let j = choose|i: int|
            0 <= i < q.jobs.len() && (#[trigger] q.jobs[i]).namespace == ns && q.jobs[i].claim is None;
        assert(open(q.jobs[j]));
    }
}

/// The age of a job is the number of whole seconds since it was made.
pub proof fn law_age_counts_whole_seconds(job: JobView, now_ms: u64)
    ensures
        now_ms >= job.created_at_ms ==> 1000 * age_seconds(job, now_ms) <= now_ms
            - job.created_at_ms < 1000 * age_seconds(job, now_ms) + 1000,
        now_ms < job.created_at_ms ==> age_seconds(job, now_ms) == 0,
{
}

/// The highest number is no lower than any, and is that of a job where there is one with a
/// number above zero.
pub proof fn law_highest_number_is_that_of_a_job(jobs: Seq<JobView>, n: int, i: int)
    requires
        0 <= i < n <= jobs.len(),
    ensures
        jobs[i].id <= highest_id(jobs, n),
        highest_id(jobs, n) == 0 || exists|k: int|
            0 <= k < n && (#[trigger] jobs[k]).id == highest_id(jobs, n),
    decreases n,
{
    if n > 1 {
        law_highest_number_is_that_of_a_job(
            jobs,
            n - 1,
            if i < n - 1 {
                i
            } else {
                0
            },
        );
    } else {
        assert(highest_id(jobs, 0) == 0);
    }
    assert(jobs[n - 1].id == jobs[n - 1].id);
}

/// The requests of a batch take effect one after the other: those behind find the queue as
/// those before have left it.
pub proof fn law_batch_goes_in_order(q: QueueView, a: Seq<OperationView>, b: Seq<OperationView>)
    ensures
        after_operations(q, a + b, (a + b).len() as int) == after_operations(
            after_operations(q, a, a.len() as int),
            b,
            b.len() as int,
        ),
        after_operations(q, Seq::empty(), 0) == q,
    decreases b.len(),
{
    if b.len() == 0 {
        assert(a + b =~= a);
    } else {
        let c = b.drop_last();
        law_batch_goes_in_order(q, a, c);
        let all = a + b;
        let n = all.len() as int;
        lemma_first_operations(q, all, a + c, n - 1);
        lemma_first_operations(
            after_operations(q, a, a.len() as int),
            b,
            c,
            b.len() - 1,
        );
        assert(all[n - 1] == b[b.len() - 1]);
    }
}

proof fn lemma_first_operations(
    q: QueueView,
    a: Seq<OperationView>,
    b: Seq<OperationView>,
    n: int,
)
    requires
        0 <= n <= a.len(),
        n <= b.len(),
        forall|i: int| 0 <= i < n ==> #[trigger] a[i] == b[i],
    ensures
        after_operations(q, a, n) == after_operations(q, b, n),
    decreases n,
{
    if n > 0 {
        lemma_first_operations(q, a, b, n - 1);
        assert(a[n - 1] == b[n - 1]);
    }
}

/// The key of a namespace's manifest pointer tells its name, and no other key tells one.
pub proof fn law_pointers_tell_their_namespaces(name: Seq<char>, key: Seq<char>)
    requires
        name.len() > 0,
    ensures
        pointer_name(namespace::namespace_key(name, "/manifest/current"@)) == Some(name),
        pointer_name(key) matches Some(n) ==> n.len() > 0 && key == namespace::namespace_key(
            n,
            "/manifest/current"@,
        ),
{
    let head = "namespaces/"@;
    let tail = "/manifest/current"@;
    let all = head + name + tail;
    assert(all.subrange(head.len() as int, (head.len() + name.len()) as int) =~= name);
}

/// A namespace lags by the batches that were committed and not indexed: by none where it
/// does not lag, and by one more for each further one. It cannot lag and be ahead at once.
pub proof fn law_lag_counts_the_batches(p: NamespaceProgress)
    requires
        p.indexed matches Some(c) ==> c.epoch == p.commit.epoch,
    ensures
        is_lagging(p) <==> lag_of(p).unindexed_batches > 0,
        !(is_lagging(p) && is_ahead(p)),
        !is_ahead(p) ==> indexed_position(p).seq + lag_of(p).unindexed_batches == p.commit.seq,
        lag_of(p).unindexed_bytes == p.unindexed_bytes,
        p.indexed is None ==> lag_of(p).unindexed_batches == p.commit.seq,
{
}

/// The lag that is shown of a namespace is that of the last observation of it.
pub proof fn law_last_observation_is_shown(ps: Seq<NamespaceProgress>, n: int, i: int)
    requires
        0 <= i < n <= ps.len(),
        forall|j: int| i < j < n ==> (#[trigger] ps[j]).namespace@ != ps[i].namespace@,
    ensures
        lag_map(ps, n).dom().contains(ps[i].namespace@),
        lag_map(ps, n)[ps[i].namespace@] == lag_of(ps[i]),
    decreases n,
{
    if i < n - 1 {
        law_last_observation_is_shown(ps, n - 1, i);
        assert(ps[n - 1].namespace@ != ps[i].namespace@);
    }
}

} // verus!
