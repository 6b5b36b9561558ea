//! The life of coverage jobs: submission, cancellation, execution and the cache
//! of their results.
use crate::api::{id_text, public_error, says, spec_id_text, ApiError, JobState};
use crate::bytes::{le_bytes, push_le};
use crate::digest::{blake3_digest, digest};
use crate::float::Binary32;
use crate::fusion::same_metadata;
use crate::los::LOS_ALGORITHM_VERSION;
use crate::manifest::{is_plain_name, plain_name};
use crate::storage::Metadata;
use crate::text::{hex, hex_text, same_text};
use vstd::prelude::*;
use vstd::string::*;

verus! {

#[derive(Debug)]
pub struct JobStatus {
    pub id: u128,
    pub state: JobState,
    pub progress: Binary32,
    pub created_at: String,
    pub started_at: Option<String>,
    pub finished_at: Option<String>,
    pub error: Option<String>,
}

fn copy_text(text: &Option<String>) -> (copy: Option<String>)
    ensures
        copy == *text,
{
    match text {
        Some(t) => Some(t.clone()),
        None => None,
    }
}

impl Clone for JobStatus {
    fn clone(&self) -> (copy: Self)
        ensures
            copy == *self,
    {
        JobStatus {
            id: self.id,
            state: self.state,
            progress: self.progress,
            created_at: self.created_at.clone(),
            started_at: copy_text(&self.started_at),
            finished_at: copy_text(&self.finished_at),
            error: copy_text(&self.error),
        }
    }
}

/// A job and the fingerprint of its request.
pub struct JobRecord {
    pub key: String,
    pub status: JobStatus,
    pub cancelled: bool,
}

/// A job that has not ended.
pub open spec fn is_active(state: JobState) -> bool {
    state == JobState::Queued || state == JobState::Running
}

/// Whether a job answers the same request again: while it is active, and after
/// its completion as long as its results are stored.
pub open spec fn is_reusable(state: JobState, results_stored: bool) -> bool {
    is_active(state) || (state == JobState::Completed && results_stored)
}

/// The outcome of a submission.
#[derive(Debug)]
pub enum Submission {
    Existing(JobStatus),
    Created(JobStatus),
}

/// A job that is waiting for its turn.
pub open spec fn queued(id: u128, created_at: String) -> JobStatus {
    JobStatus {
        id,
        state: JobState::Queued,
        progress: Binary32 { bits: 0 },
        created_at,
        started_at: None,
        finished_at: None,
        error: None,
    }
}

/// A job after a request to cancel it: one that has ended stays as it is.
pub open spec fn cancelled_status(status: JobStatus, now: String) -> JobStatus {
    if is_active(status.state) {
        JobStatus {
            state: JobState::Cancelled,
            finished_at: Some(now),
            error: None,
            ..status
        }
    } else {
        status
    }
}

/// A job that has got its turn. Its progress is one hundredth.
pub open spec fn running_status(status: JobStatus, now: String) -> JobStatus {
    JobStatus {
        state: JobState::Running,
        started_at: Some(now),
        progress: Binary32 { bits: 0x3c23_d70a },
        ..status
    }
}

/// A job whose execution is over. A cancelled job is not a failed one.
pub open spec fn finished_status(
    status: JobStatus,
    cancelled: bool,
    outcome: Result<(), String>,
    now: String,
) -> JobStatus {
    if cancelled {
        JobStatus { state: JobState::Cancelled, error: None, finished_at: Some(now), ..status }
    } else {
        match outcome {
            Err(message) => JobStatus {
                state: JobState::Failed,
                error: Some(message),
                finished_at: Some(now),
                ..status
            },
            Ok(_) => JobStatus {
                state: JobState::Completed,
                progress: Binary32 { bits: 0x3f80_0000 },
                finished_at: Some(now),
                ..status
            },
        }
    }
}

/// All jobs since the start of the server.
pub struct JobRegistry {
    records: Vec<JobRecord>,
}

impl JobRegistry {
    /// The jobs in the order of their submission.
    pub closed spec fn records(&self) -> Seq<JobRecord> {
        self.records@
    }

    /// No identifier is given twice.
    pub open spec fn wf(&self) -> bool {
        forall|i: int, j: int|
            0 <= i < j < self.records().len() ==> (#[trigger] self.records()[i]).status.id != (
            #[trigger] self.records()[j]).status.id
    }

    /// The place of a job.
    pub open spec fn is_at(&self, id: u128, i: int) -> bool {
        0 <= i < self.records().len() && self.records()[i].status.id == id
    }

    pub open spec fn contains(&self, id: u128) -> bool {
        exists|i: int| #[trigger] self.is_at(id, i)
    }

    /// `latest` is the last job with a request's fingerprint.
    pub open spec fn is_latest_for(&self, key: Seq<char>, latest: Option<int>) -> bool {
        match latest {
            None => forall|i: int|
                0 <= i < self.records().len() ==> (#[trigger] self.records()[i]).key@ != key,
            Some(l) => {
                &&& 0 <= l < self.records().len()
                &&& self.records()[l].key@ == key
                &&& forall|i: int|
                    l < i < self.records().len() ==> (#[trigger] self.records()[i]).key@ != key
            },
        }
    }

    /// The registry with one record replaced.
    pub open spec fn is_updated(before: Self, after: Self, i: int, record: JobRecord) -> bool {
        after.wf() && after.records() == before.records().update(i, record)
    }

    pub fn new() -> (registry: Self)
        ensures
            registry.wf(),
            registry.records() == Seq::<JobRecord>::empty(),
    {
        JobRegistry { records: Vec::new() }
    }

    fn find(&self, id: u128) -> (place: Option<usize>)
        ensures
            place matches Some(i) ==> self.is_at(id, i as int),
            place is None ==> !self.contains(id),
    {
        let mut i: usize = 0;
        while i < self.records.len()
            invariant
                i <= self.records@.len(),
                forall|j: int| 0 <= j < i ==> !#[trigger] self.is_at(id, j),
            decreases self.records@.len() - i,
        {
            if self.records[i].status.id == id {
                return Some(i);
            }
            i += 1;
        }
        None
    }

    /// The last job with a request's fingerprint.
    pub fn latest_for(&self, key: &str) -> (latest: Option<usize>)
        ensures
            self.is_latest_for(
                key@,
                match latest {
                    Some(l) => Some(l as int),
                    None => None,
                },
            ),
    {
        let mut i: usize = self.records.len();
        while i > 0
            invariant
                i <= self.records@.len(),
                forall|j: int|
                    i <= j < self.records().len() ==> (#[trigger] self.records()[j]).key@ != key@,
            decreases i,
        {
            i -= 1;
            if same_text(self.records[i].key.as_str(), key) {
                assert(self.records()[i as int].key@ == key@);
                return Some(i);
            }
        }
        None
    }

    /// Takes in a request. A job for the same request is handed out again where
    /// it can be reused; else a new one is queued.
    pub fn submit(&mut self, key: String, id: u128, created_at: String, results_stored: bool) -> (submission:
        Submission)
        requires
            old(self).wf(),
            !old(self).contains(id),
        ensures
            final(self).wf(),
            match submission {
                Submission::Existing(status) => *final(self) == *old(self) && exists|l: int|
                    #[trigger] old(self).is_latest_for(key@, Some(l)) && status == old(
                        self,
                    ).records()[l].status && is_reusable(status.state, results_stored),
                Submission::Created(status) => {
                    &&& status == queued(id, created_at)
                    &&& final(self).records() == old(self).records().push(
                        JobRecord { key, status, cancelled: false },
                    )
                    &&& old(self).is_latest_for(key@, None) || exists|l: int| #[trigger]
                        old(self).is_latest_for(key@, Some(l)) && !is_reusable(
                            old(self).records()[l].status.state,
                            results_stored,
                        )
                },
            },
    {
        match self.latest_for(key.as_str()) {
            Some(l) => {
                let state = self.records[l].status.state;
                let reusable = match state {
                    JobState::Queued | JobState::Running => true,
                    JobState::Completed => results_stored,
                    JobState::Failed | JobState::Cancelled => false,
                };
                assert(self.is_latest_for(key@, Some(l as int)));
                if reusable {
                    return Submission::Existing(self.records[l].status.clone());
                }
            },
            None => {},
        }
        let status = JobStatus {
            id,
            state: JobState::Queued,
            progress: Binary32 { bits: 0 },
            created_at,
            started_at: None,
            finished_at: None,
            error: None,
        };
        let copy = status.clone();
        let ghost before = *self;
        self.records.push(JobRecord { key, status, cancelled: false });
        proof {
            assert forall|i: int, j: int| 0 <= i < j < self.records().len() implies (
            #[trigger] self.records()[i]).status.id != (#[trigger] self.records()[j]).status.id by {
                if j < before.records().len() {
                    assert(before.records()[i].status.id != before.records()[j].status.id);
                } else {
                    assert(!before.is_at(id, i));
                }
            }
        }
        Submission::Created(copy)
    }

    proof fn lemma_update_keeps_ids(before: Self, after: Self, i: int, record: JobRecord)
        requires
            before.wf(),
            0 <= i < before.records().len(),
            record.status.id == before.records()[i].status.id,
            after.records() == before.records().update(i, record),
        ensures
            after.wf(),
    {
        assert forall|a: int, b: int| 0 <= a < b < after.records().len() implies (
        #[trigger] after.records()[a]).status.id != (#[trigger] after.records()[b]).status.id by {
            assert(before.records()[a].status.id != before.records()[b].status.id);
        }
    }

    /// Gives a job its turn. A job that was cancelled before does not run.
    pub fn start(&mut self, id: u128, now: String) -> (runs: bool)
        requires
            old(self).wf(),
        ensures
            !old(self).contains(id) ==> runs && *final(self) == *old(self),
            forall|i: int| #[trigger]
                old(self).is_at(id, i) ==> {
                    let record = old(self).records()[i];
                    &&& runs == !record.cancelled
                    &&& Self::is_updated(
                        *old(self),
                        *final(self),
                        i,
                        JobRecord {
                            status: if record.cancelled {
                                cancelled_status(record.status, now)
                            } else {
                                running_status(record.status, now)
                            },
                            ..record
                        },
                    )
                },
    {
        match self.find(id) {
            None => true,
            Some(i) => {
                let ghost before = *self;
                proof {
                    before.lemma_place_is_unique(id, i as int);
                }
                if self.records[i].cancelled {
                    self.mark_cancelled(i, now);
                    false
                } else {
                    self.records[i].status.state = JobState::Running;
                    self.records[i].status.started_at = Some(now);
                    self.records[i].status.progress = Binary32 { bits: 0x3c23_d70a };
                    proof {
                        let record = before.records()[i as int];
                        let changed = JobRecord {
                            status: running_status(record.status, now),
                            ..record
                        };
                        assert(self.records() =~= before.records().update(i as int, changed));
                        Self::lemma_update_keeps_ids(before, *self, i as int, changed);
                    }
                    true
                }
            },
        }
    }

    proof fn lemma_place_is_unique(self, id: u128, i: int)
        requires
            self.wf(),
            self.is_at(id, i),
        ensures
            forall|j: int| #[trigger] self.is_at(id, j) ==> j == i,
    {
        assert forall|j: int| #[trigger] self.is_at(id, j) implies j == i by {
            if i < j {
                assert(self.records()[i].status.id != self.records()[j].status.id);
            } else if j < i {
                assert(self.records()[j].status.id != self.records()[i].status.id);
            }
        }
    }

    fn mark_cancelled(&mut self, i: usize, now: String)
        requires
            old(self).wf(),
            i < old(self).records().len(),
        ensures
            Self::is_updated(
                *old(self),
                *final(self),
                i as int,
                JobRecord {
                    status: cancelled_status(old(self).records()[i as int].status, now),
                    ..old(self).records()[i as int]
                },
            ),
    {
        let ghost before = *self;
        let active = match self.records[i].status.state {
            JobState::Queued | JobState::Running => true,
            _ => false,
        };
        if active {
            self.records[i].status.state = JobState::Cancelled;
            self.records[i].status.finished_at = Some(now);
            self.records[i].status.error = None;
        }
        proof {
            let record = before.records()[i as int];
            let changed = JobRecord { status: cancelled_status(record.status, now), ..record };
            assert(self.records() =~= before.records().update(i as int, changed));
            Self::lemma_update_keeps_ids(before, *self, i as int, changed);
        }
    }

    /// Ends a job with the outcome of its execution.
    pub fn finish(&mut self, id: u128, outcome: Result<(), String>, now: String)
        requires
            old(self).wf(),
        ensures
            !old(self).contains(id) ==> *final(self) == *old(self),
            forall|i: int| #[trigger]
                old(self).is_at(id, i) ==> Self::is_updated(
                    *old(self),
                    *final(self),
                    i,
                    JobRecord {
                        status: finished_status(
                            old(self).records()[i].status,
                            old(self).records()[i].cancelled,
                            outcome,
                            now,
                        ),
                        ..old(self).records()[i]
                    },
                ),
    {
        match self.find(id) {
            None => {},
            Some(i) => {
                let ghost before = *self;
                proof {
                    before.lemma_place_is_unique(id, i as int);
                }
                let ghost result = outcome;
                if self.records[i].cancelled {
                    self.records[i].status.state = JobState::Cancelled;
                    self.records[i].status.error = None;
                } else {
                    match outcome {
                        Err(message) => {
                            self.records[i].status.state = JobState::Failed;
                            self.records[i].status.error = Some(message);
                        },
                        Ok(_) => {
                            self.records[i].status.state = JobState::Completed;
                            self.records[i].status.progress = Binary32 { bits: 0x3f80_0000 };
                        },
                    }
                }
                self.records[i].status.finished_at = Some(now);
                proof {
                    let record = before.records()[i as int];
                    let changed = JobRecord {
                        status: finished_status(record.status, record.cancelled, result, now),
                        ..record
                    };
                    assert(self.records() =~= before.records().update(i as int, changed));
                    Self::lemma_update_keeps_ids(before, *self, i as int, changed);
                }
            },
        }
    }

    /// Records how far a job has come, between zero and one.
    pub fn set_progress(&mut self, id: u128, value: Binary32)
        requires
            old(self).wf(),
        ensures
            !old(self).contains(id) ==> *final(self) == *old(self),
            forall|i: int| #[trigger]
                old(self).is_at(id, i) ==> Self::is_updated(
                    *old(self),
                    *final(self),
                    i,
                    JobRecord {
                        status: JobStatus {
                            progress: value.spec_clamp_unit(),
                            ..old(self).records()[i].status
                        },
                        ..old(self).records()[i]
                    },
                ),
    {
        match self.find(id) {
            None => {},
            Some(i) => {
                let ghost before = *self;
                proof {
                    before.lemma_place_is_unique(id, i as int);
                }
                self.records[i].status.progress = value.clamp_unit();
                proof {
                    let record = before.records()[i as int];
                    let changed = JobRecord {
                        status: JobStatus { progress: value.spec_clamp_unit(), ..record.status },
                        ..record
                    };
                    assert(self.records() =~= before.records().update(i as int, changed));
                    Self::lemma_update_keeps_ids(before, *self, i as int, changed);
                }
            },
        }
    }

    pub fn get_job(&self, id: u128) -> (found: Result<JobStatus, ApiError>)
        requires
            self.wf(),
        ensures
            found matches Ok(status) ==> exists|i: int| #[trigger]
                self.is_at(id, i) && status == self.records()[i].status,
            found matches Err(e) ==> !self.contains(id) && says(e, 404, "job not found"),
    {
        match self.find(id) {
            Some(i) => {
                assert(self.is_at(id, i as int));
                Ok(self.records[i].status.clone())
            },
            None => Err(public_error(404, "job not found")),
        }
    }

    /// Whether a job was asked to stop.
    pub fn is_cancelled(&self, id: u128) -> (b: bool)
        requires
            self.wf(),
        ensures
            b <==> exists|i: int| #[trigger] self.is_at(id, i) && self.records()[i].cancelled,
    {
        match self.find(id) {
            Some(i) => {
                proof {
                    self.lemma_place_is_unique(id, i as int);
                }
                self.records[i].cancelled
            },
            None => false,
        }
    }

    /// Asks a job to stop. Its execution is told, and a job that has not ended
    /// counts as cancelled at once.
    pub fn cancel_job(&mut self, id: u128, now: String) -> (cancelled: Result<JobStatus, ApiError>)
        requires
            old(self).wf(),
        ensures
            cancelled matches Err(e) ==> !old(self).contains(id) && *final(self) == *old(self)
                && says(e, 404, "job not found"),
            cancelled matches Ok(status) ==> old(self).contains(id) && forall|i: int| #[trigger]
                old(self).is_at(id, i) ==> {
                    let record = old(self).records()[i];
                    &&& status == cancelled_status(record.status, now)
                    &&& Self::is_updated(
                        *old(self),
                        *final(self),
                        i,
                        JobRecord { status, cancelled: true, ..record },
                    )
                },
    {
        match self.find(id) {
            None => Err(public_error(404, "job not found")),
            Some(i) => {
                let ghost before = *self;
                proof {
                    before.lemma_place_is_unique(id, i as int);
                }
                self.records[i].cancelled = true;
                proof {
                    let record = before.records()[i as int];
                    let marked = JobRecord { cancelled: true, ..record };
                    assert(self.records() =~= before.records().update(i as int, marked));
                    Self::lemma_update_keeps_ids(before, *self, i as int, marked);
                }
                self.mark_cancelled(i, now);
                let status = self.records[i].status.clone();
                proof {
                    let record = before.records()[i as int];
                    let changed = JobRecord {
                        status: cancelled_status(record.status, now),
                        cancelled: true,
                        ..record
                    };
                    assert(self.records() =~= before.records().update(i as int, changed));
                }
                Ok(status)
            },
        }
    }
}

/// A request that is repeated while its job is active gets that same job.
pub proof fn law_identical_request_is_idempotent(
    registry: JobRegistry,
    key: Seq<char>,
    l: int,
    results_stored: bool,
)
    requires
        registry.is_latest_for(key, Some(l)),
        is_active(registry.records()[l].status.state),
    ensures
        is_reusable(registry.records()[l].status.state, results_stored),
        !registry.is_latest_for(key, None),
        forall|other: int|
            #[trigger] registry.is_latest_for(key, Some(other)) ==> other == l,
{
    assert(registry.records()[l].key@ == key);
    assert forall|other: int| #[trigger] registry.is_latest_for(key, Some(other)) implies other
        == l by {
        if l < other {
            assert(registry.records()[other].key@ == key);
        } else if other < l {
            assert(registry.records()[l].key@ == key);
        }
    }
}

/// A request that is repeated after its job was queued gets that job.
pub proof fn law_second_submission_gets_the_first_job(
    before: JobRegistry,
    after: JobRegistry,
    key: String,
    id: u128,
    created_at: String,
    results_stored: bool,
)
    requires
        after.records() == before.records().push(
            JobRecord { key, status: queued(id, created_at), cancelled: false },
        ),
    ensures
        after.is_latest_for(key@, Some(before.records().len() as int)),
        after.records()[before.records().len() as int].status.id == id,
        is_reusable(
            after.records()[before.records().len() as int].status.state,
            results_stored,
        ),
{
}

/// The fingerprint of a request covers all of it: different requests have
/// different bytes under the hash.
pub proof fn law_fingerprint_covers_the_request(a: Seq<u8>, b: Seq<u8>)
    requires
        fingerprinted(a) == fingerprinted(b),
    ensures
        a == b,
{
    let head = JOB_TAG@ + le_bytes(LOS_ALGORITHM_VERSION as nat, 2);
    assert(fingerprinted(a).skip(head.len() as int) =~= a);
    assert(fingerprinted(b).skip(head.len() as int) =~= b);
}

/// A request to cancel revives nothing: a job that has ended stays as it is.
pub proof fn law_ended_jobs_survive_cancellation(status: JobStatus, now: String)
    requires
        !is_active(status.state),
    ensures
        cancelled_status(status, now) == status,
{
}

/// A job that was asked to stop ends as cancelled, whatever its execution says,
/// and without an error.
pub proof fn law_cancelled_jobs_end_cancelled(
    status: JobStatus,
    outcome: Result<(), String>,
    now: String,
)
    ensures
        finished_status(status, true, outcome, now).state == JobState::Cancelled,
        finished_status(status, true, outcome, now).error is None,
        is_active(status.state) ==> cancelled_status(status, now).state == JobState::Cancelled,
{
}

/// Refuses a request that was found invalid, and a job whose layers do not fit
/// into memory. A valid request comes with the bytes that one radar needs.
pub fn admit_job(bytes_per_radar: Result<u64, &'static str>, memory_budget: u64) -> (checked: Result<
    (),
    ApiError,
>)
    ensures
        match bytes_per_radar {
            Err(fault) => checked matches Err(e) && says(e, 400, fault),
            Ok(bytes) => if bytes > memory_budget {
                checked matches Err(e) && says(e, 422, "job exceeds memory budget")
            } else {
                checked is Ok
            },
        },
{
    match bytes_per_radar {
        Err(fault) => Err(public_error(400, fault)),
        Ok(bytes) => if bytes > memory_budget {
            Err(public_error(422, "job exceeds memory budget"))
        } else {
            Ok(())
        },
    }
}

/// The bytes of `radial-los-job`.
pub const JOB_TAG: [u8; 14] = [114, 97, 100, 105, 97, 108, 45, 108, 111, 115, 45, 106, 111, 98];

/// What the fingerprint of a request covers: the version of the algorithm, and
/// the request.
pub open spec fn fingerprinted(request: Seq<u8>) -> Seq<u8> {
    JOB_TAG@ + le_bytes(LOS_ALGORITHM_VERSION as nat, 2) + request
}

/// The fingerprint of an encoded request.
pub fn job_request_hash(request: &[u8]) -> (key: String)
    ensures
        key@ == hex(blake3_digest(fingerprinted(request@))),
{
    let mut input: Vec<u8> = Vec::new();
    input.extend_from_slice(JOB_TAG.as_slice());
    assert(input@ =~= JOB_TAG@);
    push_le(&mut input, LOS_ALGORITHM_VERSION as u64, 2);
    input.extend_from_slice(request);
    assert(input@ =~= fingerprinted(request@));
    let hash = digest(input.as_slice());
    hex_text(hash.as_slice())
}

/// The common beginning of the names of a radar's results.
pub fn result_name(radar: u128, config_hash: &str) -> (name: String)
    requires
        config_hash@.len() >= 16,
    ensures
        name@ == spec_id_text(radar) + "-"@ + config_hash@.take(16),
{
    let mut name = id_text(radar);
    name.append("-");
    name.append(config_hash.substring_char(0, 16));
    assert(config_hash@.subrange(0, 16) =~= config_hash@.take(16));
    name
}

/// The files of one radar's results.
#[derive(Debug)]
pub struct JobCacheArtifact {
    pub rcov: String,
    pub rhgt: String,
    pub rdem: String,
}

impl Clone for JobCacheArtifact {
    fn clone(&self) -> (copy: Self)
        ensures
            copy == *self,
    {
        JobCacheArtifact {
            rcov: self.rcov.clone(),
            rhgt: self.rhgt.clone(),
            rdem: self.rdem.clone(),
        }
    }
}

/// The names of a radar's results: a common beginning, and what they hold.
pub open spec fn is_artifact_of(artifact: JobCacheArtifact, name: Seq<char>) -> bool {
    &&& artifact.rcov@ == name + ".rcov"@
    &&& artifact.rhgt@ == name + ".rhgt"@
    &&& artifact.rdem@ == name + ".rdem"@
}

/// Names the results of a radar with a configuration.
pub fn result_artifact(radar: u128, config_hash: &str) -> (artifact: JobCacheArtifact)
    requires
        config_hash@.len() >= 16,
    ensures
        is_artifact_of(artifact, spec_id_text(radar) + "-"@ + config_hash@.take(16)),
{
    let mut rcov = result_name(radar, config_hash);
    let mut rhgt = rcov.clone();
    let mut rdem = rcov.clone();
    rcov.append(".rcov");
    rhgt.append(".rhgt");
    rdem.append(".rdem");
    JobCacheArtifact { rcov, rhgt, rdem }
}

/// The results of a radar lie in the result directory itself, so that the
/// manifest of a job is never refused for its own names.
pub proof fn law_result_names_are_plain(
    radar: u128,
    config_hash: Seq<char>,
    artifact: JobCacheArtifact,
)
    requires
        config_hash.len() >= 16,
        !config_hash.contains('/'),
        is_artifact_of(artifact, spec_id_text(radar) + "-"@ + config_hash.take(16)),
    ensures
        artifact.names_are_plain(),
{
    reveal_strlit("-");
    reveal_strlit(".");
    reveal_strlit("..");
    reveal_strlit(".rcov");
    reveal_strlit(".rhgt");
    reveal_strlit(".rdem");
    let name = spec_id_text(radar) + "-"@ + config_hash.take(16);
    assert(spec_id_text(radar).len() == 36);
    assert forall|i: int| 0 <= i < name.len() implies #[trigger] name[i] != '/' by {
        if i >= 37 {
            assert(name[i] == config_hash[i - 37]);
            assert(config_hash.contains(config_hash[i - 37]));
        }
    }
    assert(!(name + ".rcov"@).contains('/'));
    assert(!(name + ".rhgt"@).contains('/'));
    assert(!(name + ".rdem"@).contains('/'));
    assert(artifact.rcov@.len() > 2 && artifact.rhgt@.len() > 2 && artifact.rdem@.len() > 2);
}

/// The results of a request.
#[derive(Debug)]
pub struct JobCacheManifest {
    pub request_hash: String,
    pub artifacts: Vec<JobCacheArtifact>,
}

/// What was found under the names of an artifact: the headers of the intact
/// files.
pub struct StoredArtifact {
    pub rcov: Option<Metadata>,
    pub rhgt: Option<Metadata>,
    pub rdem: Option<Metadata>,
}

impl JobCacheArtifact {
    /// All names are those of files in the result directory itself.
    pub open spec fn names_are_plain(&self) -> bool {
        is_plain_name(self.rcov@) && is_plain_name(self.rhgt@) && is_plain_name(self.rdem@)
    }

    pub fn has_plain_names(&self) -> (b: bool)
        ensures
            b == self.names_are_plain(),
    {
        plain_name(self.rcov.as_str()) && plain_name(self.rhgt.as_str()) && plain_name(
            self.rdem.as_str(),
        )
    }
}

/// The three files of an artifact are intact and say the same.
pub open spec fn is_consistent(stored: StoredArtifact) -> bool {
    match (stored.rcov, stored.rhgt, stored.rdem) {
        (Some(a), Some(b), Some(c)) => a.same_as(&b) && b.same_as(&c),
        _ => false,
    }
}

fn check_consistent(stored: &StoredArtifact) -> (b: bool)
    ensures
        b == is_consistent(*stored),
{
    match (&stored.rcov, &stored.rhgt, &stored.rdem) {
        (Some(a), Some(b), Some(c)) => a.equals(b) && b.equals(c),
        _ => false,
    }
}

/// The stored results of a request can be used.
pub open spec fn is_cached(
    manifest: &JobCacheManifest,
    request_hash: Seq<char>,
    stored: Seq<StoredArtifact>,
) -> bool {
    &&& manifest.request_hash@ == request_hash
    &&& manifest.artifacts@.len() > 0
    &&& forall|i: int|
        0 <= i < manifest.artifacts@.len() ==> (#[trigger] manifest.artifacts@[i]).names_are_plain()
            && is_consistent(stored[i])
}

/// Whether the stored results of a request can be used: they are for that
/// request, there are some, and every file of them is intact.
pub fn cached_job_valid(
    manifest: &JobCacheManifest,
    request_hash: &str,
    stored: &[StoredArtifact],
) -> (valid: bool)
    requires
        stored@.len() == manifest.artifacts@.len(),
    ensures
        valid == is_cached(manifest, request_hash@, stored@),
{
    if !same_text(manifest.request_hash.as_str(), request_hash) || manifest.artifacts.len() == 0 {
        return false;
    }
    let mut i: usize = 0;
    while i < manifest.artifacts.len()
        invariant
            i <= manifest.artifacts@.len(),
            stored@.len() == manifest.artifacts@.len(),
            forall|j: int|
                0 <= j < i ==> (#[trigger] manifest.artifacts@[j]).names_are_plain()
                    && is_consistent(stored@[j]),
        decreases manifest.artifacts@.len() - i,
    {
        let plain = manifest.artifacts[i].has_plain_names();
        let consistent = check_consistent(&stored[i]);
        assert(plain == manifest.artifacts@[i as int].names_are_plain());
        assert(consistent == is_consistent(stored@[i as int]));
        if !plain || !consistent {
            return false;
        }
        assert forall|j: int| 0 <= j < i + 1 implies (
        #[trigger] manifest.artifacts@[j]).names_are_plain() && is_consistent(stored@[j]) by {
            if j == i {
                assert(is_consistent(stored@[j]));
                assert(manifest.artifacts@[j].names_are_plain());
            }
        }
        i += 1;
    }
    true
}

/// What the execution of a job asks for next.
#[derive(Clone, Copy, Debug, PartialEq, Eq)]
pub enum JobStep {
    /// Prepare the directory of the results.
    PrepareStorage,
    /// Encode the request.
    Fingerprint,
    /// Are the results of the request stored already?
    ReadCache,
    /// Prepare the grid that the radars share.
    PrepareGrid,
    /// Has the job been cancelled? If not, the plan of the next radar.
    AskBefore,
    /// Read the stored terrain of the radar.
    ReadTerrain,
    /// Read the stored coverage and heights of the radar.
    ReadCoverage,
    /// Write the terrain beside stored results, which are complete with it.
    RewriteTerrain,
    /// Write the terrain before the results are computed.
    WriteTerrain,
    Compute,
    /// Has the job been cancelled, after the computation?
    AskAfter,
    WriteVisibility,
    WriteHeights,
    /// Write the manifest of all results.
    WriteManifest,
    Done,
    /// The results were stored already.
    Reused,
    /// The job was cancelled.
    Abandoned,
    Failed(&'static str),
}

impl JobStep {
    /// A step within one radar, after its plan is known.
    pub open spec fn is_of_radar(self) -> bool {
        self is ReadTerrain || self is ReadCoverage || self is RewriteTerrain || self
            is WriteTerrain || self is Compute || self is AskAfter || self is WriteVisibility
            || self is WriteHeights
    }
}

/// What the results of a radar have to say, and how they are named.
#[derive(Debug)]
pub struct RadarPlan {
    pub expected: Metadata,
    pub artifact: JobCacheArtifact,
}

impl RadarPlan {
    /// The numbers of the header are numbers, and the files lie in the result
    /// directory.
    pub open spec fn wf(&self) -> bool {
        self.expected.same_as(&self.expected) && self.artifact.names_are_plain()
    }

    pub fn is_valid(&self) -> (b: bool)
        ensures
            b == self.wf(),
    {
        self.expected.equals(&self.expected) && self.artifact.has_plain_names()
    }
}

/// The answer to what was asked for.
pub enum JobEvent {
    Cached(bool),
    Cancelled(bool),
    Terrain(Option<Metadata>),
    Coverage(Option<Metadata>, Option<Metadata>),
    /// Something was done, or it failed with a message.
    Did(Result<(), &'static str>),
}

/// An event answers a step.
pub open spec fn answers(step: JobStep, event: JobEvent) -> bool {
    match step {
        JobStep::ReadCache => event is Cached,
        JobStep::AskAfter => event is Cancelled,
        JobStep::ReadTerrain => event is Terrain,
        JobStep::ReadCoverage => event is Coverage,
        JobStep::PrepareStorage
        | JobStep::Fingerprint
        | JobStep::PrepareGrid
        | JobStep::RewriteTerrain
        | JobStep::WriteTerrain
        | JobStep::Compute
        | JobStep::WriteVisibility
        | JobStep::WriteHeights
        | JobStep::WriteManifest => event is Did,
        _ => false,
    }
}

/// Stored terrain that belongs to the radar.
pub open spec fn kept_terrain(stored: Option<Metadata>, expected: Metadata) -> Option<Metadata> {
    if stored matches Some(m) && m.same_identity(&expected) {
        stored
    } else {
        None
    }
}

/// Stored results that belong to the radar are not computed again.
pub open spec fn coverage_is_cached(
    rcov: Option<Metadata>,
    rhgt: Option<Metadata>,
    expected: Metadata,
) -> bool {
    match (rcov, rhgt) {
        (Some(a), Some(b)) => a.same_identity(&expected) && b.same_identity(&expected)
            && a.same_as(&b),
        _ => false,
    }
}

/// The header that the three files of a radar have in common: that of the stored
/// results, else that of the stored terrain, else a new one.
pub open spec fn common_header(
    rcov: Option<Metadata>,
    rhgt: Option<Metadata>,
    terrain: Option<Metadata>,
    expected: Metadata,
) -> Metadata {
    if coverage_is_cached(rcov, rhgt, expected) {
        rhgt->0
    } else {
        match terrain {
            Some(kept) => kept,
            None => expected,
        }
    }
}

/// What follows: the next step, or nothing where the radar under way is complete.
/// `terrain` is its stored terrain that is kept. Stored results are used before
/// anything is prepared for the radars.
pub open spec fn radar_step(
    step: JobStep,
    event: JobEvent,
    expected: Metadata,
    terrain: Option<Metadata>,
    radars: int,
) -> Option<JobStep> {
    match (step, event) {
        (JobStep::ReadCache, JobEvent::Cached(cached)) => Some(
            if cached {
                JobStep::Reused
            } else {
                JobStep::PrepareGrid
            },
        ),
        (JobStep::ReadTerrain, JobEvent::Terrain(_)) => Some(JobStep::ReadCoverage),
        (JobStep::ReadCoverage, JobEvent::Coverage(rcov, rhgt)) => if coverage_is_cached(
            rcov,
            rhgt,
            expected,
        ) {
            if terrain matches Some(kept) && rhgt->0.same_as(&kept) {
                None
            } else {
                Some(JobStep::RewriteTerrain)
            }
        } else if terrain is Some {
            Some(JobStep::Compute)
        } else {
            Some(JobStep::WriteTerrain)
        },
        (JobStep::AskAfter, JobEvent::Cancelled(cancelled)) => Some(
            if cancelled {
                JobStep::Abandoned
            } else {
                JobStep::WriteVisibility
            },
        ),
        (_, JobEvent::Did(Err(message))) => Some(JobStep::Failed(message)),
        (JobStep::PrepareStorage, JobEvent::Did(Ok(_))) => Some(JobStep::Fingerprint),
        (JobStep::Fingerprint, JobEvent::Did(Ok(_))) => Some(JobStep::ReadCache),
        (JobStep::PrepareGrid, JobEvent::Did(Ok(_))) => Some(JobRun::between_radars(radars, 0)),
        (JobStep::RewriteTerrain, JobEvent::Did(Ok(_))) => None,
        (JobStep::WriteTerrain, JobEvent::Did(Ok(_))) => Some(JobStep::Compute),
        (JobStep::Compute, JobEvent::Did(Ok(_))) => Some(JobStep::AskAfter),
        (JobStep::WriteVisibility, JobEvent::Did(Ok(_))) => Some(JobStep::WriteHeights),
        (JobStep::WriteHeights, JobEvent::Did(Ok(_))) => None,
        (JobStep::WriteManifest, JobEvent::Did(Ok(_))) => Some(JobStep::Done),
        _ => Some(step),
    }
}

/// What lies under the names of a radar after an event: what was read there, and
/// what was written over it.
pub open spec fn files_after(
    step: JobStep,
    event: JobEvent,
    files: StoredArtifact,
    header: Option<Metadata>,
) -> StoredArtifact {
    match (step, event) {
        (JobStep::ReadTerrain, JobEvent::Terrain(stored)) => StoredArtifact {
            rcov: files.rcov,
            rhgt: files.rhgt,
            rdem: stored,
        },
        (JobStep::ReadCoverage, JobEvent::Coverage(rcov, rhgt)) => StoredArtifact {
            rcov,
            rhgt,
            rdem: files.rdem,
        },
        (JobStep::RewriteTerrain, JobEvent::Did(Ok(_)))
        | (JobStep::WriteTerrain, JobEvent::Did(Ok(_))) => StoredArtifact {
            rcov: files.rcov,
            rhgt: files.rhgt,
            rdem: header,
        },
        (JobStep::WriteVisibility, JobEvent::Did(Ok(_))) => StoredArtifact {
            rcov: header,
            rhgt: files.rhgt,
            rdem: files.rdem,
        },
        (JobStep::WriteHeights, JobEvent::Did(Ok(_))) => StoredArtifact {
            rcov: files.rcov,
            rhgt: header,
            rdem: files.rdem,
        },
        _ => files,
    }
}

/// Two artifacts have the same names.
pub open spec fn same_names(a: JobCacheArtifact, b: JobCacheArtifact) -> bool {
    a.rcov@ == b.rcov@ && a.rhgt@ == b.rhgt@ && a.rdem@ == b.rdem@
}

/// What lies under the names of each artifact once `artifact` is complete, too.
pub open spec fn stored_with(
    artifacts: Seq<JobCacheArtifact>,
    stored: Seq<StoredArtifact>,
    artifact: JobCacheArtifact,
    files: StoredArtifact,
) -> Seq<StoredArtifact> {
    Seq::new(
        stored.len() + 1,
        |i: int|
            if i == stored.len() || same_names(artifacts[i], artifact) {
                files
            } else {
                stored[i]
            },
    )
}

/// The execution of a job, radar by radar.
pub struct JobRun {
    radars: usize,
    step: JobStep,
    artifacts: Vec<JobCacheArtifact>,
    plan: Option<RadarPlan>,
    terrain: Option<Metadata>,
    header: Option<Metadata>,
    files: Ghost<StoredArtifact>,
    stored: Ghost<Seq<StoredArtifact>>,
}

impl JobRun {
    pub closed spec fn spec_radars(&self) -> int {
        self.radars as int
    }

    pub closed spec fn spec_step(&self) -> JobStep {
        self.step
    }

    /// The results of the radars that are complete.
    pub closed spec fn artifacts(&self) -> Seq<JobCacheArtifact> {
        self.artifacts@
    }

    /// The plan of the radar that is under way.
    pub closed spec fn spec_plan(&self) -> Option<RadarPlan> {
        self.plan
    }

    /// The stored terrain of the radar under way that is kept.
    pub closed spec fn spec_terrain(&self) -> Option<Metadata> {
        self.terrain
    }

    /// The header under which files of the radar under way are written.
    pub closed spec fn spec_header(&self) -> Option<Metadata> {
        self.header
    }

    /// What lies under the names of the radar under way, as far as it was read
    /// or written.
    pub closed spec fn files(&self) -> StoredArtifact {
        self.files@
    }

    /// What lies under the names of each artifact, as its radar was completed.
    pub closed spec fn stored(&self) -> Seq<StoredArtifact> {
        self.stored@
    }

    /// What is known of the files of the radar under way.
    pub open spec fn files_wf(&self) -> bool {
        let header = self.spec_header();
        let files = self.files();
        let named = header matches Some(h) && h.same_as(&h);
        match self.spec_step() {
            JobStep::ReadCoverage => self.spec_terrain() matches Some(kept) ==> files.rdem == Some(
                kept,
            ) && kept.same_as(&kept),
            JobStep::RewriteTerrain => named && files.rhgt == header && (files.rcov matches Some(a)
                && a.same_as(&header->0)),
            JobStep::WriteTerrain => named,
            JobStep::Compute
            | JobStep::AskAfter
            | JobStep::WriteVisibility => named && files.rdem == header,
            JobStep::WriteHeights => named && files.rdem == header && files.rcov == header,
            _ => true,
        }
    }

    /// The manifest is only written when every radar has its results, and the
    /// three files of a complete radar are intact and say the same.
    pub open spec fn wf(&self) -> bool {
        &&& self.artifacts().len() <= self.spec_radars()
        &&& self.spec_step() is WriteManifest || self.spec_step() is Done
            ==> self.artifacts().len() == self.spec_radars()
        &&& self.spec_step() is AskBefore || self.spec_step().is_of_radar()
            ==> self.artifacts().len() < self.spec_radars()
        &&& self.spec_step() is PrepareStorage || self.spec_step() is Fingerprint
            || self.spec_step() is ReadCache || self.spec_step() is PrepareGrid
            ==> self.artifacts().len() == 0
        &&& self.spec_step().is_of_radar() ==> (self.spec_plan() matches Some(plan) && plan.wf())
        &&& self.files_wf()
        &&& self.stored().len() == self.artifacts().len()
        &&& forall|i: int|
            0 <= i < self.artifacts().len() ==> is_consistent(#[trigger] self.stored()[i])
        &&& forall|i: int|
            0 <= i < self.artifacts().len() ==> (#[trigger] self.artifacts()[i]).names_are_plain()
    }

    /// Where a job stands between two radars.
    pub open spec fn between_radars(radars: int, complete: int) -> JobStep {
        if complete < radars {
            JobStep::AskBefore
        } else {
            JobStep::WriteManifest
        }
    }

    pub fn new(radars: usize) -> (run: Self)
        ensures
            run.wf(),
            run.spec_radars() == radars,
            run.artifacts() == Seq::<JobCacheArtifact>::empty(),
            run.spec_step() is PrepareStorage,
    {
        JobRun {
            radars,
            step: JobStep::PrepareStorage,
            artifacts: Vec::new(),
            plan: None,
            terrain: None,
            header: None,
            files: Ghost(StoredArtifact { rcov: None, rhgt: None, rdem: None }),
            stored: Ghost(Seq::empty()),
        }
    }

    pub fn step(&self) -> (step: JobStep)
        ensures
            step == self.spec_step(),
    {
        self.step
    }

    /// The number of the radar that is under way.
    pub fn radar(&self) -> (n: usize)
        ensures
            n == self.artifacts().len(),
    {
        self.artifacts.len()
    }

    pub fn plan(&self) -> (plan: Option<&RadarPlan>)
        ensures
            match plan {
                Some(p) => self.spec_plan() == Some(*p),
                None => self.spec_plan() is None,
            },
    {
        match &self.plan {
            Some(plan) => Some(plan),
            None => None,
        }
    }

    pub fn header(&self) -> (header: Option<&Metadata>)
        ensures
            match header {
                Some(h) => self.spec_header() == Some(*h),
                None => self.spec_header() is None,
            },
    {
        match &self.header {
            Some(header) => Some(header),
            None => None,
        }
    }

    /// Starts the next radar with its plan, or abandons a job that was cancelled
    /// and gets none.
    pub fn start_radar(&mut self, plan: Option<RadarPlan>)
        requires
            old(self).wf(),
            old(self).spec_step() is AskBefore,
            plan matches Some(p) ==> p.wf(),
        ensures
            final(self).wf(),
            final(self).spec_radars() == old(self).spec_radars(),
            final(self).artifacts() == old(self).artifacts(),
            final(self).stored() == old(self).stored(),
            final(self).spec_plan() == plan,
            final(self).spec_step() == (if plan is Some {
                JobStep::ReadTerrain
            } else {
                JobStep::Abandoned
            }),
    {
        self.step = if plan.is_some() {
            JobStep::ReadTerrain
        } else {
            JobStep::Abandoned
        };
        self.plan = plan;
    }

    /// Takes in the answer to the current step.
    pub fn advance(&mut self, event: JobEvent)
        requires
            old(self).wf(),
            answers(old(self).spec_step(), event),
        ensures
            final(self).wf(),
            final(self).spec_radars() == old(self).spec_radars(),
            final(self).spec_plan() == old(self).spec_plan(),
            final(self).spec_terrain() == (match (old(self).spec_step(), event) {
                (JobStep::ReadTerrain, JobEvent::Terrain(stored)) => kept_terrain(
                    stored,
                    old(self).spec_plan()->0.expected,
                ),
                _ => old(self).spec_terrain(),
            }),
            final(self).spec_header() == (match (old(self).spec_step(), event) {
                (JobStep::ReadCoverage, JobEvent::Coverage(rcov, rhgt)) => Some(
                    common_header(
                        rcov,
                        rhgt,
                        old(self).spec_terrain(),
                        old(self).spec_plan()->0.expected,
                    ),
                ),
                _ => old(self).spec_header(),
            }),
            final(self).files() == files_after(
                old(self).spec_step(),
                event,
                old(self).files(),
                old(self).spec_header(),
            ),
            match radar_step(
                old(self).spec_step(),
                event,
                old(self).spec_plan()->0.expected,
                old(self).spec_terrain(),
                old(self).spec_radars(),
            ) {
                Some(next) => {
                    &&& final(self).spec_step() == next
                    &&& final(self).artifacts() == old(self).artifacts()
                    &&& final(self).stored() == old(self).stored()
                },
                None => {
                    &&& final(self).artifacts() == old(self).artifacts().push(
                        old(self).spec_plan()->0.artifact,
                    )
                    &&& final(self).stored() == stored_with(
                        old(self).artifacts(),
                        old(self).stored(),
                        old(self).spec_plan()->0.artifact,
                        final(self).files(),
                    )
                    &&& final(self).spec_step() == Self::between_radars(
                        old(self).spec_radars(),
                        final(self).artifacts().len() as int,
                    )
                },
            },
    {
        let ghost files = files_after(self.step, event, self.files@, self.header);
        let complete = match event {
            JobEvent::Cached(cached) => {
                self.step = if cached {
                    JobStep::Reused
                } else {
                    JobStep::PrepareGrid
                };
                false
            },
            JobEvent::Cancelled(cancelled) => {
                self.step = if cancelled {
                    JobStep::Abandoned
                } else {
                    JobStep::WriteVisibility
                };
                false
            },
            JobEvent::Terrain(stored) => {
                self.keep_terrain(stored);
                self.step = JobStep::ReadCoverage;
                false
            },
            JobEvent::Coverage(rcov, rhgt) => self.choose_header(rcov, rhgt),
            JobEvent::Did(Err(message)) => {
                self.step = JobStep::Failed(message);
                false
            },
            JobEvent::Did(Ok(_)) => match self.step {
                JobStep::PrepareStorage => {
                    self.step = JobStep::Fingerprint;
                    false
                },
                JobStep::Fingerprint => {
                    self.step = JobStep::ReadCache;
                    false
                },
                JobStep::PrepareGrid => {
                    self.step = if self.radars > 0 {
                        JobStep::AskBefore
                    } else {
                        JobStep::WriteManifest
                    };
                    false
                },
                JobStep::RewriteTerrain => true,
                JobStep::WriteTerrain => {
                    self.step = JobStep::Compute;
                    false
                },
                JobStep::Compute => {
                    self.step = JobStep::AskAfter;
                    false
                },
                JobStep::WriteVisibility => {
                    self.step = JobStep::WriteHeights;
                    false
                },
                JobStep::WriteHeights => true,
                _ => {
                    self.step = JobStep::Done;
                    false
                },
            },
        };
        self.files = Ghost(files);
        if complete {
            assert(is_consistent(files));
            self.complete_radar();
        }
    }

    /// Keeps stored terrain that belongs to the radar.
    fn keep_terrain(&mut self, stored: Option<Metadata>)
        requires
            old(self).plan is Some,
        ensures
            *final(self) == (JobRun {
                terrain: kept_terrain(stored, old(self).plan->0.expected),
                ..*old(self)
            }),
    {
        let kept = match (&stored, &self.plan) {
            (Some(metadata), Some(plan)) => metadata.same_coverage_identity(&plan.expected),
            _ => false,
        };
        self.terrain = if kept {
            stored
        } else {
            None
        };
    }

    /// Fixes the header of the radar's files, and what there is to do. True where
    /// nothing is.
    fn choose_header(&mut self, rcov: Option<Metadata>, rhgt: Option<Metadata>) -> (complete: bool)
        requires
            old(self).plan is Some,
            old(self).step is ReadCoverage,
        ensures
            ({
                let expected = old(self).plan->0.expected;
                let next = radar_step(
                    JobStep::ReadCoverage,
                    JobEvent::Coverage(rcov, rhgt),
                    expected,
                    old(self).terrain,
                    old(self).radars as int,
                );
                &&& complete == (next is None)
                &&& *final(self) == (JobRun {
                    header: Some(common_header(rcov, rhgt, old(self).terrain, expected)),
                    step: match next {
                        Some(step) => step,
                        None => JobStep::ReadCoverage,
                    },
                    ..*old(self)
                })
            }),
    {
        let cached = match (&rcov, &rhgt, &self.plan) {
            (Some(a), Some(b), Some(plan)) => a.same_coverage_identity(&plan.expected)
                && b.same_coverage_identity(&plan.expected) && a.equals(b),
            _ => false,
        };
        if cached {
            let complete = match (&rhgt, &self.terrain) {
                (Some(results), Some(kept)) => results.equals(kept),
                _ => false,
            };
            self.header = rhgt;
            if !complete {
                self.step = JobStep::RewriteTerrain;
            }
            return complete;
        }
        match &self.terrain {
            Some(kept) => {
                self.header = Some(kept.clone());
                self.step = JobStep::Compute;
            },
            None => {
                self.header = match &self.plan {
                    Some(plan) => Some(plan.expected.clone()),
                    None => None,
                };
                self.step = JobStep::WriteTerrain;
            },
        }
        false
    }

    /// Files the radar under way, whose files are complete.
    fn complete_radar(&mut self)
        requires
            old(self).plan is Some,
            old(self).plan->0.wf(),
            old(self).artifacts@.len() < old(self).radars,
            old(self).stored@.len() == old(self).artifacts@.len(),
            is_consistent(old(self).files@),
            forall|i: int|
                0 <= i < old(self).artifacts@.len() ==> is_consistent(
                    #[trigger] old(self).stored@[i],
                ),
            forall|i: int|
                0 <= i < old(self).artifacts@.len() ==> (
                #[trigger] old(self).artifacts@[i]).names_are_plain(),
        ensures
            final(self).wf(),
            final(self).radars == old(self).radars,
            final(self).plan == old(self).plan,
            final(self).terrain == old(self).terrain,
            final(self).header == old(self).header,
            final(self).files@ == old(self).files@,
            final(self).artifacts@ == old(self).artifacts@.push(old(self).plan->0.artifact),
            final(self).stored@ == stored_with(
                old(self).artifacts@,
                old(self).stored@,
                old(self).plan->0.artifact,
                old(self).files@,
            ),
            final(self).step == Self::between_radars(
                old(self).radars as int,
                final(self).artifacts@.len() as int,
            ),
    {
        match &self.plan {
            Some(plan) => {
                self.stored = Ghost(
                    stored_with(self.artifacts@, self.stored@, plan.artifact, self.files@),
                );
                self.artifacts.push(plan.artifact.clone());
            },
            None => {},
        }
        self.step = if self.artifacts.len() < self.radars {
            JobStep::AskBefore
        } else {
            JobStep::WriteManifest
        };
        proof {
            assert forall|i: int| 0 <= i < self.artifacts@.len() implies is_consistent(
                #[trigger] self.stored@[i],
            ) by {
                if i < old(self).artifacts@.len() {
                    assert(is_consistent(old(self).stored@[i]));
                }
            }
        }
    }

    /// The manifest of a job whose radars are all complete.
    pub fn manifest(&self, request_hash: String) -> (manifest: JobCacheManifest)
        ensures
            manifest.request_hash == request_hash,
            manifest.artifacts@ == self.artifacts(),
    {
        let mut artifacts: Vec<JobCacheArtifact> = Vec::new();
        let mut i: usize = 0;
        while i < self.artifacts.len()
            invariant
                i <= self.artifacts@.len(),
                artifacts@ == self.artifacts@.take(i as int),
            decreases self.artifacts@.len() - i,
        {
            artifacts.push(self.artifacts[i].clone());
            i += 1;
            assert(artifacts@ =~= self.artifacts@.take(i as int));
        }
        assert(artifacts@ =~= self.artifacts@);
        JobCacheManifest { request_hash, artifacts }
    }
}

/// A manifest is written only when every radar of the job has its results, and a
/// job that was cancelled or has failed asks for nothing more.
pub proof fn law_manifest_is_complete(run: JobRun, event: JobEvent)
    requires
        run.wf(),
    ensures
        run.spec_step() is WriteManifest ==> run.artifacts().len() == run.spec_radars(),
        run.spec_step() is Abandoned || run.spec_step() is Failed || run.spec_step() is Done
            || run.spec_step() is Reused ==> !answers(run.spec_step(), event) && run.spec_step() !is AskBefore,
{
}

/// What a finished job leaves behind is valid: an identical request finds it and
/// computes nothing, whatever files of the same radars were there before. The
/// heights and the terrain of each radar can be fused.
pub proof fn law_finished_job_is_cached(run: JobRun, manifest: JobCacheManifest)
    requires
        run.wf(),
        run.spec_step() is Done,
        run.spec_radars() > 0,
        manifest.artifacts@ == run.artifacts(),
    ensures
        is_cached(&manifest, manifest.request_hash@, run.stored()),
        forall|i: int|
            0 <= i < run.artifacts().len() ==> same_metadata(
                (#[trigger] run.stored()[i]).rhgt,
                run.stored()[i].rdem,
            ),
{
    assert forall|i: int| 0 <= i < run.artifacts().len() implies (
    #[trigger] manifest.artifacts@[i]).names_are_plain() && is_consistent(run.stored()[i]) by {
        assert(run.artifacts()[i].names_are_plain());
    }
    assert forall|i: int| 0 <= i < run.artifacts().len() implies same_metadata(
        (#[trigger] run.stored()[i]).rhgt,
        run.stored()[i].rdem,
    ) by {
        assert(is_consistent(run.stored()[i]));
    }
}

/// Results that are stored for the same radar, terrain and algorithm are used
/// again: they are not computed, and where the terrain beside them says the same,
/// nothing is written for that radar. Where the results of the whole request are
/// stored, the job ends at once.
pub proof fn law_stored_results_are_reused(
    expected: Metadata,
    terrain: Option<Metadata>,
    rcov: Metadata,
    rhgt: Metadata,
    radars: int,
)
    requires
        rcov.same_identity(&expected),
        rhgt.same_identity(&expected),
        rcov.same_as(&rhgt),
    ensures
        ({
            let kept = kept_terrain(terrain, expected);
            let next = radar_step(
                JobStep::ReadCoverage,
                JobEvent::Coverage(Some(rcov), Some(rhgt)),
                expected,
                kept,
                radars,
            );
            &&& next is None || next == Some(JobStep::RewriteTerrain)
            &&& next is None <==> (terrain matches Some(t) && t.same_identity(&expected)
                && rhgt.same_as(&t))
            &&& radar_step(
                JobStep::RewriteTerrain,
                JobEvent::Did(Ok(())),
                expected,
                kept,
                radars,
            ) is None
            &&& radar_step(
                JobStep::ReadCache,
                JobEvent::Cached(true),
                expected,
                kept,
                radars,
            ) == Some(JobStep::Reused)
        }),
{
}

/// A new job waits: it has its identifier and time, has made no progress, and has
/// neither started nor ended.
pub proof fn law_new_job_waits(id: u128, created_at: String)
    ensures
        ({
            let status = queued(id, created_at);
            &&& status.id == id && status.created_at == created_at
            &&& status.state == JobState::Queued
            &&& status.progress.bits == 0
            &&& status.started_at is None && status.finished_at is None && status.error is None
        }),
{
}

/// Starting a job sets its time and shows that it runs. What it is, and when it was
/// asked for, stays.
pub proof fn law_started_job_runs(status: JobStatus, now: String)
    ensures
        ({
            let started = running_status(status, now);
            &&& started.id == status.id && started.created_at == status.created_at
            &&& started.state == JobState::Running
            &&& started.started_at == Some(now)
            &&& started.finished_at == status.finished_at && started.error == status.error
            &&& 0 < started.progress.bits < 0x3f80_0000
        }),
{
}

/// A job ends as its outcome says, unless it was cancelled: completed with full
/// progress, or failed with the message. It ends at the time given, and what it was
/// and when it started stays.
pub proof fn law_job_ends_as_its_outcome_says(
    status: JobStatus,
    cancelled: bool,
    outcome: Result<(), String>,
    now: String,
)
    ensures
        ({
            let ended = finished_status(status, cancelled, outcome, now);
            &&& ended.id == status.id && ended.created_at == status.created_at && ended.started_at
                == status.started_at
            &&& ended.finished_at == Some(now)
            &&& ended.state == JobState::Cancelled <==> cancelled
            &&& ended.state == JobState::Failed <==> !cancelled && outcome is Err
            &&& ended.state == JobState::Completed <==> !cancelled && outcome is Ok
            &&& ended.state == JobState::Failed ==> ended.error == Some(outcome->Err_0)
            &&& ended.state == JobState::Cancelled ==> ended.error is None
            &&& ended.state == JobState::Completed ==> ended.progress.bits == 0x3f80_0000
                && ended.error == status.error
            &&& ended.state != JobState::Completed ==> ended.progress == status.progress
        }),
{
}

/// Cancelling ends a job that waits or runs, at the time given, and changes no
/// other.
pub proof fn law_cancelling_ends_what_is_active(status: JobStatus, now: String)
    ensures
        ({
            let after = cancelled_status(status, now);
            let active = status.state == JobState::Queued || status.state == JobState::Running;
            &&& !active ==> after == status
            &&& active ==> after.state == JobState::Cancelled && after.finished_at == Some(now)
                && after.error is None
            &&& after.id == status.id && after.created_at == status.created_at
                && after.started_at == status.started_at && after.progress == status.progress
        }),
{
}

/// A job stands for an identical request while it waits or runs, and after it has
/// completed for as long as its results are stored. A failed or cancelled one never
/// does.
pub proof fn law_ended_jobs_are_reused_only_with_results(state: JobState, results_stored: bool)
    ensures
        state == JobState::Queued || state == JobState::Running ==> is_reusable(
            state,
            results_stored,
        ),
        state == JobState::Completed ==> (is_reusable(state, results_stored) <==> results_stored),
        state == JobState::Failed || state == JobState::Cancelled ==> !is_reusable(
            state,
            results_stored,
        ),
{
}

/// A step that fails ends the job with its message, whatever the step was, and
/// stores nothing.
pub proof fn law_failed_step_ends_the_job(
    step: JobStep,
    message: &'static str,
    expected: Metadata,
    terrain: Option<Metadata>,
    radars: int,
    files: StoredArtifact,
    header: Option<Metadata>,
)
    requires
        answers(step, JobEvent::Did(Err(message))),
    ensures
        radar_step(step, JobEvent::Did(Err(message)), expected, terrain, radars) == Some(
            JobStep::Failed(message),
        ),
        files_after(step, JobEvent::Did(Err(message)), files, header) == files,
{
}

/// A job that is cancelled while a radar is computed writes nothing of it, and one
/// that is not goes on to write it.
pub proof fn law_cancelled_result_is_not_written(
    cancelled: bool,
    expected: Metadata,
    terrain: Option<Metadata>,
    radars: int,
)
    ensures
        radar_step(JobStep::AskAfter, JobEvent::Cancelled(cancelled), expected, terrain, radars)
            == Some(
            if cancelled {
                JobStep::Abandoned
            } else {
                JobStep::WriteVisibility
            },
        ),
{
}

/// A stored coverage is taken only where both its files are of the radar and of one
/// calculation. Otherwise the radar is computed, after its terrain is written where
/// no stored one fits.
pub proof fn law_coverage_is_computed_unless_it_is_stored(
    rcov: Option<Metadata>,
    rhgt: Option<Metadata>,
    expected: Metadata,
    terrain: Option<Metadata>,
    radars: int,
)
    ensures
        ({
            let next = radar_step(
                JobStep::ReadCoverage,
                JobEvent::Coverage(rcov, rhgt),
                expected,
                terrain,
                radars,
            );
            let stored = rcov is Some && rhgt is Some && rcov->0.same_identity(&expected)
                && rhgt->0.same_identity(&expected) && rcov->0.same_as(&rhgt->0);
            &&& !stored && terrain is Some ==> next == Some(JobStep::Compute)
            &&& !stored && terrain is None ==> next == Some(JobStep::WriteTerrain)
            &&& stored && terrain is Some && rhgt->0.same_as(&terrain->0) ==> next is None
            &&& stored && !(terrain is Some && rhgt->0.same_as(&terrain->0)) ==> next == Some(
                JobStep::RewriteTerrain,
            )
            &&& stored ==> common_header(rcov, rhgt, terrain, expected) == rhgt->0
            &&& !stored && terrain is Some ==> common_header(rcov, rhgt, terrain, expected)
                == terrain->0
            &&& !stored && terrain is None ==> common_header(rcov, rhgt, terrain, expected)
                == expected
        }),
{
}

/// Stored terrain is kept just where it is of the radar.
pub proof fn law_foreign_terrain_is_not_kept(stored: Option<Metadata>, expected: Metadata)
    ensures
        kept_terrain(stored, expected) is Some <==> stored is Some && stored->0.same_identity(
            &expected,
        ),
        kept_terrain(stored, expected) is Some ==> kept_terrain(stored, expected) == stored,
{
}

/// Each write stores the common header in its own file, and leaves the two others.
pub proof fn law_each_write_fills_its_own_file(
    files: StoredArtifact,
    header: Option<Metadata>,
)
    ensures
        ({
            let done = JobEvent::Did(Ok(()));
            let terrain = files_after(JobStep::WriteTerrain, done, files, header);
            let again = files_after(JobStep::RewriteTerrain, done, files, header);
            let seen = files_after(JobStep::WriteVisibility, done, files, header);
            let high = files_after(JobStep::WriteHeights, done, files, header);
            &&& terrain.rdem == header && terrain.rcov == files.rcov && terrain.rhgt == files.rhgt
            &&& again == terrain
            &&& seen.rcov == header && seen.rdem == files.rdem && seen.rhgt == files.rhgt
            &&& high.rhgt == header && high.rdem == files.rdem && high.rcov == files.rcov
        }),
{
}

/// A stored job is taken just where its manifest is of the request, names at least
/// one radar, and every file it names is plain, there, and of one calculation with
/// the other two.
pub proof fn law_incomplete_job_is_not_taken(
    manifest: &JobCacheManifest,
    request_hash: Seq<char>,
    stored: Seq<StoredArtifact>,
    i: int,
)
    requires
        stored.len() == manifest.artifacts@.len(),
        is_cached(manifest, request_hash, stored),
    ensures
        manifest.request_hash@ == request_hash,
        manifest.artifacts@.len() > 0,
        0 <= i < stored.len() ==> {
            let (rcov, rhgt, rdem) = (stored[i].rcov, stored[i].rhgt, stored[i].rdem);
            &&& rcov is Some && rhgt is Some && rdem is Some
            &&& rcov->0.same_as(&rhgt->0) && rhgt->0.same_as(&rdem->0)
            &&& is_plain_name(manifest.artifacts@[i].rcov@)
            &&& is_plain_name(manifest.artifacts@[i].rhgt@)
            &&& is_plain_name(manifest.artifacts@[i].rdem@)
        },
{
    if 0 <= i < stored.len() {
        assert(manifest.artifacts@[i].names_are_plain() && is_consistent(stored[i]));
    }
}

/// A change of one job leaves every other job as it is, and their order.
pub proof fn law_change_touches_one_job(
    before: JobRegistry,
    after: JobRegistry,
    i: int,
    record: JobRecord,
    j: int,
)
    requires
        JobRegistry::is_updated(before, after, i, record),
        0 <= i < before.records().len(),
        0 <= j < before.records().len(),
    ensures
        after.records().len() == before.records().len(),
        j != i ==> after.records()[j] == before.records()[j],
        after.records()[i] == record,
{
}

/// The job that stands for a request is the last one with its key: no other job with
/// that key comes after it, and there is none just where no job has the key.
pub proof fn law_latest_job_is_the_last(
    registry: JobRegistry,
    key: Seq<char>,
    latest: Option<int>,
    i: int,
)
    requires
        registry.is_latest_for(key, latest),
        0 <= i < registry.records().len(),
        registry.records()[i].key@ == key,
    ensures
        latest is Some,
        i <= latest->0 < registry.records().len(),
        registry.records()[latest->0].key@ == key,
{
}

/// A job asks before each radar until all are done, and only then writes its
/// manifest.
pub proof fn law_manifest_comes_after_the_last_radar(radars: int, complete: int)
    ensures
        complete < radars <==> JobRun::between_radars(radars, complete) is AskBefore,
        complete >= radars <==> JobRun::between_radars(radars, complete) is WriteManifest,
{
}

/// What is done in turn: storage, fingerprint and cache come before the grid, the
/// terrain of a radar before its computation, that before a last question whether to
/// go on, and visibility before heights, with which the radar is complete. A stored
/// job ends at once.
pub proof fn law_job_steps_follow_each_other(
    expected: Metadata,
    terrain: Option<Metadata>,
    stored: Option<Metadata>,
    cached: bool,
    radars: int,
)
    ensures
        ({
            let next = |step: JobStep|
                radar_step(step, JobEvent::Did(Ok(())), expected, terrain, radars);
            &&& next(JobStep::PrepareStorage) == Some(JobStep::Fingerprint)
            &&& next(JobStep::Fingerprint) == Some(JobStep::ReadCache)
            &&& radar_step(
                JobStep::ReadCache,
                JobEvent::Cached(cached),
                expected,
                terrain,
                radars,
            ) == Some(
                if cached {
                    JobStep::Reused
                } else {
                    JobStep::PrepareGrid
                },
            )
            &&& radars > 0 ==> next(JobStep::PrepareGrid) == Some(JobStep::AskBefore)
            &&& radars <= 0 ==> next(JobStep::PrepareGrid) == Some(JobStep::WriteManifest)
            &&& radar_step(
                JobStep::ReadTerrain,
                JobEvent::Terrain(stored),
                expected,
                terrain,
                radars,
            ) == Some(JobStep::ReadCoverage)
            &&& next(JobStep::WriteTerrain) == Some(JobStep::Compute)
            &&& next(JobStep::Compute) == Some(JobStep::AskAfter)
            &&& next(JobStep::WriteVisibility) == Some(JobStep::WriteHeights)
            &&& next(JobStep::WriteHeights) is None
            &&& next(JobStep::RewriteTerrain) is None
            &&& next(JobStep::WriteManifest) == Some(JobStep::Done)
        }),
{
}

/// What is stored of a radar replaces what was stored under its names, and leaves
/// what has other names.
pub proof fn law_stored_files_are_the_last_written(
    artifacts: Seq<JobCacheArtifact>,
    stored: Seq<StoredArtifact>,
    artifact: JobCacheArtifact,
    files: StoredArtifact,
    i: int,
)
    requires
        artifacts.len() == stored.len(),
        0 <= i < stored.len(),
    ensures
        ({
            let after = stored_with(artifacts, stored, artifact, files);
            let same = artifacts[i].rcov@ == artifact.rcov@ && artifacts[i].rhgt@ == artifact.rhgt@
                && artifacts[i].rdem@ == artifact.rdem@;
            &&& after.len() == stored.len() + 1
            &&& after.last() == files
            &&& same ==> after[i] == files
            &&& !same ==> after[i] == stored[i]
        }),
{
}

/// The results of a radar are named alike but for their endings.
pub proof fn law_results_are_named_alike(artifact: JobCacheArtifact, name: Seq<char>)
    requires
        is_artifact_of(artifact, name),
    ensures
        artifact.rcov@.take(name.len() as int) == name,
        artifact.rhgt@.take(name.len() as int) == name,
        artifact.rdem@.take(name.len() as int) == name,
        artifact.rcov@.skip(name.len() as int) == ".rcov"@,
        artifact.rhgt@.skip(name.len() as int) == ".rhgt"@,
        artifact.rdem@.skip(name.len() as int) == ".rdem"@,
{
    assert(artifact.rcov@.take(name.len() as int) =~= name);
    assert(artifact.rhgt@.take(name.len() as int) =~= name);
    assert(artifact.rdem@.take(name.len() as int) =~= name);
    assert(artifact.rcov@.skip(name.len() as int) =~= ".rcov"@);
    assert(artifact.rhgt@.skip(name.len() as int) =~= ".rhgt"@);
    assert(artifact.rdem@.skip(name.len() as int) =~= ".rdem"@);
}

} // verus!
