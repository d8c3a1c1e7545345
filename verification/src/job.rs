//! A unit of work held by the queue.
use crate::clock;
use crate::ids;
use vstd::prelude::*;

verus! {

/// Where a job stands.
#[derive(Clone, Copy, PartialEq, Eq, Debug, Hash, Structural)]
pub enum JobState {
    READY,
    INFLIGHT,
    DLQ,
    COMPLETED,
}

/// A job: what the client handed in, and how its delivery is going.
#[derive(Debug)]
pub struct Job {
    id: u128,
    payload: String,
    state: JobState,
    retries: i32,
    retry_time_s: i64,
    created_at: i64,
}

/// What a [`Job`] says.
pub struct JobView {
    pub id: u128,
    pub payload: Seq<char>,
    pub state: JobState,
    pub retries: i32,
    pub retry_time_s: i64,
    pub created_at: i64,
}

impl JobView {
    /// A job that nobody has taken yet.
    pub open spec fn fresh(id: u128, payload: Seq<char>, created_at: i64) -> JobView {
        JobView { id, payload, state: JobState::READY, retries: 0, retry_time_s: 1, created_at }
    }
}

/// A job that nobody has taken yet waits, has not failed, and is what was handed
/// in.
pub proof fn law_fresh_job_has_not_failed(id: u128, payload: Seq<char>, created_at: i64)
    ensures
        ({
            let job = JobView::fresh(id, payload, created_at);
            &&& job.id == id
            &&& job.payload == payload
            &&& job.created_at == created_at
            &&& job.state == JobState::READY
            &&& job.retries == 0
            &&& job.retry_time_s == 1
        }),
{
}

impl View for Job {
    type V = JobView;

    closed spec fn view(&self) -> JobView {
        JobView {
            id: self.id,
            payload: self.payload@,
            state: self.state,
            retries: self.retries,
            retry_time_s: self.retry_time_s,
            created_at: self.created_at,
        }
    }
}

/// Things that can be made from what a client hands in.
pub trait New: Sized {
    fn new(payload: String) -> Self;
}

impl New for Job {
    /// A fresh job with a random identifier, created now.
    fn new(payload: String) -> (r: Self)
        ensures
            r@ == JobView::fresh(r@.id, payload@, r@.created_at),
            ids::id_version(r@.id) == 4,
            ids::id_has_rfc_variant(r@.id),
            0 <= r@.created_at <= clock::MAX_MICROS,
            exists|drawn: ids::RandomId| #[trigger] drawn.number() == r@.id,
            exists|reading: clock::Reading| #[trigger] reading.micros() == r@.created_at,
    {
        let drawn = ids::random_id();
        let reading = clock::now_micros();
        Job::fresh(drawn.value(), payload, reading.value())
    }
}

impl Job {
    /// A fresh job with a given identifier and time of creation.
    pub fn fresh(id: u128, payload: String, created_at: i64) -> (r: Self)
        ensures
            r@ == JobView::fresh(id, payload@, created_at),
    {
        Job { id, payload, state: JobState::READY, retries: 0, retry_time_s: 1, created_at }
    }

    pub fn id(&self) -> (r: u128)
        ensures
            r == self@.id,
    {
        self.id
    }

    pub fn payload(&self) -> (r: &String)
        ensures
            r@ == self@.payload,
    {
        &self.payload
    }

    pub fn state(&self) -> (r: &JobState)
        ensures
            *r == self@.state,
    {
        &self.state
    }

    pub fn retries(&self) -> (r: i32)
        ensures
            r == self@.retries,
    {
        self.retries
    }

    pub fn retry_time_s(&self) -> (r: i64)
        ensures
            r == self@.retry_time_s,
    {
        self.retry_time_s
    }

    pub fn created_at(&self) -> (r: i64)
        ensures
            r == self@.created_at,
    {
        self.created_at
    }

    pub fn set_id(&mut self, id: u128) -> (r: &mut Self)
        ensures
            (*r)@ == (JobView { id, ..old(self)@ }),
            *final(self) == *final(r),
    {
        self.id = id;
        self
    }

    pub fn set_state(&mut self, state: JobState) -> (r: &mut Self)
        ensures
            (*r)@ == (JobView { state, ..old(self)@ }),
            *final(self) == *final(r),
    {
        self.state = state;
        self
    }

    pub fn set_retries(&mut self, retries: i32) -> (r: &mut Self)
        ensures
            (*r)@ == (JobView { retries, ..old(self)@ }),
            *final(self) == *final(r),
    {
        self.retries = retries;
        self
    }

    pub fn set_retry_time_s(&mut self, retry_time_s: i64) -> (r: &mut Self)
        ensures
            (*r)@ == (JobView { retry_time_s, ..old(self)@ }),
            *final(self) == *final(r),
    {
        self.retry_time_s = retry_time_s;
        self
    }

    pub fn set_created_at(&mut self, created_at: i64) -> (r: &mut Self)
        ensures
            (*r)@ == (JobView { created_at, ..old(self)@ }),
            *final(self) == *final(r),
    {
        self.created_at = created_at;
        self
    }
}

impl Clone for Job {
    fn clone(&self) -> (r: Self)
        ensures
            r@ == self@,
    {
        Job {
            id: self.id,
            payload: self.payload.clone(),
            state: self.state,
            retries: self.retries,
            retry_time_s: self.retry_time_s,
            created_at: self.created_at,
        }
    }
}

/// Two jobs are the same job when their identifiers agree.
impl PartialEq for Job {
    fn eq(&self, other: &Job) -> (r: bool) {
        self.id == other.id
    }
}

impl vstd::std_specs::cmp::PartialEqSpecImpl for Job {
    open spec fn obeys_eq_spec() -> bool {
        true
    }

    open spec fn eq_spec(&self, other: &Job) -> bool {
        self@.id == other@.id
    }
}

/// Whether two jobs are the same goes by their identifiers, whatever became of them
/// since.
pub proof fn law_jobs_are_told_apart_by_their_identifiers(a: Job, b: Job)
    ensures
        vstd::std_specs::cmp::PartialEqSpec::eq_spec(&a, &b) <==> a@.id == b@.id,
{
}

impl Eq for Job {

}

/// `std::hash::Hash` of a `u128`: feeds the number to the hasher. What the
/// hasher makes of it is up to the hasher, so nothing is claimed.
pub assume_specification<H: std::hash::Hasher>[ <u128 as std::hash::Hash>::hash::<H> ](
    value: &u128,
    hasher: &mut H,
)
;

/// A job hashes as its identifier does, so that equal jobs hash alike.
impl std::hash::Hash for Job {
    fn hash<H: std::hash::Hasher>(&self, hasher: &mut H) {
        self.id.hash(hasher);
    }
}

} // verus!
