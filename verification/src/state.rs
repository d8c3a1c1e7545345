//! The queue as a state machine.
use std::collections::{HashMap, VecDeque};

use crate::clock;
use crate::ids::RandomId;
use crate::job::{Job, JobState, JobView, New};
use crate::text;
use vstd::arithmetic::power2::*;
use vstd::prelude::*;

verus! {

broadcast use vstd::std_specs::hash::group_hash_axioms;

/// How long a first delivery stays hidden from other consumers, in seconds.
pub const VISIBILITY_S: i64 = 5;

/// Deliveries that a job may fail before it is set aside.
pub const MAX_RETRIES: i32 = 10;

/// Ceiling on the retry backoff, so a job that keeps failing does not drift
/// out to an unusable redelivery interval before it is set aside.
pub const MAX_BACKOFF_S: i64 = 300;

/// Unacknowledged jobs the broker holds before it rejects producers. Counts
/// dead-lettered jobs too, since those also occupy memory until redriven.
pub const MAX_QUEUE_DEPTH: usize = 10_000;

// ---------------------------------------------------------------- transitions

/// A state transition.
///
/// Every field is something that applying the record could not have worked out
/// for itself: a value from the clock, from a random generator, or from the
/// client. Anything derivable from existing state is absent and recomputed.
#[derive(Debug, PartialEq)]
pub enum Record {
    Enqueued { job_id: u128, payload: String, created_at: i64 },
    Leased { job_id: u128, delivery_id: u128, visible_at: i64 },
    Acked { job_id: u128, delivery_id: u128 },
    Retried { job_id: u128, delivery_id: u128 },
    DeadLettered { job_id: u128, delivery_id: u128 },
    /// An operator returned a dead-lettered job to the ready queue.
    Redriven { job_id: u128 },
}

/// What a [`Record`] says.
pub enum RecordView {
    Enqueued { job_id: u128, payload: Seq<char>, created_at: i64 },
    Leased { job_id: u128, delivery_id: u128, visible_at: i64 },
    Acked { job_id: u128, delivery_id: u128 },
    Retried { job_id: u128, delivery_id: u128 },
    DeadLettered { job_id: u128, delivery_id: u128 },
    Redriven { job_id: u128 },
}

impl View for Record {
    type V = RecordView;

    open spec fn view(&self) -> RecordView {
        match *self {
            Record::Enqueued { job_id, payload, created_at } => RecordView::Enqueued {
                job_id,
                payload: payload@,
                created_at,
            },
            Record::Leased { job_id, delivery_id, visible_at } => RecordView::Leased {
                job_id,
                delivery_id,
                visible_at,
            },
            Record::Acked { job_id, delivery_id } => RecordView::Acked { job_id, delivery_id },
            Record::Retried { job_id, delivery_id } => RecordView::Retried { job_id, delivery_id },
            Record::DeadLettered { job_id, delivery_id } => RecordView::DeadLettered {
                job_id,
                delivery_id,
            },
            Record::Redriven { job_id } => RecordView::Redriven { job_id },
        }
    }
}

impl Clone for Record {
    fn clone(&self) -> (r: Self)
        ensures
            r@ == self@,
    {
        match self {
            Record::Enqueued { job_id, payload, created_at } => Record::Enqueued {
                job_id: *job_id,
                payload: payload.clone(),
                created_at: *created_at,
            },
            Record::Leased { job_id, delivery_id, visible_at } => Record::Leased {
                job_id: *job_id,
                delivery_id: *delivery_id,
                visible_at: *visible_at,
            },
            Record::Acked { job_id, delivery_id } => Record::Acked {
                job_id: *job_id,
                delivery_id: *delivery_id,
            },
            Record::Retried { job_id, delivery_id } => Record::Retried {
                job_id: *job_id,
                delivery_id: *delivery_id,
            },
            Record::DeadLettered { job_id, delivery_id } => Record::DeadLettered {
                job_id: *job_id,
                delivery_id: *delivery_id,
            },
            Record::Redriven { job_id } => Record::Redriven { job_id: *job_id },
        }
    }
}

// -------------------------------------------------------------------- backoff

/// How often the lease of a job that has failed `retries` times is doubled.
pub open spec fn doublings(retries: i32) -> nat {
    if retries < 0 {
        0
    } else if retries > 16 {
        16
    } else {
        retries as nat
    }
}

/// The lease of a job that has failed `retries` times, in seconds.
pub open spec fn backoff(retries: i32) -> int {
    let doubled = VISIBILITY_S * pow2(doublings(retries));
    if doubled < MAX_BACKOFF_S {
        doubled
    } else {
        MAX_BACKOFF_S as int
    }
}

/// Visibility timeout for a job's next delivery, doubling per retry.
///
/// Lease expiry is the only failure signal, so the lease length is also the
/// interval between redelivery attempts: a consumer that keeps dying sees gaps
/// of 5s, 10s, 20s, 40s rather than a hot loop.
pub fn backoff_seconds(retries: i32) -> (r: i64)
    ensures
        r == backoff(retries),
{
    let doublings: u32 = if retries < 0 {
        0
    } else if retries > 16 {
        16
    } else {
        retries as u32
    };
    let mut seconds: i64 = VISIBILITY_S;
    let mut i: u32 = 0;
    proof {
        lemma2_to64();
    }
    while i < doublings
        invariant
            i <= doublings <= 16,
            seconds == VISIBILITY_S * pow2(i as nat),
            seconds <= VISIBILITY_S * 65536,
        decreases doublings - i,
    {
        proof {
            lemma_pow2_unfold((i + 1) as nat);
            lemma_pow2_strictly_increases(i as nat, 16);
            lemma2_to64();
        }
        seconds = seconds * 2;
        i = i + 1;
    }
    if seconds < MAX_BACKOFF_S {
        seconds
    } else {
        MAX_BACKOFF_S
    }
}

// --------------------------------------------------------- outstanding leases

/// Whether the lease that ends at `a.0` under delivery `a.1` comes before `b`'s.
pub open spec fn sooner(a: (i64, u128), b: (i64, u128)) -> bool {
    a.0 < b.0 || (a.0 == b.0 && a.1 < b.1)
}

/// Whether no lease ends sooner than that of delivery `d`.
pub open spec fn ends_first(leases: Map<u128, (u128, i64)>, d: u128) -> bool {
    &&& leases.contains_key(d)
    &&& forall|e: u128| #[trigger]
        leases.contains_key(e) && e != d ==> sooner((leases[d].1, d), (leases[e].1, e))
}

/// Outstanding deliveries, indexed two ways so neither the expiry sweep nor ack
/// has to scan. Both always describe the same set of deliveries.
#[derive(Debug)]
pub struct InvisibleQueue {
    /// (visible_at, delivery_id, job_id), ordered by expiry.
    timers: Vec<(i64, u128, u128)>,
    /// delivery_id -> (job_id, visible_at), so ack can find the timer.
    leases: HashMap<u128, (u128, i64)>,
}

impl View for InvisibleQueue {
    type V = Map<u128, (u128, i64)>;

    /// The job and the end of the lease of each delivery.
    closed spec fn view(&self) -> Map<u128, (u128, i64)> {
        self.leases@
    }
}

impl InvisibleQueue {
    /// The timers are in order and describe the same deliveries as the leases.
    pub closed spec fn wf(&self) -> bool {
        &&& forall|i: int, j: int|
            0 <= i < j < self.timers@.len() ==> sooner(
                (#[trigger] self.timers@[i].0, self.timers@[i].1),
                (#[trigger] self.timers@[j].0, self.timers@[j].1),
            )
        &&& forall|i: int|
            0 <= i < self.timers@.len() ==> self.leases@.contains_key(
                (#[trigger] self.timers@[i]).1,
            ) && self.leases@[self.timers@[i].1] == (self.timers@[i].2, self.timers@[i].0)
        &&& forall|d: u128| #[trigger]
            self.leases@.contains_key(d) ==> self.timers@.contains(
                (self.leases@[d].1, d, self.leases@[d].0),
            )
    }

    pub fn new() -> (r: Self)
        ensures
            r.wf(),
            r@ == Map::<u128, (u128, i64)>::empty(),
    {
        InvisibleQueue { timers: Vec::new(), leases: HashMap::new() }
    }

    /// How many timers come before the lease that ends at `visible_at` under
    /// `delivery_id`.
    fn position(&self, visible_at: i64, delivery_id: u128) -> (r: usize)
        requires
            self.wf(),
        ensures
            r <= self.timers@.len(),
            forall|i: int|
                0 <= i < r ==> sooner(
                    (#[trigger] self.timers@[i].0, self.timers@[i].1),
                    (visible_at, delivery_id),
                ),
            forall|i: int|
                r <= i < self.timers@.len() ==> !sooner(
                    (#[trigger] self.timers@[i].0, self.timers@[i].1),
                    (visible_at, delivery_id),
                ),
    {
        let mut low: usize = 0;
        let mut high: usize = self.timers.len();
        while low < high
            invariant
                self.wf(),
                low <= high <= self.timers@.len(),
                forall|i: int|
                    0 <= i < low ==> sooner(
                        (#[trigger] self.timers@[i].0, self.timers@[i].1),
                        (visible_at, delivery_id),
                    ),
                forall|i: int|
                    high <= i < self.timers@.len() ==> !sooner(
                        (#[trigger] self.timers@[i].0, self.timers@[i].1),
                        (visible_at, delivery_id),
                    ),
            decreases high - low,
        {
            let mid: usize = low + (high - low) / 2;
            let (at, id, _) = self.timers[mid];
            if at < visible_at || (at == visible_at && id < delivery_id) {
                low = mid + 1;
            } else {
                high = mid;
            }
        }
        low
    }

    /// Puts a delivery under lease. A lease already held under the same
    /// delivery is replaced, timer included.
    pub fn insert(&mut self, job_id: u128, delivery_id: u128, visible_at: i64)
        requires
            old(self).wf(),
        ensures
            final(self).wf(),
            final(self)@ == old(self)@.insert(delivery_id, (job_id, visible_at)),
    {
        let _ = self.remove(delivery_id);
        let ghost without = *self;
        let at = self.position(visible_at, delivery_id);
        self.timers.insert(at, (visible_at, delivery_id, job_id));
        self.leases.insert(delivery_id, (job_id, visible_at));
        proof {
            let timers = without.timers@;
            assert(self@ =~= old(self)@.insert(delivery_id, (job_id, visible_at)));
            assert forall|d: u128| #[trigger] self.leases@.contains_key(d) implies self.timers@.contains(
                (self.leases@[d].1, d, self.leases@[d].0),
            ) by {
                if d == delivery_id {
                    assert(self.timers@[at as int] == (visible_at, delivery_id, job_id));
                } else {
                    let t = (without.leases@[d].1, d, without.leases@[d].0);
                    assert(without.leases@.contains_key(d));
                    let k = choose|k: int| 0 <= k < timers.len() && timers[k] == t;
                    let m = if k < at { k } else { k + 1 };
                    assert(self.timers@[m] == t);
                }
            }
        }
    }

    /// Ends the lease of a delivery and names the job it was for.
    pub fn remove(&mut self, delivery_id: u128) -> (r: Option<u128>)
        requires
            old(self).wf(),
        ensures
            final(self).wf(),
            final(self)@ == old(self)@.remove(delivery_id),
            r == (if old(self)@.contains_key(delivery_id) {
                Some(old(self)@[delivery_id].0)
            } else {
                None
            }),
    {
        let lease: (u128, i64) = match self.leases.get(&delivery_id) {
            Some(lease) => *lease,
            None => {
                assert(self@ =~= old(self)@.remove(delivery_id));
                return None;
            },
        };
        let at = self.position(lease.1, delivery_id);
        let ghost timers = self.timers@;
        let ghost leases = self.leases@;
        let ghost ended = (lease.1, delivery_id, lease.0);
        proof {
            assert(timers.contains(ended));
            let k = choose|k: int| 0 <= k < timers.len() && timers[k] == ended;
            assert(timers[k].1 == delivery_id);
            assert(k == at) by {
                if k > at {
                    assert(sooner((timers[at as int].0, timers[at as int].1), (timers[k].0, timers[k].1)));
                }
            }
        }
        self.timers.remove(at);
        self.leases.remove(&delivery_id);
        proof {
            assert(self@ =~= old(self)@.remove(delivery_id));
            assert forall|i: int| 0 <= i < self.timers@.len() implies self.leases@.contains_key(
                (#[trigger] self.timers@[i]).1,
            ) && self.leases@[self.timers@[i].1] == (self.timers@[i].2, self.timers@[i].0) by {
                let m = if i < at { i } else { i + 1 };
                assert(self.timers@[i] == timers[m]);
                assert(timers[at as int] == ended);
            }
            assert forall|d: u128| #[trigger] self.leases@.contains_key(d) implies self.timers@.contains(
                (self.leases@[d].1, d, self.leases@[d].0),
            ) by {
                assert(leases.contains_key(d));
                let t = (leases[d].1, d, leases[d].0);
                let m = choose|m: int| 0 <= m < timers.len() && timers[m] == t;
                let n = if m < at { m } else { m - 1 };
                assert(self.timers@[n] == t);
            }
        }
        Some(lease.0)
    }

    /// The job that a delivery was made for, while its lease lasts.
    pub fn job_of(&self, delivery_id: u128) -> (r: Option<u128>)
        ensures
            r == (if self@.contains_key(delivery_id) {
                Some(self@[delivery_id].0)
            } else {
                None
            }),
    {
        match self.leases.get(&delivery_id) {
            Some(lease) => Some(lease.0),
            None => None,
        }
    }

    /// The job and the delivery of the earliest lease if it has expired by
    /// `now`, left in place. The caller records the expiry and applying the
    /// record performs the removal.
    pub fn peek_expired(&self, now: i64) -> (r: Option<(u128, u128)>)
        requires
            self.wf(),
        ensures
            match r {
                Some((job_id, delivery_id)) => ends_first(self@, delivery_id)
                    && self@[delivery_id].0 == job_id && self@[delivery_id].1 <= now,
                None => forall|d: u128| #[trigger] self@.contains_key(d) ==> self@[d].1 > now,
            },
    {
        if self.timers.len() == 0 {
            return None;
        }
        let (visible_at, delivery_id, job_id) = self.timers[0];
        proof {
            assert(self.timers@[0] == (visible_at, delivery_id, job_id));
            assert forall|d: u128| #[trigger] self@.contains_key(d) implies d == delivery_id || sooner(
                (visible_at, delivery_id),
                (self@[d].1, d),
            ) by {
                let t = (self.leases@[d].1, d, self.leases@[d].0);
                let k = choose|k: int| 0 <= k < self.timers@.len() && self.timers@[k] == t;
                assert(self.timers@[k] == t);
                if k > 0 {
                    assert(sooner(
                        (self.timers@[0].0, self.timers@[0].1),
                        (self.timers@[k].0, self.timers@[k].1),
                    ));
                }
            }
        }
        if visible_at <= now {
            Some((job_id, delivery_id))
        } else {
            None
        }
    }
}

// ------------------------------------------------------------------ the queue

/// Tells the others from `id`.
pub open spec fn other_than(id: u128) -> spec_fn(u128) -> bool {
    |queued: u128| queued != id
}

/// `s` without any occurrence of `id`.
pub open spec fn without(s: Seq<u128>, id: u128) -> Seq<u128> {
    s.filter(other_than(id))
}

/// One more failed delivery, on a counter of 32 bits.
pub open spec fn one_more(retries: i32) -> i32 {
    if retries == i32::MAX {
        i32::MIN
    } else {
        (retries + 1) as i32
    }
}

/// What a [`QueueState`] holds.
pub struct QueueView {
    /// Every unacknowledged job.
    pub jobs: Map<u128, JobView>,
    /// The jobs waiting for a consumer, next one first.
    pub ready: Seq<u128>,
    /// For each delivery under lease, its job and when the lease ends.
    pub leases: Map<u128, (u128, i64)>,
    /// The jobs set aside, longest first.
    pub dead: Seq<u128>,
}

impl QueueView {
    pub open spec fn empty() -> QueueView {
        QueueView {
            jobs: Map::empty(),
            ready: Seq::empty(),
            leases: Map::empty(),
            dead: Seq::empty(),
        }
    }

    /// The jobs with that of `id`, if there is one, moved to `state` with
    /// `retries` failures counted.
    pub open spec fn moved(self, id: u128, state: JobState, retries: i32) -> Map<u128, JobView> {
        if self.jobs.contains_key(id) {
            self.jobs.insert(id, JobView { state, retries, ..self.jobs[id] })
        } else {
            self.jobs
        }
    }

    /// The failures counted against a job.
    pub open spec fn retries(self, id: u128) -> i32 {
        if self.jobs.contains_key(id) {
            self.jobs[id].retries
        } else {
            0
        }
    }

    /// The state that a record leads to.
    pub open spec fn apply(self, record: RecordView) -> QueueView {
        match record {
            RecordView::Enqueued { job_id, payload, created_at } => QueueView {
                jobs: self.jobs.insert(job_id, JobView::fresh(job_id, payload, created_at)),
                ready: self.ready.push(job_id),
                ..self
            },
            RecordView::Leased { job_id, delivery_id, visible_at } => if clock::on_calendar(
                visible_at,
            ) {
                QueueView {
                    jobs: self.moved(job_id, JobState::INFLIGHT, self.retries(job_id)),
                    ready: without(self.ready, job_id),
                    leases: self.leases.insert(delivery_id, (job_id, visible_at)),
                    ..self
                }
            } else {
                self
            },
            RecordView::Acked { job_id, delivery_id } => QueueView {
                jobs: self.jobs.remove(job_id),
                ready: without(self.ready, job_id),
                leases: self.leases.remove(delivery_id),
                ..self
            },
            RecordView::Retried { job_id, delivery_id } => QueueView {
                jobs: self.moved(job_id, JobState::READY, one_more(self.retries(job_id))),
                ready: self.ready.push(job_id),
                leases: self.leases.remove(delivery_id),
                ..self
            },
            RecordView::DeadLettered { job_id, delivery_id } => QueueView {
                jobs: self.moved(job_id, JobState::DLQ, one_more(self.retries(job_id))),
                leases: self.leases.remove(delivery_id),
                dead: self.dead.push(job_id),
                ..self
            },
            RecordView::Redriven { job_id } => QueueView {
                jobs: self.moved(job_id, JobState::READY, 0),
                ready: self.ready.push(job_id),
                dead: without(self.dead, job_id),
                ..self
            },
        }
    }

    /// The state that records applied in order lead to.
    pub open spec fn apply_all(self, records: Seq<RecordView>) -> QueueView
        decreases records.len(),
    {
        if records.len() == 0 {
            self
        } else {
            self.apply_all(records.drop_last()).apply(records.last())
        }
    }

    /// The jobs set aside that are still held, flattened.
    pub open spec fn dead_jobs(self) -> Seq<DeadJobSpec> {
        self.dead.filter(|id: u128| self.jobs.contains_key(id)).map_values(
            |id: u128|
                DeadJobSpec {
                    job_id: id,
                    payload: self.jobs[id].payload,
                    retries: self.jobs[id].retries,
                    created_at: self.jobs[id].created_at,
                },
        )
    }
}

/// The replicated state machine: the queue and nothing else.
///
/// Knows nothing about peers. [`QueueState::apply`] is the way to change it, and
/// is a pure function of the record and the current state, so that every replica
/// fed the same records lands in the same place.
#[derive(Debug)]
pub struct QueueState {
    jobs: HashMap<u128, Job>,
    ready: VecDeque<u128>,
    invisible: InvisibleQueue,
    dead: VecDeque<u128>,
}

/// A dead-lettered job, flattened for the API layer.
#[derive(Debug)]
pub struct DeadJobView {
    pub job_id: u128,
    pub payload: String,
    pub retries: i32,
    pub created_at: i64,
}

/// What a [`DeadJobView`] says.
pub struct DeadJobSpec {
    pub job_id: u128,
    pub payload: Seq<char>,
    pub retries: i32,
    pub created_at: i64,
}

impl View for DeadJobView {
    type V = DeadJobSpec;

    open spec fn view(&self) -> DeadJobSpec {
        DeadJobSpec {
            job_id: self.job_id,
            payload: self.payload@,
            retries: self.retries,
            created_at: self.created_at,
        }
    }
}

/// The views of a sequence of dead-lettered jobs.
pub open spec fn dead_views(jobs: Seq<DeadJobView>) -> Seq<DeadJobSpec> {
    jobs.map_values(|j: DeadJobView| j@)
}

/// The views of the jobs of a map.
pub open spec fn job_views(jobs: Map<u128, Job>) -> Map<u128, JobView> {
    jobs.map_values(|j: Job| j@)
}

impl View for QueueState {
    type V = QueueView;

    closed spec fn view(&self) -> QueueView {
        QueueView {
            jobs: job_views(self.jobs@),
            ready: self.ready@,
            leases: self.invisible@,
            dead: self.dead@,
        }
    }
}

/// Copies a queue without any occurrence of `id`.
fn retain_others(queue: &VecDeque<u128>, id: u128) -> (r: VecDeque<u128>)
    ensures
        r@ == without(queue@, id),
{
    let mut kept: VecDeque<u128> = VecDeque::new();
    let mut i: usize = 0;
    proof {
        reveal(Seq::filter);
        assert(queue@.take(0).filter(other_than(id)) =~= Seq::empty());
    }
    while i < queue.len()
        invariant
            i <= queue@.len(),
            kept@ == queue@.take(i as int).filter(other_than(id)),
        decreases queue@.len() - i,
    {
        let queued = queue[i];
        proof {
            reveal(Seq::filter);
            assert(queue@.take(i + 1).drop_last() =~= queue@.take(i as int));
        }
        if queued != id {
            kept.push_back(queued);
        }
        i = i + 1;
    }
    proof {
        assert(queue@.take(i as int) =~= queue@);
    }
    kept
}

/// Copies a queue into a vector.
fn to_vec(queue: &VecDeque<u128>) -> (r: Vec<u128>)
    ensures
        r@ == queue@,
{
    let mut copy: Vec<u128> = Vec::new();
    let mut i: usize = 0;
    while i < queue.len()
        invariant
            i <= queue@.len(),
            copy@ == queue@.take(i as int),
        decreases queue@.len() - i,
    {
        copy.push(queue[i]);
        i = i + 1;
        assert(copy@ =~= queue@.take(i as int));
    }
    assert(queue@.take(i as int) =~= queue@);
    copy
}

impl QueueState {
    /// The deliveries under lease are indexed consistently.
    pub closed spec fn wf(&self) -> bool {
        self.invisible.wf()
    }

    /// A queue that holds nothing.
    pub fn new() -> (r: Self)
        ensures
            r.wf(),
            r@ == QueueView::empty(),
    {
        let r = QueueState {
            jobs: HashMap::new(),
            ready: VecDeque::new(),
            invisible: InvisibleQueue::new(),
            dead: VecDeque::new(),
        };
        assert(r@.jobs =~= Map::empty());
        r
    }

    /// Moves the job of `id`, if there is one, to `state` with `retries`
    /// failures counted.
    fn move_job(&mut self, id: u128, state: JobState, retries: i32)
        requires
            old(self).wf(),
        ensures
            final(self).wf(),
            final(self)@ == (QueueView { jobs: old(self)@.moved(id, state, retries), ..old(self)@ }),
    {
        if let Some(mut job) = self.jobs.remove(&id) {
            job.set_retries(retries);
            job.set_state(state);
            self.jobs.insert(id, job);
        }
        assert(self@.jobs =~= old(self)@.moved(id, state, retries));
    }

    /// Applies a record. A lease whose end is not a date is ignored.
    pub fn apply(&mut self, record: &Record)
        requires
            old(self).wf(),
        ensures
            final(self).wf(),
            final(self)@ == old(self)@.apply(record@),
    {
        match record {
            Record::Enqueued { job_id, payload, created_at } => {
                let job = Job::fresh(*job_id, payload.clone(), *created_at);
                self.jobs.insert(*job_id, job);
                self.ready.push_back(*job_id);
                assert(self@.jobs =~= old(self)@.apply(record@).jobs);
            },
            Record::Leased { job_id, delivery_id, visible_at } => {
                if !clock::has_date(*visible_at) {
                    return;
                }
                self.ready = retain_others(&self.ready, *job_id);
                let retries = self.retries_or_zero(*job_id);
                self.move_job(*job_id, JobState::INFLIGHT, retries);
                self.invisible.insert(*job_id, *delivery_id, *visible_at);
            },
            Record::Acked { job_id, delivery_id } => {
                let _ = self.invisible.remove(*delivery_id);
                self.jobs.remove(job_id);
                self.ready = retain_others(&self.ready, *job_id);
                assert(self@.jobs =~= old(self)@.apply(record@).jobs);
            },
            Record::Retried { job_id, delivery_id } => {
                let _ = self.invisible.remove(*delivery_id);
                let retries = self.retries_or_zero(*job_id);
                self.move_job(*job_id, JobState::READY, count_failure(retries));
                self.ready.push_back(*job_id);
            },
            Record::DeadLettered { job_id, delivery_id } => {
                let _ = self.invisible.remove(*delivery_id);
                let retries = self.retries_or_zero(*job_id);
                self.move_job(*job_id, JobState::DLQ, count_failure(retries));
                self.dead.push_back(*job_id);
            },
            Record::Redriven { job_id } => {
                self.dead = retain_others(&self.dead, *job_id);
                self.move_job(*job_id, JobState::READY, 0);
                self.ready.push_back(*job_id);
            },
        }
    }

    /// The failures counted against a job, none for one that is not held.
    fn retries_or_zero(&self, id: u128) -> (r: i32)
        ensures
            r == self@.retries(id),
    {
        match self.jobs.get(&id) {
            Some(job) => job.retries(),
            None => 0,
        }
    }

    /// Unacknowledged jobs held, for the backpressure check.
    pub fn depth(&self) -> (r: usize)
        ensures
            r == self@.jobs.len(),
            self@.jobs.dom().finite(),
    {
        proof {
            assert(self@.jobs.dom() =~= self.jobs@.dom());
        }
        self.jobs.len()
    }

    /// The next job a consumer would receive, with the retry count that decides
    /// how long its lease should last. Left in the ready queue; applying the
    /// lease record removes it.
    pub fn peek_ready(&self) -> (r: Option<(u128, i32)>)
        ensures
            r == (if self@.ready.len() == 0 {
                None
            } else {
                Some((self@.ready[0], self@.retries(self@.ready[0])))
            }),
    {
        if self.ready.len() == 0 {
            return None;
        }
        let id: u128 = self.ready[0];
        Some((id, self.retries_or_zero(id)))
    }

    /// The payload and the time of creation of a job.
    pub fn job_view(&self, id: u128) -> (r: Option<(String, i64)>)
        ensures
            match r {
                Some((payload, created_at)) => self@.jobs.contains_key(id) && payload@
                    == self@.jobs[id].payload && created_at == self@.jobs[id].created_at,
                None => !self@.jobs.contains_key(id),
            },
    {
        match self.jobs.get(&id) {
            Some(job) => Some((job.payload().clone(), job.created_at())),
            None => None,
        }
    }

    /// The job that a delivery was made for, while its lease lasts.
    pub fn job_of_delivery(&self, delivery_id: u128) -> (r: Option<u128>)
        ensures
            r == (if self@.leases.contains_key(delivery_id) {
                Some(self@.leases[delivery_id].0)
            } else {
                None
            }),
    {
        self.invisible.job_of(delivery_id)
    }

    /// The job and the delivery of the earliest lease, if it has expired by `now`.
    pub fn peek_expired(&self, now: i64) -> (r: Option<(u128, u128)>)
        requires
            self.wf(),
        ensures
            match r {
                Some((job_id, delivery_id)) => ends_first(self@.leases, delivery_id)
                    && self@.leases[delivery_id].0 == job_id && self@.leases[delivery_id].1 <= now,
                None => forall|d: u128| #[trigger]
                    self@.leases.contains_key(d) ==> self@.leases[d].1 > now,
            },
    {
        self.invisible.peek_expired(now)
    }

    /// The failures counted against a job that is held.
    pub fn retries_of(&self, id: u128) -> (r: Option<i32>)
        ensures
            r == (if self@.jobs.contains_key(id) {
                Some(self@.jobs[id].retries)
            } else {
                None
            }),
    {
        match self.jobs.get(&id) {
            Some(job) => Some(job.retries()),
            None => None,
        }
    }

    /// The jobs set aside, longest first.
    pub fn dead_ids(&self) -> (r: Vec<u128>)
        ensures
            r@ == self@.dead,
    {
        to_vec(&self.dead)
    }

    /// The jobs set aside that are still held, longest first.
    pub fn dead_jobs(&self) -> (r: Vec<DeadJobView>)
        ensures
            dead_views(r@) == self@.dead_jobs(),
    {
        let mut listed: Vec<DeadJobView> = Vec::new();
        let mut i: usize = 0;
        let ghost held = |id: u128| self@.jobs.contains_key(id);
        let ghost flat = |id: u128|
            DeadJobSpec {
                job_id: id,
                payload: self@.jobs[id].payload,
                retries: self@.jobs[id].retries,
                created_at: self@.jobs[id].created_at,
            };
        proof {
            reveal(Seq::filter);
            assert(dead_views(listed@) =~= self.dead@.take(0).filter(held).map_values(flat));
        }
        while i < self.dead.len()
            invariant
                i <= self.dead@.len(),
                held == (|id: u128| self@.jobs.contains_key(id)),
                flat == (|id: u128|
                    DeadJobSpec {
                        job_id: id,
                        payload: self@.jobs[id].payload,
                        retries: self@.jobs[id].retries,
                        created_at: self@.jobs[id].created_at,
                    }),
                dead_views(listed@) == self.dead@.take(i as int).filter(held).map_values(flat),
            decreases self.dead@.len() - i,
        {
            let id: u128 = self.dead[i];
            let ghost before = listed@;
            proof {
                reveal(Seq::filter);
                assert(self.dead@.take(i + 1).drop_last() =~= self.dead@.take(i as int));
            }
            if let Some(job) = self.jobs.get(&id) {
                let view = DeadJobView {
                    job_id: id,
                    payload: job.payload().clone(),
                    retries: job.retries(),
                    created_at: job.created_at(),
                };
                listed.push(view);
                assert(view@ == flat(id));
                assert(dead_views(listed@) =~= dead_views(before).push(view@));
                assert(self.dead@.take(i as int).filter(held).push(id).map_values(flat)
                    =~= self.dead@.take(i as int).filter(held).map_values(flat).push(flat(id)));
            }
            i = i + 1;
        }
        assert(self.dead@.take(i as int) =~= self.dead@);
        listed
    }

    /// The jobs waiting for a consumer, next one first.
    pub fn ready_ids(&self) -> (r: Vec<u128>)
        ensures
            r@ == self@.ready,
    {
        to_vec(&self.ready)
    }

    /// Sets a job aside without a delivery having failed.
    pub fn insert_dead_for_test(&mut self, job: Job)
        requires
            old(self).wf(),
        ensures
            final(self).wf(),
            final(self)@ == (QueueView {
                jobs: old(self)@.jobs.insert(job@.id, job@),
                dead: old(self)@.dead.push(job@.id),
                ..old(self)@
            }),
    {
        let id = job.id();
        let ghost view = job@;
        self.jobs.insert(id, job);
        self.dead.push_back(id);
        assert(self@.jobs =~= old(self)@.jobs.insert(view.id, view));
    }
}

/// The jobs with one more for each of the identifiers, numbered in order, each
/// created at its time.
pub open spec fn filled(jobs: Map<u128, JobView>, ids: Seq<u128>, times: Seq<i64>) -> Map<
    u128,
    JobView,
>
    decreases ids.len(),
{
    if ids.len() == 0 {
        jobs
    } else {
        filled(jobs, ids.drop_last(), times.drop_last()).insert(
            ids.last(),
            JobView::fresh(
                ids.last(),
                "filler-"@ + text::decimal((ids.len() - 1) as nat),
                times.last(),
            ),
        )
    }
}

/// Whether every identifier was drawn at random.
pub open spec fn all_drawn(ids: Seq<u128>) -> bool {
    forall|i: int|
        0 <= i < ids.len() ==> exists|drawn: RandomId| #[trigger] drawn.number()
            == #[trigger] ids[i]
}

/// Whether every time was read off the clock.
pub open spec fn all_read(times: Seq<i64>) -> bool {
    forall|i: int|
        0 <= i < times.len() ==> exists|reading: clock::Reading| #[trigger] reading.micros()
            == #[trigger] times[i]
}

/// Where all of some identifiers were drawn and all of some times were read, each
/// of them was.
pub proof fn law_each_filler_is_drawn_and_dated(ids: Seq<u128>, times: Seq<i64>, i: int)
    requires
        all_drawn(ids),
        all_read(times),
        0 <= i < ids.len(),
        i < times.len(),
    ensures
        exists|drawn: RandomId| #[trigger] drawn.number() == ids[i],
        exists|reading: clock::Reading| #[trigger] reading.micros() == times[i],
{
    let id = ids[i];
    let time = times[i];
    assert(exists|drawn: RandomId| #[trigger] drawn.number() == id);
    assert(exists|reading: clock::Reading| #[trigger] reading.micros() == time);
}

impl QueueState {
    /// Holds `count` more jobs that wait for nobody, under random identifiers.
    pub fn fill_for_test(&mut self, count: usize)
        requires
            old(self).wf(),
        ensures
            final(self).wf(),
            exists|ids: Seq<u128>, times: Seq<i64>|
                ids.len() == count && times.len() == count && final(self)@ == (QueueView {
                    jobs: #[trigger] filled(old(self)@.jobs, ids, times),
                    ..old(self)@
                }) && all_drawn(ids) && all_read(times),
    {
        let ghost mut ids: Seq<u128> = Seq::empty();
        let ghost mut times: Seq<i64> = Seq::empty();
        let mut i: usize = 0;
        while i < count
            invariant
                self.wf(),
                i <= count,
                ids.len() == i,
                times.len() == i,
                all_drawn(ids),
                all_read(times),
                self@ == (QueueView { jobs: filled(old(self)@.jobs, ids, times), ..old(self)@ }),
            decreases count - i,
        {
            let number = text::decimal_text(i as u64);
            let job: Job = Job::new(text::prefixed("filler-", number.as_str()));
            let id = job.id();
            let ghost view = job@;
            let ghost before = self@.jobs;
            self.jobs.insert(id, job);
            proof {
                assert(ids.push(id).drop_last() =~= ids);
                assert(times.push(view.created_at).drop_last() =~= times);
                assert(self@.jobs =~= before.insert(id, view));
                ids = ids.push(id);
                times = times.push(view.created_at);
            }
            i = i + 1;
        }
    }
}

impl Default for QueueState {
    fn default() -> (r: Self)
        ensures
            r.wf(),
            r@ == QueueView::empty(),
    {
        QueueState::new()
    }
}

impl Default for InvisibleQueue {
    fn default() -> (r: Self)
        ensures
            r.wf(),
            r@ == Map::<u128, (u128, i64)>::empty(),
    {
        InvisibleQueue::new()
    }
}

/// One more failed delivery, on a counter of 32 bits.
fn count_failure(retries: i32) -> (r: i32)
    ensures
        r == one_more(retries),
{
    if retries == i32::MAX {
        i32::MIN
    } else {
        retries + 1
    }
}

/// What a record says is what stands in it.
pub proof fn law_record_says_what_stands_in_it(record: Record)
    ensures
        match record {
            Record::Enqueued { job_id, payload, created_at } => record@ is Enqueued
                && record@->Enqueued_job_id == job_id && record@->Enqueued_payload == payload@
                && record@->Enqueued_created_at == created_at,
            Record::Leased { job_id, delivery_id, visible_at } => record@ is Leased
                && record@->Leased_job_id == job_id && record@->Leased_delivery_id == delivery_id
                && record@->visible_at == visible_at,
            Record::Acked { job_id, delivery_id } => record@ is Acked && record@->Acked_job_id
                == job_id && record@->Acked_delivery_id == delivery_id,
            Record::Retried { job_id, delivery_id } => record@ is Retried
                && record@->Retried_job_id == job_id && record@->Retried_delivery_id
                == delivery_id,
            Record::DeadLettered { job_id, delivery_id } => record@ is DeadLettered
                && record@->DeadLettered_job_id == job_id && record@->DeadLettered_delivery_id
                == delivery_id,
            Record::Redriven { job_id } => record@ is Redriven && record@->Redriven_job_id
                == job_id,
        },
{
}

/// What is said of a job that was set aside is what stands in it, one for one.
pub proof fn law_dead_jobs_say_what_stands_in_them(jobs: Seq<DeadJobView>, i: int)
    requires
        0 <= i < jobs.len(),
    ensures
        dead_views(jobs).len() == jobs.len(),
        dead_views(jobs)[i].job_id == jobs[i].job_id,
        dead_views(jobs)[i].payload == jobs[i].payload@,
        dead_views(jobs)[i].retries == jobs[i].retries,
        dead_views(jobs)[i].created_at == jobs[i].created_at,
{
}

/// A queue that holds nothing holds nothing at all.
pub proof fn law_empty_queue_holds_nothing()
    ensures
        QueueView::empty().jobs == Map::<u128, JobView>::empty(),
        QueueView::empty().ready.len() == 0,
        QueueView::empty().leases == Map::<u128, (u128, i64)>::empty(),
        QueueView::empty().dead.len() == 0,
{
}

} // verus!
