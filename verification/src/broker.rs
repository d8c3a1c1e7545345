//! What clients ask of the queue.
//!
//! Each request is worked out against the current queue into an answer or into
//! a record to propose; nothing changes until the record commits.
use crate::broker_laws;
use crate::clock;
use crate::clock::Timestamp;
use crate::ids;
use crate::protocol::{NodeView, Role};
use crate::raft::{Node, ProposeError};
use crate::state;
use crate::state::{
    DeadJobSpec, QueueState, QueueView, Record, RecordView, MAX_QUEUE_DEPTH,
    MAX_RETRIES,
};
use crate::text;
use vstd::prelude::*;

verus! {

// ----------------------------------------------------------------- rejections

/// The kind of a rejection.
#[derive(Clone, Copy, PartialEq, Eq, Debug, Structural)]
pub enum Code {
    InvalidArgument,
    NotFound,
    FailedPrecondition,
    ResourceExhausted,
    Unavailable,
    Internal,
}

/// Why a request was not served.
#[derive(Debug)]
pub struct Rejection {
    pub code: Code,
    pub message: String,
}

/// What a [`Rejection`] says.
pub struct RejectionView {
    pub code: Code,
    pub message: Seq<char>,
}

impl View for Rejection {
    type V = RejectionView;

    open spec fn view(&self) -> RejectionView {
        RejectionView { code: self.code, message: self.message@ }
    }
}

/// What a client hears of a proposal that came to nothing.
pub open spec fn propose_rejection(e: ProposeError) -> RejectionView {
    match e {
        ProposeError::NotLeader(Some(leader)) => RejectionView {
            code: Code::FailedPrecondition,
            message: "Not the leader; try "@ + ids::id_text(leader),
        },
        ProposeError::NotLeader(None) => RejectionView {
            code: Code::Unavailable,
            message: "No leader elected; retry shortly"@,
        },
        ProposeError::LostLeadership => RejectionView {
            code: Code::Unavailable,
            message: "Leadership changed before the write committed; retry"@,
        },
        ProposeError::Storage(e) => RejectionView {
            code: Code::Internal,
            message: "Log write failed: "@ + e@,
        },
    }
}

/// Tells a client of a proposal that came to nothing.
pub fn propose_error(e: ProposeError) -> (r: Rejection)
    ensures
        r@ == propose_rejection(e),
{
    match e {
        ProposeError::NotLeader(Some(leader)) => Rejection {
            code: Code::FailedPrecondition,
            message: text::prefixed("Not the leader; try ", ids::id_to_text(leader).as_str()),
        },
        ProposeError::NotLeader(None) => Rejection {
            code: Code::Unavailable,
            message: String::from_str("No leader elected; retry shortly"),
        },
        ProposeError::LostLeadership => Rejection {
            code: Code::Unavailable,
            message: String::from_str("Leadership changed before the write committed; retry"),
        },
        ProposeError::Storage(e) => Rejection {
            code: Code::Internal,
            message: text::prefixed("Log write failed: ", e.as_str()),
        },
    }
}

// -------------------------------------------------------------------- enqueue

/// What a producer hears when the queue is full.
pub open spec fn full(depth: nat) -> RejectionView {
    RejectionView {
        code: Code::ResourceExhausted,
        message: "Queue is full: "@ + text::decimal(depth) + " unacknowledged jobs (limit "@
            + text::decimal(MAX_QUEUE_DEPTH as nat) + ")"@,
    }
}

/// A job that was handed in: the answer to the producer, and the record that
/// commits it.
#[derive(Debug)]
pub struct Enqueue {
    pub job_id: String,
    pub record: Record,
}

/// Takes a job in under a given identifier, unless the queue is full.
pub fn enqueue_as(queue: &QueueState, payload: String, job_id: u128, created_at: i64) -> (r: Result<
    Enqueue,
    Rejection,
>)
    ensures
        queue@.jobs.len() >= MAX_QUEUE_DEPTH ==> r is Err && r->Err_0@ == full(queue@.jobs.len()),
        queue@.jobs.len() < MAX_QUEUE_DEPTH ==> {
            &&& r is Ok
            &&& r->Ok_0.job_id@ == ids::id_text(job_id)
            &&& r->Ok_0.record@ == (RecordView::Enqueued { job_id, payload: payload@, created_at })
        },
{
    let depth = queue.depth();
    if depth >= MAX_QUEUE_DEPTH {
        let mut message = text::prefixed(
            "Queue is full: ",
            text::decimal_text(depth as u64).as_str(),
        );
        message.append(" unacknowledged jobs (limit ");
        message.append(text::decimal_text(MAX_QUEUE_DEPTH as u64).as_str());
        message.append(")");
        return Err(Rejection { code: Code::ResourceExhausted, message });
    }
    Ok(
        Enqueue {
            job_id: ids::id_to_text(job_id),
            record: Record::Enqueued { job_id, payload, created_at },
        },
    )
}

/// Takes a job in under a random identifier, created now, unless the queue is
/// full.
pub fn enqueue(queue: &QueueState, payload: String) -> (r: Result<Enqueue, Rejection>)
    ensures
        queue@.jobs.len() >= MAX_QUEUE_DEPTH ==> r is Err && r->Err_0@ == full(queue@.jobs.len()),
        queue@.jobs.len() < MAX_QUEUE_DEPTH ==> {
            &&& r is Ok
            &&& r->Ok_0.record@ is Enqueued
            &&& r->Ok_0.record@->Enqueued_payload == payload@
            &&& 0 <= r->Ok_0.record@->Enqueued_created_at <= clock::MAX_MICROS
            &&& ids::id_version(r->Ok_0.record@->Enqueued_job_id) == 4
            &&& r->Ok_0.job_id@ == ids::id_text(r->Ok_0.record@->Enqueued_job_id)
            &&& exists|drawn: ids::RandomId| #[trigger]
                drawn.number() == r->Ok_0.record@->Enqueued_job_id
            &&& exists|reading: clock::Reading| #[trigger]
                reading.micros() == r->Ok_0.record@->Enqueued_created_at
            &&& exists|drawn: ids::RandomId, reading: clock::Reading| #[trigger]
                taken_in(payload@, drawn, reading, r->Ok_0.record@)
        },
{
    let drawn = ids::random_id();
    let reading = clock::now_micros();
    let ghost handed_in = payload@;
    let r = enqueue_as(queue, payload, drawn.value(), reading.value());
    proof {
        if r is Ok {
            assert(taken_in(handed_in, drawn, reading, r->Ok_0.record@));
        }
    }
    r
}

/// The record of a job that is taken in under an identifier that was drawn, at the
/// time of a reading.
pub open spec fn taken_in(
    payload: Seq<char>,
    drawn: ids::RandomId,
    reading: clock::Reading,
    record: RecordView,
) -> bool {
    record == (RecordView::Enqueued {
        job_id: drawn.number(),
        payload,
        created_at: reading.micros(),
    })
}

// -------------------------------------------------------------------- dequeue

/// When the lease of a job that has failed `retries` times ends, if it begins
/// `now`.
pub open spec fn lease_end(retries: i32, now: i64) -> int {
    now + state::backoff(retries) * 1_000_000
}

/// A job about to be handed out, and the record that commits its lease.
#[derive(Debug)]
pub struct Lease {
    pub job_id: u128,
    pub delivery_id: u128,
    pub record: Record,
}

/// What a consumer's request comes to.
#[derive(Debug)]
pub enum Dequeue {
    /// No job waits.
    Empty,
    Leased(Lease),
    /// The lease would end past the end of the calendar.
    OffCalendar,
}

/// The lease of the job that waits longest.
pub open spec fn lease_record(queue: QueueView, delivery_id: u128, now: i64) -> RecordView {
    let job_id = queue.ready[0];
    RecordView::Leased {
        job_id,
        delivery_id,
        visible_at: lease_end(queue.retries(job_id), now) as i64,
    }
}

/// Whether a lease that begins `now` ends on the calendar.
pub open spec fn lease_on_calendar(queue: QueueView, now: i64) -> bool {
    lease_end(queue.retries(queue.ready[0]), now) <= clock::MAX_MICROS
}

/// Leases the job that waits longest from `now` on, under a given identifier.
pub fn lease_as(queue: &QueueState, delivery_id: u128, now: i64) -> (r: Dequeue)
    requires
        clock::on_calendar(now),
    ensures
        queue@.ready.len() == 0 ==> r is Empty,
        queue@.ready.len() > 0 && !lease_on_calendar(queue@, now) ==> r is OffCalendar,
        queue@.ready.len() > 0 && lease_on_calendar(queue@, now) ==> {
            &&& r is Leased
            &&& r->Leased_0.job_id == queue@.ready[0]
            &&& r->Leased_0.delivery_id == delivery_id
            &&& r->Leased_0.record@ == lease_record(queue@, delivery_id, now)
        },
{
    let (job_id, retries) = match queue.peek_ready() {
        Some(next) => next,
        None => {
            return Dequeue::Empty;
        },
    };
    let lease: i64 = state::backoff_seconds(retries) * 1_000_000;
    if now > clock::MAX_MICROS - lease {
        return Dequeue::OffCalendar;
    }
    let visible_at: i64 = now + lease;
    Dequeue::Leased(
        Lease {
            job_id,
            delivery_id,
            record: Record::Leased { job_id, delivery_id, visible_at },
        },
    )
}

/// The record of the lease of the job that waits longest, under an identifier that
/// was drawn, from the time of a reading on.
pub open spec fn handed_out(
    queue: QueueView,
    drawn: ids::RandomId,
    reading: clock::Reading,
    record: RecordView,
) -> bool {
    &&& lease_on_calendar(queue, reading.micros())
    &&& record == lease_record(queue, drawn.number(), reading.micros())
}

/// Leases the job that waits longest from now on, under a random identifier.
pub fn dequeue(queue: &QueueState) -> (r: Dequeue)
    ensures
        r is Empty <==> queue@.ready.len() == 0,
        r is OffCalendar ==> exists|now: i64|
            0 <= now <= clock::MAX_MICROS && !#[trigger] lease_on_calendar(queue@, now),
        r is Leased ==> {
            &&& r->Leased_0.job_id == queue@.ready[0]
            &&& ids::id_version(r->Leased_0.delivery_id) == 4
            &&& exists|now: i64|
                0 <= now <= clock::MAX_MICROS && lease_on_calendar(queue@, now)
                    && r->Leased_0.record@ == #[trigger] lease_record(
                    queue@,
                    r->Leased_0.delivery_id,
                    now,
                )
        },
        r is OffCalendar ==> exists|reading: clock::Reading|
            !lease_on_calendar(queue@, #[trigger] reading.micros()),
        r is Leased ==> {
            &&& exists|drawn: ids::RandomId| #[trigger]
                drawn.number() == r->Leased_0.delivery_id
            &&& exists|reading: clock::Reading|
                r->Leased_0.record@ == lease_record(
                    queue@,
                    r->Leased_0.delivery_id,
                    #[trigger] reading.micros(),
                )
            &&& exists|drawn: ids::RandomId, reading: clock::Reading| #[trigger]
                handed_out(queue@, drawn, reading, r->Leased_0.record@)
        },
{
    let drawn = ids::random_id();
    let reading = clock::now_micros();
    let now = reading.value();
    let delivery_id = drawn.value();
    let r = lease_as(queue, delivery_id, now);
    assert(now == reading.micros() && delivery_id == drawn.number());
    assert(r is Leased ==> handed_out(queue@, drawn, reading, r->Leased_0.record@));
    assert(lease_record(queue@, delivery_id, now) == lease_record(queue@, delivery_id, now));
    assert(lease_on_calendar(queue@, now) == lease_on_calendar(queue@, now));
    r
}

/// A job handed out to a consumer.
#[derive(Debug)]
pub struct Delivery {
    pub job_id: String,
    pub delivery_id: String,
    pub payload: String,
    pub created_at: Timestamp,
}

/// Hands out a job once its lease is committed, unless it is gone by then.
pub fn deliver(queue: &QueueState, job_id: u128, delivery_id: u128) -> (r: Option<Delivery>)
    ensures
        match r {
            Some(delivery) => {
                &&& queue@.jobs.contains_key(job_id)
                &&& delivery.job_id@ == ids::id_text(job_id)
                &&& delivery.delivery_id@ == ids::id_text(delivery_id)
                &&& delivery.payload@ == queue@.jobs[job_id].payload
                &&& delivery.created_at == clock::timestamp_of(queue@.jobs[job_id].created_at)
            },
            None => !queue@.jobs.contains_key(job_id),
        },
{
    match queue.job_view(job_id) {
        Some((payload, created_at)) => Some(
            Delivery {
                job_id: ids::id_to_text(job_id),
                delivery_id: ids::id_to_text(delivery_id),
                payload,
                created_at: clock::timestamp(created_at),
            },
        ),
        None => None,
    }
}

// ------------------------------------------------------------------------ ack

/// What an acknowledgement of a delivery comes to.
pub open spec fn ack_outcome(queue: QueueView, delivery_id: Seq<char>) -> Result<
    RecordView,
    RejectionView,
> {
    match ids::id_of_text(delivery_id) {
        None => Err(
            RejectionView { code: Code::InvalidArgument, message: "Invalid delivery ID"@ },
        ),
        Some(delivery) => if queue.leases.contains_key(delivery) {
            Ok(RecordView::Acked { job_id: queue.leases[delivery].0, delivery_id: delivery })
        } else {
            Err(
                RejectionView {
                    code: Code::NotFound,
                    message: "No such delivery; it may have expired"@,
                },
            )
        },
    }
}

/// Acknowledges a delivery while its lease lasts.
pub fn ack(queue: &QueueState, delivery_id: &str) -> (r: Result<Record, Rejection>)
    ensures
        match ack_outcome(queue@, delivery_id@) {
            Ok(record) => r is Ok && r->Ok_0@ == record,
            Err(rejection) => r is Err && r->Err_0@ == rejection,
        },
        forall|delivery: u128|
            ids::id_of_text(delivery_id@) == Some(delivery) && #[trigger] queue@.leases.contains_key(
                delivery,
            ) ==> r is Ok && r->Ok_0@ == (RecordView::Acked {
                job_id: queue@.leases[delivery].0,
                delivery_id: delivery,
            }),
        r is Ok ==> r->Ok_0@ is Acked && queue@.leases.contains_key(
            r->Ok_0@->Acked_delivery_id,
        ) && ids::id_of_text(delivery_id@) == Some(r->Ok_0@->Acked_delivery_id),
{
    let delivery_id = match ids::parse_id(delivery_id) {
        Some(id) => id,
        None => {
            return Err(
                Rejection {
                    code: Code::InvalidArgument,
                    message: String::from_str("Invalid delivery ID"),
                },
            );
        },
    };
    match queue.job_of_delivery(delivery_id) {
        Some(job_id) => Ok(Record::Acked { job_id, delivery_id }),
        None => Err(
            Rejection {
                code: Code::NotFound,
                message: String::from_str("No such delivery; it may have expired"),
            },
        ),
    }
}

// -------------------------------------------------------------- dead letters

/// A job that was set aside, as an operator sees it.
#[derive(Debug)]
pub struct DeadJob {
    pub job_id: String,
    pub payload: String,
    pub retries: i32,
    pub created_at: Timestamp,
}

/// Whether an operator sees a job as it is.
pub open spec fn shows(shown: DeadJob, job: DeadJobSpec) -> bool {
    &&& shown.job_id@ == ids::id_text(job.job_id)
    &&& shown.payload@ == job.payload
    &&& shown.retries == job.retries
    &&& shown.created_at == clock::timestamp_of(job.created_at)
}

/// The jobs that were set aside, longest first.
pub fn list_dlq(queue: &QueueState) -> (r: Vec<DeadJob>)
    ensures
        r@.len() == queue@.dead_jobs().len(),
        forall|i: int| 0 <= i < r@.len() ==> shows(#[trigger] r@[i], queue@.dead_jobs()[i]),
        forall|i: int|
            0 <= i < queue@.dead.len() && queue@.jobs.contains_key(#[trigger] queue@.dead[i])
                ==> exists|k: int|
                0 <= k < r@.len() && (#[trigger] r@[k]).job_id@ == ids::id_text(queue@.dead[i])
                    && r@[k].payload@ == queue@.jobs[queue@.dead[i]].payload && r@[k].retries
                    == queue@.jobs[queue@.dead[i]].retries,
{
    let jobs = queue.dead_jobs();
    let ghost specs = queue@.dead_jobs();
    let mut listed: Vec<DeadJob> = Vec::new();
    let mut i: usize = 0;
    while i < jobs.len()
        invariant
            specs == queue@.dead_jobs(),
            state::dead_views(jobs@) == specs,
            i <= jobs@.len(),
            listed@.len() == i,
            forall|k: int| 0 <= k < i ==> shows(#[trigger] listed@[k], specs[k]),
        decreases jobs@.len() - i,
    {
        let job = &jobs[i];
        assert(state::dead_views(jobs@)[i as int] == jobs@[i as int]@);
        listed.push(
            DeadJob {
                job_id: ids::id_to_text(job.job_id),
                payload: job.payload.clone(),
                retries: job.retries,
                created_at: clock::timestamp(job.created_at),
            },
        );
        i = i + 1;
    }
    assert(state::dead_views(jobs@).len() == jobs@.len());
    proof {
        broker_laws::law_every_dead_letter_is_listed(queue@);
        assert forall|i: int|
            0 <= i < queue@.dead.len() && queue@.jobs.contains_key(
                #[trigger] queue@.dead[i],
            ) implies exists|k: int|
            0 <= k < listed@.len() && (#[trigger] listed@[k]).job_id@ == ids::id_text(
                queue@.dead[i],
            ) && listed@[k].payload@ == queue@.jobs[queue@.dead[i]].payload && listed@[k].retries
                == queue@.jobs[queue@.dead[i]].retries by {
            let k = choose|k: int|
                0 <= k < specs.len() && (#[trigger] specs[k]).job_id == queue@.dead[i];
            assert(shows(listed@[k], specs[k]));
        }
    }
    listed
}

/// Whether every text names an identifier.
pub open spec fn all_ids(texts: Seq<Seq<char>>) -> bool {
    forall|i: int| 0 <= i < texts.len() ==> ids::id_of_text(#[trigger] texts[i]) is Some
}

/// Whether one of the texts names `id`.
pub open spec fn names(texts: Seq<Seq<char>>, id: u128) -> bool {
    exists|i: int| 0 <= i < texts.len() && ids::id_of_text(#[trigger] texts[i]) == Some(id)
}

/// Tells the jobs that were asked for, every one if none was named.
pub open spec fn asked_for(texts: Seq<Seq<char>>) -> spec_fn(u128) -> bool {
    |id: u128| texts.len() == 0 || names(texts, id)
}

/// A job about to be returned to the queue: the answer to the operator, and the
/// record that commits it.
#[derive(Debug)]
pub struct Redrive {
    pub job_id: String,
    pub record: Record,
}

/// Reads identifiers, none if one of the texts does not name one.
fn parse_ids(texts: &Vec<String>) -> (r: Option<Vec<u128>>)
    ensures
        match r {
            Some(parsed) => {
                &&& all_ids(text::contents(texts@))
                &&& parsed@.len() == texts@.len()
                &&& forall|i: int|
                    0 <= i < parsed@.len() ==> ids::id_of_text(text::contents(texts@)[i]) == Some(
                        #[trigger] parsed@[i],
                    )
            },
            None => !all_ids(text::contents(texts@)),
        },
{
    let ghost views = text::contents(texts@);
    let mut parsed: Vec<u128> = Vec::new();
    let mut i: usize = 0;
    while i < texts.len()
        invariant
            views == text::contents(texts@),
            i <= texts@.len(),
            parsed@.len() == i,
            forall|k: int| 0 <= k < i ==> ids::id_of_text(views[k]) == Some(#[trigger] parsed@[k]),
        decreases texts@.len() - i,
    {
        assert(views[i as int] == texts@[i as int]@);
        match ids::parse_id(texts[i].as_str()) {
            Some(id) => {
                parsed.push(id);
            },
            None => {
                return None;
            },
        }
        i = i + 1;
    }
    assert forall|k: int| 0 <= k < views.len() implies ids::id_of_text(
        #[trigger] views[k],
    ) is Some by {
        assert(ids::id_of_text(views[k]) == Some(parsed@[k]));
    }
    Some(parsed)
}

/// Whether `id` is among the identifiers.
fn is_among(parsed: &Vec<u128>, id: u128) -> (r: bool)
    ensures
        r == parsed@.contains(id),
{
    let mut i: usize = 0;
    while i < parsed.len()
        invariant
            i <= parsed@.len(),
            forall|k: int| 0 <= k < i ==> #[trigger] parsed@[k] != id,
        decreases parsed@.len() - i,
    {
        if parsed[i] == id {
            assert(parsed@[i as int] == id);
            return true;
        }
        i = i + 1;
    }
    false
}

/// The jobs set aside that an operator wants back, longest first: those named,
/// or every one if none is. They are to be proposed one after the other, up to
/// the first that does not commit.
pub fn redrive_dlq(queue: &QueueState, job_ids: &Vec<String>) -> (r: Result<Vec<Redrive>, Rejection>)
    ensures
        !all_ids(text::contents(job_ids@)) ==> r is Err && r->Err_0@ == (RejectionView {
            code: Code::InvalidArgument,
            message: "Invalid job ID"@,
        }),
        all_ids(text::contents(job_ids@)) ==> {
            let targets = queue@.dead.filter(asked_for(text::contents(job_ids@)));
            &&& r is Ok
            &&& r->Ok_0@.len() == targets.len()
            &&& forall|i: int|
                0 <= i < targets.len() ==> {
                    &&& (#[trigger] r->Ok_0@[i]).job_id@ == ids::id_text(targets[i])
                    &&& r->Ok_0@[i].record@ == (RecordView::Redriven { job_id: targets[i] })
                }
        },
        r is Ok <==> forall|i: int|
            0 <= i < job_ids@.len() ==> ids::id_of_text((#[trigger] job_ids@[i])@) is Some,
        r is Ok ==> forall|j: int|
            0 <= j < queue@.dead.len() && (job_ids@.len() == 0 || exists|i: int|
                0 <= i < job_ids@.len() && ids::id_of_text((#[trigger] job_ids@[i])@) == Some(
                    queue@.dead[j],
                )) ==> exists|k: int|
                0 <= k < r->Ok_0@.len() && (#[trigger] r->Ok_0@[k]).record@
                    == (RecordView::Redriven { job_id: #[trigger] queue@.dead[j] })
                    && r->Ok_0@[k].job_id@ == ids::id_text(queue@.dead[j]),
{
    let ghost texts = text::contents(job_ids@);
    let ghost wanted = asked_for(texts);
    let requested = match parse_ids(job_ids) {
        Some(requested) => requested,
        None => {
            proof {
                let n = choose|n: int|
                    0 <= n < texts.len() && ids::id_of_text(#[trigger] texts[n]) is None;
                assert(texts[n] == job_ids@[n]@);
            }
            return Err(
                Rejection {
                    code: Code::InvalidArgument,
                    message: String::from_str("Invalid job ID"),
                },
            );
        },
    };
    let dead = queue.dead_ids();
    let mut redrives: Vec<Redrive> = Vec::new();
    let mut i: usize = 0;
    proof {
        reveal(Seq::filter);
        assert(dead@.take(0).filter(wanted) =~= Seq::empty());
    }
    while i < dead.len()
        invariant
            texts == text::contents(job_ids@),
            wanted == asked_for(texts),
            dead@ == queue@.dead,
            requested@.len() == texts.len(),
            forall|k: int|
                0 <= k < requested@.len() ==> ids::id_of_text(texts[k]) == Some(
                    #[trigger] requested@[k],
                ),
            i <= dead@.len(),
            redrives@.len() == dead@.take(i as int).filter(wanted).len(),
            forall|k: int|
                0 <= k < redrives@.len() ==> {
                    &&& (#[trigger] redrives@[k]).job_id@ == ids::id_text(
                        dead@.take(i as int).filter(wanted)[k],
                    )
                    &&& redrives@[k].record@ == (RecordView::Redriven {
                        job_id: dead@.take(i as int).filter(wanted)[k],
                    })
                },
        decreases dead@.len() - i,
    {
        let id = dead[i];
        let chosen = requested.len() == 0 || is_among(&requested, id);
        proof {
            reveal(Seq::filter);
            assert(dead@.take(i + 1).drop_last() =~= dead@.take(i as int));
            assert(chosen == wanted(id)) by {
                if requested@.contains(id) {
                    let k = requested@.index_of(id);
                    assert(ids::id_of_text(texts[k]) == Some(id));
                }
                if names(texts, id) {
                    let k = choose|k: int|
                        0 <= k < texts.len() && ids::id_of_text(#[trigger] texts[k]) == Some(id);
                    assert(requested@[k] == id);
                }
            }
        }
        if chosen {
            redrives.push(
                Redrive { job_id: ids::id_to_text(id), record: Record::Redriven { job_id: id } },
            );
        }
        i = i + 1;
    }
    assert(dead@.take(i as int) =~= dead@);
    proof {
        assert forall|j: int|
            0 <= j < dead@.len() && (job_ids@.len() == 0 || exists|i: int|
                0 <= i < job_ids@.len() && ids::id_of_text((#[trigger] job_ids@[i])@) == Some(
                    dead@[j],
                )) implies exists|k: int|
            0 <= k < redrives@.len() && (#[trigger] redrives@[k]).record@
                == (RecordView::Redriven { job_id: #[trigger] dead@[j] })
                && redrives@[k].job_id@ == ids::id_text(dead@[j]) by {
            let id = dead@[j];
            if job_ids@.len() > 0 {
                let n = choose|n: int|
                    0 <= n < job_ids@.len() && ids::id_of_text((#[trigger] job_ids@[n])@) == Some(
                        id,
                    );
                assert(ids::id_of_text(texts[n]) == Some(id));
            }
            broker_laws::law_redrive_takes_every_job_that_is_named(dead@, texts, id);
            let k = dead@.filter(wanted).index_of(id);
            assert(redrives@[k].record@ == (RecordView::Redriven { job_id: id }));
        }
        assert forall|n: int| 0 <= n < job_ids@.len() implies ids::id_of_text(
            (#[trigger] job_ids@[n])@,
        ) is Some by {
            assert(ids::id_of_text(texts[n]) is Some);
        }
    }
    Ok(redrives)
}

// --------------------------------------------------------------------- expiry

/// The record that settles a delivery whose lease has run out: the job is given
/// up at its last permitted failure, and made available again before that.
pub open spec fn expiry_record(queue: QueueView, delivery_id: u128) -> RecordView {
    let job_id = queue.leases[delivery_id].0;
    if queue.retries(job_id) + 1 >= MAX_RETRIES {
        RecordView::DeadLettered { job_id, delivery_id }
    } else {
        RecordView::Retried { job_id, delivery_id }
    }
}

/// Settles the lease that ends first, if it has run out by `now`.
pub fn expire(queue: &QueueState, now: i64) -> (r: Option<Record>)
    requires
        queue.wf(),
    ensures
        match r {
            Some(record) => settles_first(queue@, now, record@),
            None => none_ended(queue@, now),
        },
{
    let (job_id, delivery_id) = match queue.peek_expired(now) {
        Some(expired) => expired,
        None => {
            return None;
        },
    };
    let retries: i32 = match queue.retries_of(job_id) {
        Some(retries) => retries,
        None => 0,
    };
    if retries >= MAX_RETRIES - 1 {
        Some(Record::DeadLettered { job_id, delivery_id })
    } else {
        Some(Record::Retried { job_id, delivery_id })
    }
}

/// One step of the sweep: what a leader proposes next for the leases that have
/// run out by now. A member that does not lead proposes nothing.
pub fn sweep_expired_leases(node: &Node) -> (r: Option<Record>)
    requires
        node.wf(),
    ensures
        node@.role != Role::Leader ==> r is None,
        node@.state.leases.len() == 0 && node@.state.leases.dom().finite() ==> r is None,
        match r {
            Some(record) => exists|now: i64|
                0 <= now <= clock::MAX_MICROS && #[trigger] settles_first(
                    node@.state,
                    now,
                    record@,
                ),
            None => node@.role == Role::Leader ==> exists|now: i64|
                0 <= now <= clock::MAX_MICROS && #[trigger] none_ended(node@.state, now),
        },
        match r {
            Some(record) => exists|reading: clock::Reading|
                settles_first(node@.state, #[trigger] reading.micros(), record@),
            None => node@.role == Role::Leader ==> exists|
                reading: clock::Reading,
            | none_ended(node@.state, #[trigger] reading.micros()),
        },
        r is None && node@.role == Role::Leader ==> exists|
            reading: clock::Reading,
        |
            #![trigger reading.micros()]
            forall|d: u128| #[trigger]
                node@.state.leases.contains_key(d) ==> reading.micros() < node@.state.leases[d].1,
        r is Some ==> exists|reading: clock::Reading| #[trigger]
            swept(node@, reading, Some(r.unwrap()@)),
        r is None && node@.role == Role::Leader ==> exists|reading: clock::Reading| #[trigger]
            swept(node@, reading, None),
{
    if !node.is_leader() {
        return None;
    }
    let reading = clock::now_micros();
    let now = reading.value();
    assert(now == reading.micros());
    let r = expire(node.state(), now);
    assert(match r {
        Some(record) => settles_first(node@.state, now, record@),
        None => none_ended(node@.state, now),
    });
    assert(r is Some ==> swept(node@, reading, Some(r.unwrap()@)));
    assert(r is None ==> swept(node@, reading, None));
    r
}

/// What a sweep at the time of a reading comes to: a leader settles the lease that
/// ends first if it has run out, and whoever does not lead settles nothing.
pub open spec fn swept(
    node: NodeView,
    reading: clock::Reading,
    settled: Option<RecordView>,
) -> bool {
    match settled {
        Some(record) => node.role == Role::Leader && settles_first(
            node.state,
            reading.micros(),
            record,
        ),
        None => node.role == Role::Leader ==> none_ended(node.state, reading.micros()),
    }
}

/// Whether a record settles the lease that ends first, which has run out by
/// `now`.
pub open spec fn settles_first(queue: QueueView, now: i64, record: RecordView) -> bool {
    exists|d: u128| #[trigger]
        state::ends_first(queue.leases, d) && queue.leases[d].1 <= now && record == expiry_record(
            queue,
            d,
        )
}

/// Whether no lease has run out by `now`.
pub open spec fn none_ended(queue: QueueView, now: i64) -> bool {
    forall|d: u128| #[trigger] queue.leases.contains_key(d) ==> queue.leases[d].1 > now
}

} // verus!
