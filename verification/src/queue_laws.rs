//! What the queue promises about jobs.
use crate::broker;
use crate::clock;
use crate::job::{JobState, JobView};
use crate::state;
use crate::state::{QueueView, RecordView};
use vstd::arithmetic::power2::*;
use vstd::prelude::*;

verus! {

// --------------------------------------------------------------------- replay

/// Replay goes on where it stopped: applying records in two parts leads where
/// applying all of them leads.
pub proof fn law_replay_goes_on_where_it_stopped(
    queue: QueueView,
    first: Seq<RecordView>,
    second: Seq<RecordView>,
)
    ensures
        queue.apply_all(first + second) == queue.apply_all(first).apply_all(second),
    decreases second.len(),
{
    if second.len() == 0 {
        assert(first + second =~= first);
    } else {
        law_replay_goes_on_where_it_stopped(queue, first, second.drop_last());
        assert((first + second).drop_last() =~= first + second.drop_last());
        assert((first + second).last() == second.last());
    }
}

// ------------------------------------------------------------- jobs and queues

/// What `without` keeps and what it drops.
pub proof fn lemma_without(s: Seq<u128>, id: u128)
    ensures
        !state::without(s, id).contains(id),
        forall|other: u128|
            other != id ==> (#[trigger] state::without(s, id).contains(other) <==> s.contains(
                other,
            )),
{
    let kept = state::without(s, id);
    let others = state::other_than(id);
    assert forall|other: u128| other != id implies (#[trigger] kept.contains(other)
        <==> s.contains(other)) by {
        if s.contains(other) {
            let i = s.index_of(other);
            s.lemma_filter_contains(others, i);
        }
        if kept.contains(other) {
            s.lemma_filter_contains_rev(others, other);
        }
    }
    if kept.contains(id) {
        let i = kept.index_of(id);
        s.lemma_filter_pred(others, i);
    }
}

/// A job leaves the queue only when it is acknowledged; until then it keeps
/// what the client handed in, unless it is handed in anew.
pub proof fn law_only_an_ack_removes_a_job(queue: QueueView, record: RecordView, id: u128)
    requires
        queue.jobs.contains_key(id),
    ensures
        ({
            let next = queue.apply(record);
            let acked = record is Acked && record->Acked_job_id == id;
            let anew = record is Enqueued && record->Enqueued_job_id == id;
            &&& next.jobs.contains_key(id) <==> !acked
            &&& !acked && !anew ==> {
                &&& next.jobs[id].id == queue.jobs[id].id
                &&& next.jobs[id].payload == queue.jobs[id].payload
                &&& next.jobs[id].created_at == queue.jobs[id].created_at
            }
        }),
{
}

/// A job that is handed in waits at the back of the queue, with no failure
/// counted.
pub proof fn law_enqueued_job_waits(
    queue: QueueView,
    id: u128,
    payload: Seq<char>,
    created_at: i64,
)
    ensures
        ({
            let next = queue.apply(RecordView::Enqueued { job_id: id, payload, created_at });
            &&& next.jobs.contains_key(id)
            &&& next.jobs[id] == JobView::fresh(id, payload, created_at)
            &&& next.ready == queue.ready.push(id)
            &&& next.leases == queue.leases
            &&& next.dead == queue.dead
        }),
{
}

/// A job under lease is hidden from other consumers and counts as in flight.
pub proof fn law_leased_job_is_hidden(
    queue: QueueView,
    id: u128,
    delivery: u128,
    visible_at: i64,
)
    requires
        clock::on_calendar(visible_at),
    ensures
        ({
            let next = queue.apply(
                RecordView::Leased { job_id: id, delivery_id: delivery, visible_at },
            );
            &&& !next.ready.contains(id)
            &&& forall|other: u128|
                other != id ==> (#[trigger] next.ready.contains(other) <==> queue.ready.contains(
                    other,
                ))
            &&& next.leases.contains_key(delivery)
            &&& next.leases[delivery] == (id, visible_at)
            &&& queue.jobs.contains_key(id) ==> next.jobs[id].state == JobState::INFLIGHT
                && next.jobs[id].retries == queue.jobs[id].retries
        }),
{
    lemma_without(queue.ready, id);
}

/// A delivery stays under its lease until it is acknowledged, retried or given
/// up, or its identifier is used for another lease.
pub proof fn law_lease_lasts_until_it_is_settled(
    queue: QueueView,
    record: RecordView,
    delivery: u128,
)
    requires
        queue.leases.contains_key(delivery),
        record is Leased ==> record->Leased_delivery_id != delivery,
        record is Acked ==> record->Acked_delivery_id != delivery,
        record is Retried ==> record->Retried_delivery_id != delivery,
        record is DeadLettered ==> record->DeadLettered_delivery_id != delivery,
    ensures
        queue.apply(record).leases.contains_key(delivery),
        queue.apply(record).leases[delivery] == queue.leases[delivery],
{
}

/// An acknowledged job is gone: it is no longer held, waits for nobody, and the
/// delivery is no longer under lease.
pub proof fn law_acked_job_is_gone(queue: QueueView, id: u128, delivery: u128)
    ensures
        ({
            let next = queue.apply(RecordView::Acked { job_id: id, delivery_id: delivery });
            &&& !next.jobs.contains_key(id)
            &&& !next.ready.contains(id)
            &&& !next.leases.contains_key(delivery)
        }),
{
    lemma_without(queue.ready, id);
}

/// A job whose lease has run out is available again, at the back of the queue,
/// with one more failure counted.
pub proof fn law_expired_lease_makes_the_job_available(
    queue: QueueView,
    id: u128,
    delivery: u128,
)
    requires
        queue.jobs.contains_key(id),
        queue.jobs[id].retries < i32::MAX,
    ensures
        ({
            let next = queue.apply(RecordView::Retried { job_id: id, delivery_id: delivery });
            &&& next.ready == queue.ready.push(id)
            &&& !next.leases.contains_key(delivery)
            &&& next.jobs[id] == (JobView {
                state: JobState::READY,
                retries: (queue.jobs[id].retries + 1) as i32,
                ..queue.jobs[id]
            })
        }),
{
}

/// A job that is given up is set aside, with one more failure counted, and is
/// not available.
pub proof fn law_dead_lettered_job_is_set_aside(queue: QueueView, id: u128, delivery: u128)
    requires
        queue.jobs.contains_key(id),
        queue.jobs[id].retries < i32::MAX,
    ensures
        ({
            let next = queue.apply(RecordView::DeadLettered { job_id: id, delivery_id: delivery });
            &&& next.dead == queue.dead.push(id)
            &&& next.ready == queue.ready
            &&& !next.leases.contains_key(delivery)
            &&& next.jobs[id] == (JobView {
                state: JobState::DLQ,
                retries: (queue.jobs[id].retries + 1) as i32,
                ..queue.jobs[id]
            })
        }),
{
}

/// A job that an operator returns is available again as if it had never failed,
/// and no longer set aside.
pub proof fn law_redriven_job_starts_afresh(queue: QueueView, id: u128)
    requires
        queue.jobs.contains_key(id),
    ensures
        ({
            let next = queue.apply(RecordView::Redriven { job_id: id });
            &&& next.ready == queue.ready.push(id)
            &&& !next.dead.contains(id)
            &&& next.jobs[id] == (JobView { state: JobState::READY, retries: 0, ..queue.jobs[id] })
        }),
{
    lemma_without(queue.dead, id);
}

/// Whether a job waits, is under lease or is set aside.
pub open spec fn accounted_for(queue: QueueView, id: u128) -> bool {
    ||| queue.ready.contains(id)
    ||| queue.dead.contains(id)
    ||| exists|d: u128| #[trigger] queue.leases.contains_key(d) && queue.leases[d].0 == id
}

/// Whether every job that is held waits, is under lease or is set aside.
pub open spec fn nothing_lost(queue: QueueView) -> bool {
    forall|id: u128| #[trigger] queue.jobs.contains_key(id) ==> accounted_for(queue, id)
}

/// Whether a record speaks of deliveries as the queue knows them: a lease is
/// for a delivery that is not under lease yet, and a delivery that is settled
/// is, if it is under lease, one of the job that the record names.
pub open spec fn speaks_of_own_delivery(queue: QueueView, record: RecordView) -> bool {
    match record {
        RecordView::Leased { delivery_id, .. } => !queue.leases.contains_key(delivery_id),
        RecordView::Acked { job_id, delivery_id } => queue.leases.contains_key(delivery_id)
            ==> queue.leases[delivery_id].0 == job_id,
        RecordView::Retried { job_id, delivery_id } => queue.leases.contains_key(delivery_id)
            ==> queue.leases[delivery_id].0 == job_id,
        RecordView::DeadLettered { job_id, delivery_id } => queue.leases.contains_key(delivery_id)
            ==> queue.leases[delivery_id].0 == job_id,
        _ => true,
    }
}

/// Nothing is lost: a queue in which every job waits, is under lease or is set
/// aside stays one.
pub proof fn law_nothing_is_lost(queue: QueueView, record: RecordView)
    requires
        nothing_lost(queue),
        speaks_of_own_delivery(queue, record),
    ensures
        nothing_lost(queue.apply(record)),
{
    let next = queue.apply(record);
    let named = match record {
        RecordView::Enqueued { job_id, .. } => job_id,
        RecordView::Leased { job_id, .. } => job_id,
        RecordView::Acked { job_id, .. } => job_id,
        RecordView::Retried { job_id, .. } => job_id,
        RecordView::DeadLettered { job_id, .. } => job_id,
        RecordView::Redriven { job_id } => job_id,
    };
    lemma_without(queue.ready, named);
    lemma_without(queue.dead, named);
    assert forall|id: u128| #[trigger] next.jobs.contains_key(id) implies accounted_for(
        next,
        id,
    ) by {
        if id != named || queue.apply(record) == queue {
            assert(queue.jobs.contains_key(id));
            if queue.ready.contains(id) {
                lemma_push_keeps(queue.ready, named, id);
            } else if queue.dead.contains(id) {
                lemma_push_keeps(queue.dead, named, id);
            } else {
                let d = choose|d: u128| #[trigger]
                    queue.leases.contains_key(d) && queue.leases[d].0 == id;
                assert(next.leases.contains_key(d) && next.leases[d].0 == id);
            }
        } else {
            match record {
                RecordView::Leased { delivery_id, .. } => {
                    assert(next.leases.contains_key(delivery_id));
                },
                RecordView::DeadLettered { .. } => {
                    assert(next.dead[queue.dead.len() as int] == named);
                },
                _ => {
                    assert(next.ready[queue.ready.len() as int] == named);
                },
            }
        }
    }
}

proof fn lemma_push_keeps(s: Seq<u128>, added: u128, id: u128)
    requires
        s.contains(id),
    ensures
        s.push(added).contains(id),
{
    let i = s.index_of(id);
    assert(s.push(added)[i] == id);
}

// -------------------------------------------------------------------- backoff

/// Each failure doubles the lease until it reaches the ceiling.
pub proof fn law_lease_doubles_up_to_the_ceiling(retries: i32)
    requires
        0 <= retries < i32::MAX,
    ensures
        state::backoff((retries + 1) as i32) == (if 2 * state::backoff(retries)
            < state::MAX_BACKOFF_S {
            2 * state::backoff(retries)
        } else {
            state::MAX_BACKOFF_S as int
        }),
        state::VISIBILITY_S <= state::backoff(retries) <= state::MAX_BACKOFF_S,
{
    lemma_pow2_pos(state::doublings(retries));
    if retries < 16 {
        lemma_pow2_unfold((retries + 1) as nat);
    } else {
        lemma2_to64();
    }
}

// ----------------------------------------------------------------- the broker

/// Every delivery that runs out counts: the record that settles it adds one
/// failure, and the job is set aside exactly when that is the last one
/// permitted.
pub proof fn law_last_failure_sets_the_job_aside(queue: QueueView, delivery: u128)
    requires
        queue.leases.contains_key(delivery),
        queue.jobs.contains_key(queue.leases[delivery].0),
        0 <= queue.retries(queue.leases[delivery].0) < state::MAX_RETRIES,
    ensures
        ({
            let id = queue.leases[delivery].0;
            let record = broker::expiry_record(queue, delivery);
            let next = queue.apply(record);
            &&& next.jobs[id].retries == queue.jobs[id].retries + 1
            &&& next.jobs[id].retries <= state::MAX_RETRIES
            &&& record is DeadLettered <==> next.jobs[id].retries == state::MAX_RETRIES
            &&& record is DeadLettered ==> next.dead == queue.dead.push(id) && next.ready
                == queue.ready
            &&& record is Retried ==> next.ready == queue.ready.push(id) && next.dead
                == queue.dead
            &&& !next.leases.contains_key(delivery)
        }),
{
}

/// Whether nothing is known of a job.
pub open spec fn unknown(queue: QueueView, id: u128) -> bool {
    &&& !queue.ready.contains(id)
    &&& !queue.dead.contains(id)
    &&& forall|d: u128| #[trigger] queue.leases.contains_key(d) ==> queue.leases[d].0 != id
}

/// Whether a job waits to be delivered, after `n` deliveries that failed.
pub open spec fn waits(queue: QueueView, id: u128, n: int) -> bool {
    &&& queue.jobs.contains_key(id)
    &&& queue.jobs[id].retries == n < state::MAX_RETRIES
    &&& queue.ready.contains(id)
    &&& !queue.dead.contains(id)
    &&& forall|d: u128| #[trigger] queue.leases.contains_key(d) ==> queue.leases[d].0 != id
}

/// Whether the `n`th delivery of a job is under lease, and no other.
pub open spec fn is_out(queue: QueueView, id: u128, n: int) -> bool {
    &&& queue.jobs.contains_key(id)
    &&& queue.jobs[id].retries + 1 == n <= state::MAX_RETRIES
    &&& !queue.ready.contains(id)
    &&& !queue.dead.contains(id)
    &&& exists|d: u128| #[trigger] queue.leases.contains_key(d) && queue.leases[d].0 == id
    &&& forall|d: u128, e: u128|
        #![trigger queue.leases.contains_key(d), queue.leases.contains_key(e)]
        queue.leases.contains_key(d) && queue.leases.contains_key(e) && queue.leases[d].0 == id
            && queue.leases[e].0 == id ==> d == e
}

/// Whether a job is set aside for good, after `n` deliveries that failed.
pub open spec fn is_aside(queue: QueueView, id: u128, n: int) -> bool {
    &&& queue.jobs.contains_key(id)
    &&& queue.jobs[id].retries == n == state::MAX_RETRIES
    &&& !queue.ready.contains(id)
    &&& queue.dead.contains(id)
    &&& forall|d: u128| #[trigger] queue.leases.contains_key(d) ==> queue.leases[d].0 != id
}

/// Whether a record leaves a job to be delivered, with no client acknowledging it
/// and no operator returning it: deliveries get identifiers that are not in use,
/// a job is delivered while it waits, and a delivery of this job ends by its
/// lease running out.
pub open spec fn leaves_unacknowledged(queue: QueueView, record: RecordView, id: u128) -> bool {
    match record {
        RecordView::Enqueued { job_id, .. } => job_id != id,
        RecordView::Leased { job_id, delivery_id, visible_at } => {
            &&& clock::on_calendar(visible_at)
            &&& !queue.leases.contains_key(delivery_id)
            &&& queue.ready.contains(job_id)
        },
        RecordView::Acked { job_id, delivery_id } => {
            &&& job_id != id
            &&& queue.leases.contains_key(delivery_id) ==> queue.leases[delivery_id].0 != id
        },
        RecordView::Retried { job_id, delivery_id } => {
            &&& queue.leases.contains_key(delivery_id)
            &&& queue.leases[delivery_id].0 == job_id
            &&& job_id == id ==> record == broker::expiry_record(queue, delivery_id)
        },
        RecordView::DeadLettered { job_id, delivery_id } => {
            &&& queue.leases.contains_key(delivery_id)
            &&& queue.leases[delivery_id].0 == job_id
            &&& job_id == id ==> record == broker::expiry_record(queue, delivery_id)
        },
        RecordView::Redriven { job_id } => job_id != id,
    }
}

/// Whether all of some records, applied in order, leave a job to be delivered.
pub open spec fn all_leave_unacknowledged(
    queue: QueueView,
    records: Seq<RecordView>,
    id: u128,
) -> bool
    decreases records.len(),
{
    records.len() == 0 || (all_leave_unacknowledged(queue, records.drop_last(), id)
        && leaves_unacknowledged(
        queue.apply_all(records.drop_last()),
        records.last(),
        id,
    ))
}

/// How many of some records are deliveries of a job.
pub open spec fn deliveries(records: Seq<RecordView>, id: u128) -> int
    decreases records.len(),
{
    if records.len() == 0 {
        0
    } else {
        deliveries(records.drop_last(), id) + if records.last() is Leased
            && records.last()->Leased_job_id == id {
            1int
        } else {
            0
        }
    }
}

proof fn lemma_delivered(queue: QueueView, record: RecordView, id: u128, n: int)
    requires
        waits(queue, id, n) || is_out(queue, id, n) || is_aside(queue, id, n),
        leaves_unacknowledged(queue, record, id),
    ensures
        ({
            let next = queue.apply(record);
            let m = deliveries(seq![record], id) + n;
            waits(next, id, m) || is_out(next, id, m) || is_aside(next, id, m)
        }),
{
    let next = queue.apply(record);
    let named = match record {
        RecordView::Enqueued { job_id, .. } => job_id,
        RecordView::Leased { job_id, .. } => job_id,
        RecordView::Acked { job_id, .. } => job_id,
        RecordView::Retried { job_id, .. } => job_id,
        RecordView::DeadLettered { job_id, .. } => job_id,
        RecordView::Redriven { job_id } => job_id,
    };
    reveal_with_fuel(deliveries, 2);
    assert(seq![record].drop_last() =~= Seq::empty());
    lemma_without(queue.ready, named);
    lemma_without(queue.dead, named);
    lemma_push_adds(queue.ready, named, id);
    lemma_push_adds(queue.dead, named, id);
    if named == id {
        match record {
            RecordView::Leased { delivery_id, .. } => {
                assert(next.leases.contains_key(delivery_id));
                assert(is_out(next, id, n + 1));
            },
            RecordView::Retried { delivery_id, .. } => {
                assert(is_out(queue, id, n));
                assert(waits(next, id, n));
            },
            RecordView::DeadLettered { delivery_id, .. } => {
                assert(is_out(queue, id, n));
                assert(is_aside(next, id, n));
            },
            _ => {},
        }
    } else if is_out(queue, id, n) {
        let d = choose|d: u128| #[trigger]
            queue.leases.contains_key(d) && queue.leases[d].0 == id;
        assert(next.leases.contains_key(d) && next.leases[d].0 == id);
        assert forall|d: u128, e: u128|
            #![trigger next.leases.contains_key(d), next.leases.contains_key(e)]
            next.leases.contains_key(d) && next.leases.contains_key(e) && next.leases[d].0 == id
                && next.leases[e].0 == id implies d == e by {
            assert(queue.leases.contains_key(d) && queue.leases.contains_key(e));
        }
        assert(is_out(next, id, n));
    } else if waits(queue, id, n) {
        assert(waits(next, id, n));
    } else {
        assert(is_aside(next, id, n));
    }
}

proof fn lemma_push_adds(s: Seq<u128>, added: u128, id: u128)
    ensures
        s.push(added).contains(id) <==> s.contains(id) || added == id,
{
    if s.contains(id) {
        lemma_push_keeps(s, added, id);
    }
    if added == id {
        assert(s.push(added)[s.len() as int] == id);
    }
    if s.push(added).contains(id) && added != id {
        let i = s.push(added).index_of(id);
        assert(s[i] == id);
    }
}

/// A job that nobody acknowledges is delivered as often as is permitted and is
/// then set aside: it waits or is under one lease until the last permitted
/// delivery, is set aside as soon as that one runs out, and is not delivered
/// again.
pub proof fn law_unacknowledged_job_is_delivered_until_it_is_set_aside(
    queue: QueueView,
    id: u128,
    payload: Seq<char>,
    created_at: i64,
    records: Seq<RecordView>,
)
    requires
        unknown(queue, id),
        all_leave_unacknowledged(
            queue.apply(RecordView::Enqueued { job_id: id, payload, created_at }),
            records,
            id,
        ),
    ensures
        ({
            let end = queue.apply(
                RecordView::Enqueued { job_id: id, payload, created_at },
            ).apply_all(records);
            let n = deliveries(records, id);
            &&& waits(end, id, n) || is_out(end, id, n) || is_aside(end, id, n)
            &&& 0 <= n <= state::MAX_RETRIES
            &&& end.dead.contains(id) ==> n == state::MAX_RETRIES
            &&& n == state::MAX_RETRIES ==> !end.ready.contains(id)
            &&& n == state::MAX_RETRIES && (forall|d: u128| #[trigger]
                end.leases.contains_key(d) ==> end.leases[d].0 != id) ==> end.dead.contains(id)
        }),
    decreases records.len(),
{
    let enqueued = RecordView::Enqueued { job_id: id, payload, created_at };
    let start = queue.apply(enqueued);
    if records.len() == 0 {
        lemma_push_adds(queue.ready, id, id);
        assert(waits(start, id, 0));
    } else {
        let before = records.drop_last();
        law_unacknowledged_job_is_delivered_until_it_is_set_aside(
            queue,
            id,
            payload,
            created_at,
            before,
        );
        let n = deliveries(before, id);
        lemma_delivered(start.apply_all(before), records.last(), id, n);
        reveal_with_fuel(deliveries, 2);
        assert(seq![records.last()].drop_last() =~= Seq::empty());
    }
}

/// What the broker proposes loses nothing: records that settle a lease that ran
/// out or was acknowledged name its job, and so keep every job accounted for.
pub proof fn law_broker_loses_nothing(
    queue: QueueView,
    delivery: u128,
    now: i64,
    text: Seq<char>,
)
    requires
        nothing_lost(queue),
    ensures
        queue.leases.contains_key(delivery) ==> nothing_lost(
            queue.apply(broker::expiry_record(queue, delivery)),
        ),
        queue.ready.len() > 0 && !queue.leases.contains_key(delivery) ==> nothing_lost(
            queue.apply(broker::lease_record(queue, delivery, now)),
        ),
        broker::ack_outcome(queue, text) is Ok ==> nothing_lost(
            queue.apply(broker::ack_outcome(queue, text)->Ok_0),
        ),
{
    if queue.leases.contains_key(delivery) {
        law_nothing_is_lost(queue, broker::expiry_record(queue, delivery));
    } else if queue.ready.len() > 0 {
        law_nothing_is_lost(queue, broker::lease_record(queue, delivery, now));
    }
    if broker::ack_outcome(queue, text) is Ok {
        law_nothing_is_lost(queue, broker::ack_outcome(queue, text)->Ok_0);
    }
}

/// Backpressure holds the queue to its limit: a job that is taken in leaves it
/// no deeper than that.
pub proof fn law_accepted_job_fits(
    queue: QueueView,
    id: u128,
    payload: Seq<char>,
    created_at: i64,
)
    requires
        queue.jobs.dom().finite(),
        queue.jobs.len() < state::MAX_QUEUE_DEPTH,
    ensures
        queue.apply(RecordView::Enqueued { job_id: id, payload, created_at }).jobs.len()
            <= state::MAX_QUEUE_DEPTH,
{
    let next = queue.apply(RecordView::Enqueued { job_id: id, payload, created_at });
    assert(next.jobs.dom() =~= queue.jobs.dom().insert(id));
}

// ------------------------------------------------------------ what stays as is

/// A record touches its own job and its own delivery and nothing else: other jobs
/// stay as they are, keep their order among those that wait and among those that
/// are set aside, and other deliveries keep their leases.
pub proof fn law_record_leaves_the_others_alone(queue: QueueView, record: RecordView)
    ensures
        ({
            let next = queue.apply(record);
            let job = match record {
                RecordView::Enqueued { job_id, .. } => job_id,
                RecordView::Leased { job_id, .. } => job_id,
                RecordView::Acked { job_id, .. } => job_id,
                RecordView::Retried { job_id, .. } => job_id,
                RecordView::DeadLettered { job_id, .. } => job_id,
                RecordView::Redriven { job_id } => job_id,
            };
            let delivery = match record {
                RecordView::Leased { delivery_id, .. } => Some(delivery_id),
                RecordView::Acked { delivery_id, .. } => Some(delivery_id),
                RecordView::Retried { delivery_id, .. } => Some(delivery_id),
                RecordView::DeadLettered { delivery_id, .. } => Some(delivery_id),
                _ => None,
            };
            &&& forall|id: u128|
                id != job ==> (#[trigger] next.jobs.contains_key(id) <==> queue.jobs.contains_key(
                    id,
                ))
            &&& forall|id: u128|
                id != job && queue.jobs.contains_key(id) ==> #[trigger] next.jobs[id]
                    == queue.jobs[id]
            &&& next.ready.filter(|id: u128| id != job) == queue.ready.filter(|id: u128| id != job)
            &&& next.dead.filter(|id: u128| id != job) == queue.dead.filter(|id: u128| id != job)
            &&& forall|d: u128|
                delivery != Some(d) ==> (#[trigger] next.leases.contains_key(d)
                    <==> queue.leases.contains_key(d))
            &&& forall|d: u128|
                delivery != Some(d) && queue.leases.contains_key(d) ==> #[trigger] next.leases[d]
                    == queue.leases[d]
        }),
{
    let job = match record {
        RecordView::Enqueued { job_id, .. } => job_id,
        RecordView::Leased { job_id, .. } => job_id,
        RecordView::Acked { job_id, .. } => job_id,
        RecordView::Retried { job_id, .. } => job_id,
        RecordView::DeadLettered { job_id, .. } => job_id,
        RecordView::Redriven { job_id } => job_id,
    };
    let others = |id: u128| id != job;
    assert(state::other_than(job) =~= others);
    lemma_others(queue.ready, job, others);
    lemma_others(queue.dead, job, others);
}

proof fn lemma_others(s: Seq<u128>, id: u128, others: spec_fn(u128) -> bool)
    requires
        others == state::other_than(id),
    ensures
        s.push(id).filter(others) == s.filter(others),
        state::without(s, id).filter(others) == s.filter(others),
    decreases s.len(),
{
    reveal(Seq::filter);
    assert(s.push(id).drop_last() =~= s);
    let kept = state::without(s, id);
    if s.len() > 0 {
        lemma_others(s.drop_last(), id, others);
        if s.last() != id {
            assert(kept == state::without(s.drop_last(), id).push(s.last()));
            assert(kept.drop_last() =~= state::without(s.drop_last(), id));
        }
    }
}

/// A record puts its job where it says and takes it from where it was: a lease and
/// an acknowledgement leave it nowhere among those that wait, an expiry puts it
/// last among those that wait or last among those set aside, and what a record does
/// not speak of does not change at all.
pub proof fn law_record_moves_its_job(queue: QueueView, record: RecordView)
    ensures
        ({
            let next = queue.apply(record);
            match record {
                RecordView::Enqueued { job_id, .. } => next.ready == queue.ready.push(job_id)
                    && next.dead == queue.dead && next.leases == queue.leases,
                RecordView::Leased { job_id, delivery_id, visible_at } => if clock::MIN_MICROS
                    <= visible_at <= clock::MAX_MICROS {
                    !next.ready.contains(job_id) && next.dead == queue.dead && next.leases
                        == queue.leases.insert(delivery_id, (job_id, visible_at))
                        && next.jobs.dom() == queue.jobs.dom()
                } else {
                    next == queue
                },
                RecordView::Acked { job_id, delivery_id } => !next.ready.contains(job_id)
                    && next.dead == queue.dead && next.leases == queue.leases.remove(delivery_id)
                    && next.jobs == queue.jobs.remove(job_id),
                RecordView::Retried { job_id, delivery_id } => next.ready == queue.ready.push(
                    job_id,
                ) && next.dead == queue.dead && next.leases == queue.leases.remove(delivery_id)
                    && next.jobs.dom() == queue.jobs.dom(),
                RecordView::DeadLettered { job_id, delivery_id } => next.ready == queue.ready
                    && next.dead == queue.dead.push(job_id) && next.leases
                    == queue.leases.remove(delivery_id) && next.jobs.dom() == queue.jobs.dom(),
                RecordView::Redriven { job_id } => next.ready == queue.ready.push(job_id)
                    && !next.dead.contains(job_id) && next.leases == queue.leases
                    && next.jobs.dom() == queue.jobs.dom(),
            }
        }),
{
    match record {
        RecordView::Leased { job_id, .. } => {
            lemma_without(queue.ready, job_id);
            assert(queue.apply(record).jobs.dom() =~= queue.jobs.dom());
        },
        RecordView::Acked { job_id, .. } => {
            lemma_without(queue.ready, job_id);
        },
        RecordView::Redriven { job_id } => {
            lemma_without(queue.dead, job_id);
            assert(queue.apply(record).jobs.dom() =~= queue.jobs.dom());
        },
        _ => {
            assert(record is Enqueued || queue.apply(record).jobs.dom() =~= queue.jobs.dom());
        },
    }
}

/// A failure counts as one, on a counter of 32 bits that wraps round; an operator
/// who returns a job sets the counter to nought; a lease leaves it as it is. None
/// of them touches what the client handed in.
pub proof fn law_failures_are_counted_one_by_one(queue: QueueView, record: RecordView, id: u128)
    requires
        queue.jobs.contains_key(id),
        match record {
            RecordView::Leased { job_id, visible_at, .. } => job_id == id && clock::MIN_MICROS
                <= visible_at <= clock::MAX_MICROS,
            RecordView::Retried { job_id, .. } => job_id == id,
            RecordView::DeadLettered { job_id, .. } => job_id == id,
            RecordView::Redriven { job_id } => job_id == id,
            _ => false,
        },
    ensures
        ({
            let before = queue.jobs[id];
            let after = queue.apply(record).jobs[id];
            &&& queue.apply(record).jobs.contains_key(id)
            &&& record is Retried || record is DeadLettered ==> (after.retries - before.retries
                - 1) % 0x1_0000_0000 == 0
            &&& record is Redriven ==> after.retries == 0
            &&& record is Leased ==> after.retries == before.retries
            &&& after.state == match record {
                RecordView::Leased { .. } => JobState::INFLIGHT,
                RecordView::DeadLettered { .. } => JobState::DLQ,
                _ => JobState::READY,
            }
            &&& after.id == before.id
            &&& after.payload == before.payload
            &&& after.created_at == before.created_at
            &&& after.retry_time_s == before.retry_time_s
        }),
{
}

/// What a job is after it was handed in is what the client handed in, with nothing
/// counted against it, even if one was held under the same identifier.
pub proof fn law_job_handed_in_is_held(
    queue: QueueView,
    id: u128,
    payload: Seq<char>,
    created_at: i64,
)
    ensures
        ({
            let next = queue.apply(RecordView::Enqueued { job_id: id, payload, created_at });
            &&& next.jobs.contains_key(id)
            &&& next.jobs[id].id == id
            &&& next.jobs[id].payload == payload
            &&& next.jobs[id].created_at == created_at
            &&& next.jobs[id].retries == 0
            &&& next.jobs[id].state == JobState::READY
            &&& next.ready.last() == id
        }),
{
}

/// Applying records one after the other is what applying them all is.
pub proof fn law_replay_goes_record_by_record(
    queue: QueueView,
    records: Seq<RecordView>,
    record: RecordView,
)
    ensures
        queue.apply_all(Seq::empty()) == queue,
        queue.apply_all(records.push(record)) == queue.apply_all(records).apply(record),
{
    assert(records.push(record).drop_last() =~= records);
}

/// Every job that fills the queue up for a test is held under its identifier, with
/// no failure counted, and jobs held before under other identifiers stay.
pub proof fn law_fillers_are_held(
    jobs: Map<u128, JobView>,
    ids: Seq<u128>,
    times: Seq<i64>,
    id: u128,
)
    requires
        ids.len() == times.len(),
    ensures
        state::filled(jobs, ids, times).contains_key(id) <==> jobs.contains_key(id)
            || ids.contains(id),
        !ids.contains(id) && jobs.contains_key(id) ==> state::filled(jobs, ids, times)[id]
            == jobs[id],
        ids.contains(id) ==> state::filled(jobs, ids, times)[id].id == id && state::filled(
            jobs,
            ids,
            times,
        )[id].retries == 0,
    decreases ids.len(),
{
    if ids.len() > 0 {
        let front = ids.drop_last();
        law_fillers_are_held(jobs, front, times.drop_last(), id);
        assert(ids =~= front.push(ids.last()));
        lemma_push_adds(front, ids.last(), id);
    }
}

} // verus!
