//! What clients and operators can rely on.
use crate::broker;
use crate::broker::{Code, DeadJob};
use crate::clock;
use crate::ids;
use crate::job::JobState;
use crate::protocol::{NodeView, Role};
use crate::queue_laws;
use crate::raft::ProposeError;
use crate::state;
use crate::state::{DeadJobSpec, QueueView, RecordView};
use crate::text;
use vstd::arithmetic::power2::*;
use vstd::prelude::*;

verus! {

// ----------------------------------------------------------------- rejections

/// A client that asked a member that follows is sent to the leader: the last part
/// of the answer names it.
pub proof fn law_follower_names_the_leader(leader: u128)
    ensures
        ({
            let answer = broker::propose_rejection(ProposeError::NotLeader(Some(leader)));
            let named = ids::id_text(leader);
            &&& answer.code == Code::FailedPrecondition
            &&& answer.message.len() >= named.len()
            &&& answer.message.skip(answer.message.len() - named.len()) == named
            &&& ids::id_of_text(answer.message.skip(answer.message.len() - named.len())) == Some(
                leader,
            )
        }),
{
    ids::law_id_text_reads_back(leader);
    let prefix = "Not the leader; try "@;
    let message = prefix + ids::id_text(leader);
    assert(message.skip(prefix.len() as int) =~= ids::id_text(leader));
}

/// What came to nothing may be tried again, unless the disk is at fault, and then
/// the client hears what the disk said.
pub proof fn law_retry_unless_the_disk_failed(e: ProposeError)
    ensures
        ({
            let answer = broker::propose_rejection(e);
            &&& e is LostLeadership ==> answer.code == Code::Unavailable
            &&& e is NotLeader && e->NotLeader_0 is None ==> answer.code == Code::Unavailable
            &&& e is Storage ==> answer.code == Code::Internal && answer.message.len()
                >= e->Storage_0@.len() && answer.message.skip(
                answer.message.len() - e->Storage_0@.len(),
            ) == e->Storage_0@
        }),
{
    if e is Storage {
        let prefix = "Log write failed: "@;
        let message = prefix + e->Storage_0@;
        assert(message.skip(prefix.len() as int) =~= e->Storage_0@);
    }
}

/// A producer that is turned away learns how deep the queue is: the answers to two
/// depths differ, and each holds its depth in decimal.
pub proof fn law_full_queue_tells_its_depth(depth: nat, other: nat)
    ensures
        broker::full(depth).code == Code::ResourceExhausted,
        exists|at: int|
            0 <= at && at + text::decimal(depth).len() <= broker::full(depth).message.len()
                && #[trigger] broker::full(depth).message.subrange(
                at,
                at + text::decimal(depth).len(),
            ) == text::decimal(depth),
        depth != other ==> broker::full(depth).message != broker::full(other).message,
{
    let front = "Queue is full: "@;
    let back = " unacknowledged jobs (limit "@ + text::decimal(state::MAX_QUEUE_DEPTH as nat)
        + ")"@;
    let a = text::decimal(depth);
    let b = text::decimal(other);
    assert(broker::full(depth).message =~= front + a + back);
    assert(broker::full(other).message =~= front + b + back);
    let at = front.len() as int;
    assert((front + a + back).subrange(at, at + a.len()) =~= a);
    if depth != other && broker::full(depth).message == broker::full(other).message {
        assert((front + a + back).len() == (front + b + back).len());
        assert((front + b + back).subrange(at, at + b.len()) =~= b);
        text::law_decimal_reads_back(depth);
        text::law_decimal_reads_back(other);
    }
}

// --------------------------------------------------------------------- leases

/// How long a lease lasts: at first as long as a first delivery stays hidden, and
/// twice as long for each failure, up to the ceiling.
pub proof fn law_lease_length(retries: i32)
    ensures
        retries <= 0 ==> state::backoff(retries) == state::VISIBILITY_S,
        retries >= 0 && state::VISIBILITY_S * pow2(retries as nat) < state::MAX_BACKOFF_S
            ==> state::backoff(retries) == state::VISIBILITY_S * pow2(retries as nat),
        retries >= 0 && state::VISIBILITY_S * pow2(retries as nat) >= state::MAX_BACKOFF_S
            ==> state::backoff(retries) == state::MAX_BACKOFF_S,
{
    lemma2_to64();
    if retries > 16 {
        lemma_pow2_strictly_increases(16, retries as nat);
    }
}

/// A consumer gets the job that waits longest, from now for as long as the
/// failures of that job say, unless the calendar ends before that.
pub proof fn law_lease_is_of_the_job_that_waits_longest(
    queue: QueueView,
    delivery: u128,
    now: i64,
)
    requires
        queue.ready.len() > 0,
    ensures
        ({
            let id = queue.ready[0];
            let failures = if queue.jobs.contains_key(id) {
                queue.jobs[id].retries
            } else {
                0
            };
            let end = now + 1_000_000 * state::backoff(failures);
            let record = broker::lease_record(queue, delivery, now);
            &&& broker::lease_on_calendar(queue, now) <==> end <= clock::MAX_MICROS
            &&& record is Leased
            &&& record->Leased_job_id == id
            &&& record->Leased_delivery_id == delivery
            &&& end <= clock::MAX_MICROS ==> record->Leased_visible_at == end
            &&& end > now
        }),
{
    lemma2_to64();
    lemma_pow2_pos(state::doublings(queue.retries(queue.ready[0])));
}

/// Handing a job out takes it from the front and leaves the others in their order:
/// the next consumer gets the job that was second.
pub proof fn law_leasing_leaves_the_others_in_order(queue: QueueView, delivery: u128, now: i64)
    requires
        queue.ready.len() > 0,
        queue.ready.no_duplicates(),
        clock::MIN_MICROS <= now,
        now + 1_000_000 * state::MAX_BACKOFF_S <= clock::MAX_MICROS,
    ensures
        ({
            let id = queue.ready[0];
            let next = queue.apply(broker::lease_record(queue, delivery, now));
            &&& next.ready == queue.ready.skip(1)
            &&& next.dead == queue.dead
            &&& next.leases.contains_key(delivery)
            &&& next.leases[delivery].0 == id
            &&& next.leases[delivery].1 > now
            &&& queue.jobs.contains_key(id) ==> next.jobs[id].state == JobState::INFLIGHT
            &&& next.jobs.dom() == queue.jobs.dom()
        }),
{
    let id = queue.ready[0];
    law_lease_is_of_the_job_that_waits_longest(queue, delivery, now);
    lemma2_to64();
    lemma_all_but_first(queue.ready);
    assert(queue.moved(id, JobState::INFLIGHT, queue.retries(id)).dom() =~= queue.jobs.dom());
}

proof fn lemma_all_but_first(s: Seq<u128>)
    requires
        s.len() > 0,
        s.no_duplicates(),
    ensures
        state::without(s, s[0]) == s.skip(1),
    decreases s.len(),
{
    reveal(Seq::filter);
    let others = state::other_than(s[0]);
    let rest = s.drop_last();
    if rest.len() == 0 {
        assert(rest.filter(others) =~= Seq::empty());
        assert(s.skip(1) =~= Seq::empty());
    } else {
        assert(rest.no_duplicates());
        lemma_all_but_first(rest);
        assert(s.last() != s[0]);
        assert(s.skip(1) =~= rest.skip(1).push(s.last()));
    }
}

// --------------------------------------------------------------------- expiry

/// What settles the lease that ends first: it is the lease of a delivery, it has
/// ended, none ends before it, and the job is set aside exactly when it has failed
/// as often as is permitted but once.
pub proof fn law_sweep_settles_the_earliest_lease_that_ended(
    queue: QueueView,
    now: i64,
    record: RecordView,
)
    requires
        broker::settles_first(queue, now, record),
    ensures
        exists|d: u128| #[trigger]
            queue.leases.contains_key(d) && queue.leases[d].1 <= now && (forall|e: u128| #[trigger]
                queue.leases.contains_key(e) ==> queue.leases[d].1 < queue.leases[e].1 || (
                queue.leases[d].1 == queue.leases[e].1 && d <= e)) && ({
                let id = queue.leases[d].0;
                let failures = if queue.jobs.contains_key(id) {
                    queue.jobs[id].retries
                } else {
                    0
                };
                if failures + 1 >= state::MAX_RETRIES {
                    record == (RecordView::DeadLettered { job_id: id, delivery_id: d })
                } else {
                    record == (RecordView::Retried { job_id: id, delivery_id: d })
                }
            }),
{
    let d = choose|d: u128| #[trigger]
        state::ends_first(queue.leases, d) && queue.leases[d].1 <= now && record
            == broker::expiry_record(queue, d);
    assert(queue.leases.contains_key(d));
}

/// A lease that has ended does not stay: while there is one, a sweep has something
/// to settle, and once it has settled that, the delivery is no longer under lease
/// and its job waits again or is set aside.
pub proof fn law_ended_lease_is_settled(queue: QueueView, now: i64, delivery: u128)
    requires
        queue.leases.contains_key(delivery),
        queue.leases[delivery].1 <= now,
    ensures
        !broker::none_ended(queue, now),
        forall|record: RecordView| #[trigger]
            broker::settles_first(queue, now, record) ==> exists|d: u128| #[trigger]
                queue.leases.contains_key(d) && queue.leases[d].1 <= queue.leases[delivery].1
                    && queue.apply(record).leases == queue.leases.remove(d) && (
                queue.apply(record).ready == queue.ready.push(queue.leases[d].0)
                    || queue.apply(record).dead == queue.dead.push(queue.leases[d].0)),
{
    assert forall|record: RecordView| #[trigger]
        broker::settles_first(queue, now, record) implies exists|d: u128| #[trigger]
            queue.leases.contains_key(d) && queue.leases[d].1 <= queue.leases[delivery].1
                && queue.apply(record).leases == queue.leases.remove(d) && (
            queue.apply(record).ready == queue.ready.push(queue.leases[d].0)
                || queue.apply(record).dead == queue.dead.push(queue.leases[d].0)) by {
        let d = choose|d: u128| #[trigger]
            state::ends_first(queue.leases, d) && queue.leases[d].1 <= now && record
                == broker::expiry_record(queue, d);
        assert(queue.leases.contains_key(d));
    }
}

proof fn lemma_one_ends_first(leases: Map<u128, (u128, i64)>, among: Set<u128>) -> (d: u128)
    requires
        among.finite(),
        among.len() > 0,
        among.subset_of(leases.dom()),
    ensures
        among.contains(d),
        forall|e: u128| #[trigger]
            among.contains(e) && e != d ==> state::sooner(
                (leases[d].1, d),
                (leases[e].1, e),
            ),
    decreases among.len(),
{
    let one = among.choose();
    let rest = among.remove(one);
    if rest.len() == 0 {
        assert forall|e: u128| #[trigger] among.contains(e) && e != one implies state::sooner(
            (leases[one].1, one),
            (leases[e].1, e),
        ) by {
            assert(rest.contains(e));
        }
        one
    } else {
        let other = lemma_one_ends_first(leases, rest);
        let d = if state::sooner((leases[one].1, one), (leases[other].1, other)) {
            one
        } else {
            other
        };
        assert forall|e: u128| #[trigger] among.contains(e) && e != d implies state::sooner(
            (leases[d].1, d),
            (leases[e].1, e),
        ) by {
            if e != one {
                assert(rest.contains(e));
            }
        }
        d
    }
}

/// Whenever a lease has ended there is a record that settles one.
pub proof fn law_there_is_a_lease_to_settle(queue: QueueView, now: i64, delivery: u128)
    requires
        queue.leases.dom().finite(),
        queue.leases.contains_key(delivery),
        queue.leases[delivery].1 <= now,
    ensures
        exists|record: RecordView| #[trigger] broker::settles_first(queue, now, record),
{
    let d = lemma_one_ends_first(queue.leases, queue.leases.dom());
    assert(state::ends_first(queue.leases, d));
    assert(queue.leases[d].1 <= queue.leases[delivery].1) by {
        assert(queue.leases.dom().contains(delivery));
    }
    assert(broker::settles_first(queue, now, broker::expiry_record(queue, d)));
}

/// A sweep goes by the clock in microseconds, as leases do: one that finds nothing
/// to settle read the clock when no lease had ended, and one that settles a lease
/// read it when that lease had.
pub proof fn law_sweep_goes_by_the_clock(
    queue: QueueView,
    reading: clock::Reading,
    delivery: u128,
    record: RecordView,
)
    requires
        queue.leases.contains_key(delivery),
    ensures
        broker::none_ended(queue, reading.micros()) ==> reading.micros()
            < queue.leases[delivery].1,
        broker::settles_first(queue, reading.micros(), record) && (record
            == (RecordView::Retried { job_id: queue.leases[delivery].0, delivery_id: delivery })
            || record == (RecordView::DeadLettered {
            job_id: queue.leases[delivery].0,
            delivery_id: delivery,
        })) ==> queue.leases[delivery].1 <= reading.micros(),
{
}

/// A sweep by a leader settles a lease whenever one has ended by the time that the
/// clock shows, in microseconds, and what it settles ends no later than any other
/// that has ended; one that finds nothing read the clock before the end of every
/// lease. Whoever does not lead settles nothing.
pub proof fn law_leader_settles_whenever_a_lease_has_ended(
    node: NodeView,
    reading: clock::Reading,
    settled: Option<RecordView>,
    delivery: u128,
)
    requires
        broker::swept(node, reading, settled),
        node.state.leases.contains_key(delivery),
    ensures
        node.role != Role::Leader ==> settled is None,
        node.role == Role::Leader && node.state.leases[delivery].1 <= reading.micros()
            ==> settled is Some,
        node.role == Role::Leader && settled is None ==> reading.micros()
            < node.state.leases[delivery].1,
        settled matches Some(record) ==> exists|d: u128| #[trigger]
            node.state.leases.contains_key(d) && node.state.leases[d].1 <= reading.micros()
                && node.state.leases[d].1 <= node.state.leases[delivery].1 && (record
                == (RecordView::Retried { job_id: node.state.leases[d].0, delivery_id: d })
                || record == (RecordView::DeadLettered {
                job_id: node.state.leases[d].0,
                delivery_id: d,
            })),
{
    if let Some(record) = settled {
        law_sweep_settles_the_earliest_lease_that_ended(node.state, reading.micros(), record);
    }
}

/// A job that is taken in has the identifier that was drawn and the time that the
/// clock showed, in microseconds, and carries what was handed in.
pub proof fn law_job_is_dated_by_the_clock(
    payload: Seq<char>,
    drawn: ids::RandomId,
    reading: clock::Reading,
    record: RecordView,
)
    requires
        broker::taken_in(payload, drawn, reading, record),
    ensures
        record is Enqueued,
        record->Enqueued_job_id == drawn.number(),
        record->Enqueued_payload == payload,
        record->Enqueued_created_at == reading.micros(),
{
}

/// A lease ends as long after the time that the clock showed, in microseconds, as
/// it lasts, and a sweep that reads the clock before that leaves it alone.
pub proof fn law_lease_is_dated_by_the_clock(
    queue: QueueView,
    drawn: ids::RandomId,
    reading: clock::Reading,
    record: RecordView,
)
    requires
        queue.ready.len() > 0,
        broker::handed_out(queue, drawn, reading, record),
    ensures
        record is Leased,
        record->Leased_job_id == queue.ready[0],
        record->Leased_delivery_id == drawn.number(),
        record->Leased_visible_at >= reading.micros() + 1_000_000 * state::VISIBILITY_S,
        record->Leased_visible_at <= reading.micros() + 1_000_000 * state::MAX_BACKOFF_S,
        queue.jobs.contains_key(queue.ready[0]) ==> record->Leased_visible_at == reading.micros()
            + 1_000_000 * state::backoff(queue.jobs[queue.ready[0]].retries),
{
    law_lease_is_of_the_job_that_waits_longest(queue, drawn.number(), reading.micros());
    let failures = queue.retries(queue.ready[0]);
    law_lease_length(failures);
    if failures >= 0 {
        lemma_pow2_pos(failures as nat);
    }
}

/// Nobody settles a lease before it ends: with no lease that has ended, there is
/// nothing to settle.
pub proof fn law_running_lease_is_left_alone(queue: QueueView, now: i64, record: RecordView)
    requires
        forall|d: u128| #[trigger] queue.leases.contains_key(d) ==> queue.leases[d].1 > now,
    ensures
        broker::none_ended(queue, now),
        !broker::settles_first(queue, now, record),
{
}

// ------------------------------------------------------------ acknowledgement

/// A delivery under lease can be acknowledged, however often its job has failed
/// and whatever else the queue holds; one that is not under lease cannot.
pub proof fn law_delivery_under_lease_can_be_acknowledged(
    queue: QueueView,
    text: Seq<char>,
    delivery: u128,
)
    ensures
        ids::id_of_text(text) == Some(delivery) && queue.leases.contains_key(delivery)
            ==> broker::ack_outcome(queue, text) == Ok::<RecordView, broker::RejectionView>(
            RecordView::Acked { job_id: queue.leases[delivery].0, delivery_id: delivery },
        ),
        ids::id_of_text(text) == Some(delivery) && !queue.leases.contains_key(delivery)
            ==> broker::ack_outcome(queue, text) is Err && broker::ack_outcome(
            queue,
            text,
        )->Err_0.code == Code::NotFound,
        ids::id_of_text(text) is None ==> broker::ack_outcome(queue, text) is Err
            && broker::ack_outcome(queue, text)->Err_0.code == Code::InvalidArgument,
{
}

/// A consumer can acknowledge what it was handed: once a lease is in force, the
/// delivery can be acknowledged under the identifier that the consumer was told,
/// after which the job is gone and cannot be acknowledged a second time.
pub proof fn law_delivery_can_be_acknowledged_once(
    queue: QueueView,
    job: u128,
    delivery: u128,
    visible_at: i64,
)
    requires
        clock::MIN_MICROS <= visible_at <= clock::MAX_MICROS,
    ensures
        ({
            let out = queue.apply(
                RecordView::Leased { job_id: job, delivery_id: delivery, visible_at },
            );
            let outcome = broker::ack_outcome(out, ids::id_text(delivery));
            let done = out.apply(outcome->Ok_0);
            &&& outcome is Ok
            &&& !done.jobs.contains_key(job)
            &&& !done.ready.contains(job)
            &&& !done.leases.contains_key(delivery)
            &&& broker::ack_outcome(done, ids::id_text(delivery)) is Err
            &&& broker::ack_outcome(done, ids::id_text(delivery))->Err_0.code == Code::NotFound
        }),
{
    ids::law_id_text_reads_back(delivery);
    let out = queue.apply(RecordView::Leased { job_id: job, delivery_id: delivery, visible_at });
    queue_laws::law_acked_job_is_gone(out, job, delivery);
}

/// Whether a delivery can be acknowledged depends on its lease alone: two queues
/// that agree on the leases answer alike.
pub proof fn law_acknowledgement_goes_by_the_leases(
    queue: QueueView,
    other: QueueView,
    text: Seq<char>,
)
    requires
        queue.leases == other.leases,
    ensures
        broker::ack_outcome(queue, text) == broker::ack_outcome(other, text),
{
}

// --------------------------------------------------------------- dead letters

proof fn lemma_filter_push(s: Seq<u128>, added: u128, wanted: spec_fn(u128) -> bool)
    ensures
        s.push(added).filter(wanted) == (if wanted(added) {
            s.filter(wanted).push(added)
        } else {
            s.filter(wanted)
        }),
{
    reveal(Seq::filter);
    assert(s.push(added).drop_last() =~= s);
}

/// Setting one more job aside adds it at the end of what is listed, if it is held,
/// however often it has failed; with nothing set aside, nothing is listed.
pub proof fn law_job_set_aside_is_listed_last(queue: QueueView, id: u128)
    ensures
        ({
            let more = QueueView { dead: queue.dead.push(id), ..queue };
            let listed = queue.dead_jobs();
            &&& queue.jobs.contains_key(id) ==> {
                &&& more.dead_jobs().len() == listed.len() + 1
                &&& more.dead_jobs().drop_last() == listed
                &&& more.dead_jobs().last().job_id == id
                &&& more.dead_jobs().last().payload == queue.jobs[id].payload
                &&& more.dead_jobs().last().retries == queue.jobs[id].retries
                &&& more.dead_jobs().last().created_at == queue.jobs[id].created_at
            }
            &&& !queue.jobs.contains_key(id) ==> more.dead_jobs() == listed
            &&& queue.dead.len() == 0 ==> listed.len() == 0
        }),
{
    let more = QueueView { dead: queue.dead.push(id), ..queue };
    let held = |id: u128| queue.jobs.contains_key(id);
    lemma_filter_push(queue.dead, id, held);
    assert((|id: u128| more.jobs.contains_key(id)) =~= held);
    if queue.jobs.contains_key(id) {
        assert(more.dead_jobs().drop_last() =~= queue.dead_jobs());
    } else {
        assert(more.dead_jobs() =~= queue.dead_jobs());
    }
    if queue.dead.len() == 0 {
        reveal(Seq::filter);
        assert(queue.dead.filter(held) =~= Seq::empty());
    }
}

/// Every job that is set aside and held is listed, as it is, whatever its
/// failures; nothing else is; and where all that are set aside are held, they are
/// listed one for one.
pub proof fn law_every_dead_letter_is_listed(queue: QueueView)
    ensures
        forall|i: int|
            0 <= i < queue.dead.len() && queue.jobs.contains_key(#[trigger] queue.dead[i])
                ==> exists|k: int|
                0 <= k < queue.dead_jobs().len() && (#[trigger] queue.dead_jobs()[k]).job_id
                    == queue.dead[i],
        forall|k: int|
            0 <= k < queue.dead_jobs().len() ==> {
                let shown = #[trigger] queue.dead_jobs()[k];
                &&& queue.dead.contains(shown.job_id)
                &&& queue.jobs.contains_key(shown.job_id)
                &&& shown.payload == queue.jobs[shown.job_id].payload
                &&& shown.retries == queue.jobs[shown.job_id].retries
                &&& shown.created_at == queue.jobs[shown.job_id].created_at
            },
        (forall|i: int|
            0 <= i < queue.dead.len() ==> queue.jobs.contains_key(#[trigger] queue.dead[i])) ==> {
            &&& queue.dead_jobs().len() == queue.dead.len()
            &&& forall|i: int|
                0 <= i < queue.dead.len() ==> (#[trigger] queue.dead_jobs()[i]).job_id
                    == queue.dead[i]
        },
    decreases queue.dead.len(),
{
    if queue.dead.len() == 0 {
        law_job_set_aside_is_listed_last(queue, 0);
    } else {
        let fewer = QueueView { dead: queue.dead.drop_last(), ..queue };
        let last = queue.dead.last();
        law_every_dead_letter_is_listed(fewer);
        law_job_set_aside_is_listed_last(fewer, last);
        assert(fewer.dead.push(last) =~= queue.dead);
        assert((QueueView { dead: fewer.dead.push(last), ..fewer }) == queue);
        let listed = queue.dead_jobs();
        let before = fewer.dead_jobs();
        assert(forall|k: int| 0 <= k < before.len() ==> before[k] == #[trigger] listed[k]) by {
            if queue.jobs.contains_key(last) {
                assert(listed.drop_last() == before);
                assert forall|k: int| 0 <= k < before.len() implies before[k]
                    == #[trigger] listed[k] by {
                    assert(listed.drop_last()[k] == listed[k]);
                }
            }
        }
        assert forall|i: int|
            0 <= i < queue.dead.len() && queue.jobs.contains_key(
                #[trigger] queue.dead[i],
            ) implies exists|k: int|
            0 <= k < listed.len() && (#[trigger] listed[k]).job_id == queue.dead[i] by {
            if i < fewer.dead.len() {
                assert(fewer.dead[i] == queue.dead[i]);
                let k = choose|k: int|
                    0 <= k < before.len() && (#[trigger] before[k]).job_id == fewer.dead[i];
                assert(listed[k] == before[k]);
            } else {
                assert(listed[listed.len() - 1].job_id == last);
            }
        }
        assert forall|k: int| 0 <= k < listed.len() implies {
            let shown = #[trigger] listed[k];
            &&& queue.dead.contains(shown.job_id)
            &&& queue.jobs.contains_key(shown.job_id)
            &&& shown.payload == queue.jobs[shown.job_id].payload
            &&& shown.retries == queue.jobs[shown.job_id].retries
            &&& shown.created_at == queue.jobs[shown.job_id].created_at
        } by {
            if k < before.len() {
                assert(listed[k] == before[k]);
                let i = fewer.dead.index_of(before[k].job_id);
                assert(queue.dead[i] == before[k].job_id);
            } else {
                assert(queue.dead[queue.dead.len() - 1] == last);
            }
        }
        if forall|i: int|
            0 <= i < queue.dead.len() ==> queue.jobs.contains_key(#[trigger] queue.dead[i]) {
            assert forall|i: int| 0 <= i < fewer.dead.len() implies fewer.jobs.contains_key(
                #[trigger] fewer.dead[i],
            ) by {
                assert(queue.dead[i] == fewer.dead[i]);
            }
            assert(queue.jobs.contains_key(queue.dead[queue.dead.len() - 1]));
            assert forall|i: int| 0 <= i < queue.dead.len() implies (
            #[trigger] listed[i]).job_id == queue.dead[i] by {
                if i < fewer.dead.len() {
                    assert(listed[i] == before[i]);
                    assert(before[i].job_id == fewer.dead[i]);
                }
            }
        }
    }
}

/// A job that is given up is listed from then on, at the end, with the failure
/// that it was given up for counted; what was listed before still is.
pub proof fn law_job_given_up_is_listed(queue: QueueView, id: u128, delivery: u128)
    requires
        queue.jobs.contains_key(id),
        queue.jobs[id].retries < i32::MAX,
        !queue.dead.contains(id),
    ensures
        ({
            let next = queue.apply(RecordView::DeadLettered { job_id: id, delivery_id: delivery });
            let listed = next.dead_jobs();
            &&& listed.len() == queue.dead_jobs().len() + 1
            &&& listed.drop_last() == queue.dead_jobs()
            &&& listed.last().job_id == id
            &&& listed.last().payload == queue.jobs[id].payload
            &&& listed.last().retries == queue.jobs[id].retries + 1
            &&& listed.last().created_at == queue.jobs[id].created_at
        }),
{
    let next = queue.apply(RecordView::DeadLettered { job_id: id, delivery_id: delivery });
    let between = QueueView { dead: queue.dead, ..next };
    assert(next == (QueueView { dead: between.dead.push(id), ..between }));
    law_job_set_aside_is_listed_last(between, id);
    lemma_listing_goes_by_what_is_set_aside(queue, between);
}

proof fn lemma_listing_goes_by_what_is_set_aside(a: QueueView, b: QueueView)
    requires
        a.dead == b.dead,
        forall|i: int|
            0 <= i < a.dead.len() ==> (a.jobs.contains_key(#[trigger] a.dead[i])
                <==> b.jobs.contains_key(a.dead[i])) && a.jobs[a.dead[i]] == b.jobs[a.dead[i]],
    ensures
        a.dead_jobs() == b.dead_jobs(),
    decreases a.dead.len(),
{
    if a.dead.len() == 0 {
        law_job_set_aside_is_listed_last(a, 0);
        law_job_set_aside_is_listed_last(b, 0);
        assert(a.dead_jobs() =~= b.dead_jobs());
    } else {
        let last = a.dead.last();
        let fa = QueueView { dead: a.dead.drop_last(), ..a };
        let fb = QueueView { dead: b.dead.drop_last(), ..b };
        assert forall|i: int| 0 <= i < fa.dead.len() implies (fa.jobs.contains_key(
            #[trigger] fa.dead[i],
        ) <==> fb.jobs.contains_key(fa.dead[i])) && fa.jobs[fa.dead[i]]
            == fb.jobs[fa.dead[i]] by {
            assert(a.dead[i] == fa.dead[i]);
        }
        lemma_listing_goes_by_what_is_set_aside(fa, fb);
        assert(fa.dead.push(last) =~= a.dead);
        assert((QueueView { dead: fa.dead.push(last), ..fa }) == a);
        assert((QueueView { dead: fb.dead.push(last), ..fb }) == b);
        law_job_set_aside_is_listed_last(fa, last);
        law_job_set_aside_is_listed_last(fb, last);
        assert(a.dead[a.dead.len() - 1] == last);
        if a.jobs.contains_key(last) {
            let la = a.dead_jobs();
            let lb = b.dead_jobs();
            assert(la =~= la.drop_last().push(la.last()));
            assert(lb =~= lb.drop_last().push(lb.last()));
        }
    }
}

/// An operator reads of a job what is held of it.
pub proof fn law_dead_letter_is_shown_as_it_is(shown: DeadJob, job: DeadJobSpec)
    requires
        broker::shows(shown, job),
    ensures
        ids::id_of_text(shown.job_id@) == Some(job.job_id),
        shown.payload@ == job.payload,
        shown.retries == job.retries,
        shown.created_at.seconds * 1_000_000_000 + shown.created_at.nanos == job.created_at
            * 1_000,
{
    ids::law_id_text_reads_back(job.job_id);
}

// -------------------------------------------------------------------- redrive

/// A job that is set aside is returned if one of the texts names it, wherever in
/// the list that text stands, or if there is no text at all.
pub proof fn law_redrive_takes_every_job_that_is_named(
    dead: Seq<u128>,
    texts: Seq<Seq<char>>,
    id: u128,
)
    ensures
        ({
            let returned = dead.filter(broker::asked_for(texts));
            let named = exists|i: int|
                0 <= i < texts.len() && ids::id_of_text(#[trigger] texts[i]) == Some(id);
            returned.contains(id) <==> dead.contains(id) && (texts.len() == 0 || named)
        }),
{
    let wanted = broker::asked_for(texts);
    let returned = dead.filter(wanted);
    let named = exists|i: int|
        0 <= i < texts.len() && ids::id_of_text(#[trigger] texts[i]) == Some(id);
    if dead.contains(id) && (texts.len() == 0 || named) {
        let i = dead.index_of(id);
        assert(wanted(dead[i]));
        dead.lemma_filter_contains(wanted, i);
    }
    if returned.contains(id) {
        dead.lemma_filter_contains_rev(wanted, id);
        let k = returned.index_of(id);
        dead.lemma_filter_pred(wanted, k);
    }
}

/// Jobs are returned in the order in which they were set aside: one that is set
/// aside last comes last, if it is asked for, and does not change what comes
/// before it.
pub proof fn law_redrive_goes_in_order(dead: Seq<u128>, texts: Seq<Seq<char>>, id: u128)
    ensures
        ({
            let wanted = broker::asked_for(texts);
            let named = exists|i: int|
                0 <= i < texts.len() && ids::id_of_text(#[trigger] texts[i]) == Some(id);
            &&& texts.len() == 0 || named ==> dead.push(id).filter(wanted) == dead.filter(
                wanted,
            ).push(id)
            &&& !(texts.len() == 0 || named) ==> dead.push(id).filter(wanted) == dead.filter(
                wanted,
            )
            &&& Seq::<u128>::empty().filter(wanted) == Seq::<u128>::empty()
            &&& texts.len() == 0 ==> dead.filter(wanted) == dead
        }),
    decreases dead.len(),
{
    let wanted = broker::asked_for(texts);
    lemma_filter_push(dead, id, wanted);
    reveal(Seq::filter);
    assert(Seq::<u128>::empty().filter(wanted) =~= Seq::empty());
    if texts.len() == 0 && dead.len() > 0 {
        law_redrive_goes_in_order(dead.drop_last(), texts, id);
        assert(dead.drop_last().push(dead.last()) =~= dead);
    }
}

/// The order in which an operator names jobs does not matter, nor does naming one
/// twice: lists that name the same jobs return the same ones.
pub proof fn law_redrive_goes_by_what_is_named(
    dead: Seq<u128>,
    texts: Seq<Seq<char>>,
    others: Seq<Seq<char>>,
)
    requires
        texts.len() == 0 <==> others.len() == 0,
        forall|i: int|
            0 <= i < texts.len() ==> exists|j: int|
                0 <= j < others.len() && #[trigger] others[j] == #[trigger] texts[i],
        forall|j: int|
            0 <= j < others.len() ==> exists|i: int|
                0 <= i < texts.len() && #[trigger] texts[i] == #[trigger] others[j],
    ensures
        dead.filter(broker::asked_for(texts)) == dead.filter(broker::asked_for(others)),
        broker::all_ids(texts) == broker::all_ids(others),
{
    assert(broker::asked_for(texts) =~= broker::asked_for(others)) by {
        assert forall|id: u128| #[trigger] broker::asked_for(texts)(id) == broker::asked_for(
            others,
        )(id) by {
            if broker::names(texts, id) {
                let i = choose|i: int|
                    0 <= i < texts.len() && ids::id_of_text(#[trigger] texts[i]) == Some(id);
                let j = choose|j: int|
                    0 <= j < others.len() && #[trigger] others[j] == texts[i];
                assert(ids::id_of_text(others[j]) == Some(id));
            }
            if broker::names(others, id) {
                let j = choose|j: int|
                    0 <= j < others.len() && ids::id_of_text(#[trigger] others[j]) == Some(id);
                let i = choose|i: int|
                    0 <= i < texts.len() && #[trigger] texts[i] == others[j];
                assert(ids::id_of_text(texts[i]) == Some(id));
            }
        }
    }
    if broker::all_ids(texts) {
        assert forall|j: int| 0 <= j < others.len() implies ids::id_of_text(
            #[trigger] others[j],
        ) is Some by {
            let i = choose|i: int| 0 <= i < texts.len() && #[trigger] texts[i] == others[j];
            assert(ids::id_of_text(texts[i]) is Some);
        }
    }
    if broker::all_ids(others) {
        assert forall|i: int| 0 <= i < texts.len() implies ids::id_of_text(
            #[trigger] texts[i],
        ) is Some by {
            let j = choose|j: int| 0 <= j < others.len() && #[trigger] others[j] == texts[i];
            assert(ids::id_of_text(others[j]) is Some);
        }
    }
}

/// One text that names no identifier is enough for a request to be turned away.
pub proof fn law_one_wrong_name_spoils_the_request(texts: Seq<Seq<char>>)
    ensures
        broker::all_ids(texts) <==> !exists|i: int|
            0 <= i < texts.len() && ids::id_of_text(#[trigger] texts[i]) is None,
{
}

/// A job that is returned is no longer set aside and waits, and asking for all
/// that are set aside a second time finds it no more.
pub proof fn law_returned_job_is_not_returned_again(
    queue: QueueView,
    texts: Seq<Seq<char>>,
    id: u128,
)
    ensures
        ({
            let next = queue.apply(RecordView::Redriven { job_id: id });
            &&& next.ready == queue.ready.push(id)
            &&& !next.dead.filter(broker::asked_for(texts)).contains(id)
            &&& forall|other: u128|
                other != id ==> (#[trigger] next.dead.contains(other) <==> queue.dead.contains(
                    other,
                ))
        }),
{
    let next = queue.apply(RecordView::Redriven { job_id: id });
    queue_laws::lemma_without(queue.dead, id);
    law_redrive_takes_every_job_that_is_named(next.dead, texts, id);
}

} // verus!
