use std::collections::hash_map::DefaultHasher;
use std::hash::{Hash, Hasher};

use ferroqueue::job::{Job, JobState, New};
use ferroqueue::state::{
    backoff_seconds, InvisibleQueue, QueueState, Record, MAX_BACKOFF_S, MAX_QUEUE_DEPTH,
    MAX_RETRIES, VISIBILITY_S,
};

fn enqueued(n: u128) -> Record {
    Record::Enqueued { job_id: n, payload: format!("job-{n}"), created_at: n as i64 }
}

fn queue_of(ids: &[u128]) -> QueueState {
    let mut queue = QueueState::new();
    for id in ids {
        queue.apply(&enqueued(*id));
    }
    queue
}

fn lease(job_id: u128, delivery_id: u128, visible_at: i64) -> Record {
    Record::Leased { job_id, delivery_id, visible_at }
}

#[test]
fn leases_double_up_to_a_ceiling() {
    let expected = [5, 10, 20, 40, 80, 160, 300, 300];
    for (retries, seconds) in expected.iter().enumerate() {
        assert_eq!(backoff_seconds(retries as i32), *seconds);
    }
    assert_eq!(backoff_seconds(-3), VISIBILITY_S);
    assert_eq!(backoff_seconds(16), MAX_BACKOFF_S);
    assert_eq!(backoff_seconds(i32::MAX), MAX_BACKOFF_S);
}

#[test]
fn limits_are_as_documented() {
    assert_eq!((VISIBILITY_S, MAX_RETRIES, MAX_QUEUE_DEPTH), (5, 10, 10_000));
}

#[test]
fn jobs_wait_in_the_order_they_came() {
    let mut queue = queue_of(&[1, 2, 3]);
    assert_eq!(queue.depth(), 3);
    assert_eq!(queue.peek_ready(), Some((1, 0)));
    assert_eq!(queue.job_view(2), Some(("job-2".to_string(), 2)));
    queue.apply(&lease(1, 100, 50));
    assert_eq!(queue.ready_ids(), vec![2, 3]);
    assert_eq!(queue.depth(), 3, "a job in flight is still held");
    assert_eq!(QueueState::default().peek_ready(), None);
}

#[test]
fn an_acknowledged_job_is_gone() {
    let mut queue = queue_of(&[1, 2]);
    queue.apply(&lease(1, 100, 50));
    assert_eq!(queue.job_of_delivery(100), Some(1));
    queue.apply(&Record::Acked { job_id: 1, delivery_id: 100 });
    assert_eq!(queue.job_of_delivery(100), None);
    assert_eq!(queue.job_view(1), None);
    assert_eq!(queue.retries_of(1), None);
    assert_eq!(queue.depth(), 1);
    assert_eq!(queue.peek_expired(i64::MAX), None);
}

#[test]
fn an_expired_lease_makes_the_job_available_again() {
    let mut queue = queue_of(&[1, 2]);
    queue.apply(&lease(1, 100, 50));
    assert_eq!(queue.peek_expired(49), None);
    assert_eq!(queue.peek_expired(50), Some((1, 100)));
    queue.apply(&Record::Retried { job_id: 1, delivery_id: 100 });
    assert_eq!(queue.ready_ids(), vec![2, 1]);
    assert_eq!(queue.retries_of(1), Some(1));
    assert_eq!(queue.peek_expired(i64::MAX), None);
    assert_eq!(queue.job_view(1), Some(("job-1".to_string(), 1)));
}

#[test]
fn the_lease_that_ends_first_expires_first() {
    let mut queue = queue_of(&[1, 2, 3]);
    queue.apply(&lease(1, 300, 70));
    queue.apply(&lease(2, 200, 60));
    queue.apply(&lease(3, 100, 60));
    assert_eq!(queue.peek_expired(100), Some((3, 100)), "the lower identifier on a tie");
    queue.apply(&Record::Retried { job_id: 3, delivery_id: 100 });
    assert_eq!(queue.peek_expired(100), Some((2, 200)));
    queue.apply(&Record::Retried { job_id: 2, delivery_id: 200 });
    assert_eq!(queue.peek_expired(69), None);
    assert_eq!(queue.peek_expired(70), Some((1, 300)));
}

#[test]
fn a_lease_past_the_end_of_the_calendar_is_ignored() {
    let latest = 8_210_266_876_799_999_999;
    let earliest = -8_334_601_228_800_000_000;
    for (visible_at, counts) in
        [(latest, true), (latest + 1, false), (earliest, true), (earliest - 1, false)]
    {
        let mut queue = queue_of(&[1]);
        queue.apply(&lease(1, 100, visible_at));
        assert_eq!(queue.job_of_delivery(100).is_some(), counts);
        assert_eq!(queue.ready_ids().is_empty(), counts);
        assert_eq!(chrono::DateTime::from_timestamp_micros(visible_at).is_some(), counts);
    }
}

#[test]
fn a_dead_job_is_set_aside_until_it_is_redriven() {
    let mut queue = queue_of(&[1, 2]);
    queue.apply(&lease(1, 100, 50));
    queue.apply(&Record::DeadLettered { job_id: 1, delivery_id: 100 });
    assert_eq!(queue.dead_ids(), vec![1]);
    assert_eq!(queue.ready_ids(), vec![2]);
    let dead = queue.dead_jobs();
    assert_eq!(dead.len(), 1);
    assert_eq!(
        (dead[0].job_id, dead[0].payload.as_str(), dead[0].retries, dead[0].created_at),
        (1, "job-1", 1, 1)
    );
    assert_eq!(queue.depth(), 2, "a dead job is still held");

    queue.apply(&Record::Redriven { job_id: 1 });
    assert!(queue.dead_ids().is_empty());
    assert_eq!(queue.ready_ids(), vec![2, 1]);
    assert_eq!(queue.retries_of(1), Some(0));
}

#[test]
fn a_dead_job_that_is_acknowledged_is_no_longer_listed() {
    let mut queue = queue_of(&[1]);
    queue.apply(&lease(1, 100, 50));
    queue.apply(&Record::DeadLettered { job_id: 1, delivery_id: 100 });
    queue.apply(&Record::Acked { job_id: 1, delivery_id: 100 });
    assert_eq!(queue.dead_ids(), vec![1]);
    assert!(queue.dead_jobs().is_empty());
}

#[test]
fn records_about_unknown_jobs_are_harmless() {
    let mut queue = QueueState::new();
    queue.apply(&Record::Retried { job_id: 9, delivery_id: 1 });
    assert_eq!(queue.peek_ready(), Some((9, 0)));
    queue.apply(&Record::Acked { job_id: 9, delivery_id: 1 });
    queue.apply(&Record::DeadLettered { job_id: 9, delivery_id: 1 });
    assert_eq!((queue.depth(), queue.dead_ids(), queue.dead_jobs().len()), (0, vec![9], 0));
}

#[test]
fn replicas_fed_the_same_records_agree() {
    let records = vec![
        enqueued(1),
        enqueued(2),
        lease(1, 100, 50),
        Record::Retried { job_id: 1, delivery_id: 100 },
        lease(2, 101, 60),
        Record::DeadLettered { job_id: 2, delivery_id: 101 },
        enqueued(3),
        Record::Redriven { job_id: 2 },
        lease(3, 102, 70),
        Record::Acked { job_id: 3, delivery_id: 102 },
    ];
    let mut a = QueueState::new();
    let mut b = QueueState::new();
    for record in &records {
        a.apply(record);
    }
    for record in &records {
        b.apply(&record.clone());
    }
    assert_eq!(a.ready_ids(), vec![1, 2]);
    assert_eq!(a.ready_ids(), b.ready_ids());
    assert_eq!(a.dead_ids(), b.dead_ids());
    assert_eq!(a.depth(), b.depth());
    assert_eq!((a.retries_of(1), a.retries_of(2)), (Some(1), Some(0)));
    assert_eq!((b.retries_of(1), b.retries_of(2)), (Some(1), Some(0)));
}

#[test]
fn a_reused_delivery_leaves_no_stale_timer() {
    let mut leases = InvisibleQueue::new();
    leases.insert(1, 100, 50);
    leases.insert(2, 100, 90);
    assert_eq!(leases.job_of(100), Some(2));
    assert_eq!(leases.peek_expired(60), None, "the first lease is over");
    assert_eq!(leases.peek_expired(90), Some((2, 100)));
    assert_eq!(leases.remove(100), Some(2));
    assert_eq!(leases.remove(100), None);
    assert_eq!(leases.peek_expired(i64::MAX), None);
}

#[test]
fn a_job_can_be_set_aside_directly() {
    let mut queue = QueueState::new();
    let job: Job = Job::new("dead".to_string());
    let id = job.id();
    queue.insert_dead_for_test(job);
    assert_eq!(queue.dead_ids(), vec![id]);
    assert_eq!(queue.dead_jobs()[0].payload, "dead");
}

#[test]
fn a_queue_can_be_filled() {
    let mut queue = queue_of(&[1]);
    queue.fill_for_test(25);
    assert_eq!(queue.depth(), 26);
    assert_eq!(queue.ready_ids(), vec![1]);
    queue.fill_for_test(0);
    assert_eq!(queue.depth(), 26);
}

#[test]
fn fresh_jobs_are_random_and_ready() {
    let a: Job = Job::new("a".to_string());
    let b: Job = Job::new("a".to_string());
    assert_ne!(a.id(), b.id());
    assert!(a != b);
    assert_eq!(a.payload(), "a");
    assert_eq!(*a.state(), JobState::READY);
    assert_eq!((a.retries(), a.retry_time_s()), (0, 1));
    assert!(a.created_at() > 1_600_000_000_000_000);
    let id = uuid::Uuid::from_u128(a.id());
    assert_eq!(id.get_version_num(), 4);
}

#[test]
fn jobs_are_equal_and_hash_alike_by_identifier() {
    let mut a = Job::fresh(7, "a".to_string(), 1);
    let b = Job::fresh(7, "b".to_string(), 2);
    assert!(a == b);
    let hash = |job: &Job| {
        let mut hasher = DefaultHasher::new();
        job.hash(&mut hasher);
        hasher.finish()
    };
    assert_eq!(hash(&a), hash(&b));
    a.set_id(8).set_state(JobState::DLQ).set_retries(3).set_retry_time_s(4).set_created_at(5);
    assert!(a != b);
    assert_eq!(
        (a.id(), *a.state(), a.retries(), a.retry_time_s(), a.created_at()),
        (8, JobState::DLQ, 3, 4, 5)
    );
    assert_ne!(hash(&a), hash(&b));
    assert_eq!(a.clone().payload(), "a");
}
