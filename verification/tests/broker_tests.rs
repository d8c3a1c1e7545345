use ferroqueue::broker::{
    ack, deliver, dequeue, enqueue, enqueue_as, expire, lease_as, list_dlq, propose_error,
    redrive_dlq, sweep_expired_leases, Code, Dequeue,
};
use ferroqueue::clock::{timestamp, Timestamp};
use ferroqueue::job::{Job, New};
use ferroqueue::raft::{ElectionStep, Node, ProposeError};
use ferroqueue::state::{QueueState, Record, MAX_QUEUE_DEPTH, MAX_RETRIES};

const FIRST: &str = "00000000-0000-0000-0000-000000000001";
const SECOND: &str = "00000000-0000-0000-0000-000000000002";

fn enqueued(n: u128) -> Record {
    Record::Enqueued { job_id: n, payload: format!("job-{n}"), created_at: 1_500_000 }
}

fn queue_of(ids: &[u128]) -> QueueState {
    let mut queue = QueueState::new();
    for id in ids {
        queue.apply(&enqueued(*id));
    }
    queue
}

#[test]
fn failed_proposals_are_explained() {
    let cases = vec![
        (
            ProposeError::NotLeader(Some(1)),
            Code::FailedPrecondition,
            format!("Not the leader; try {FIRST}"),
        ),
        (
            ProposeError::NotLeader(None),
            Code::Unavailable,
            "No leader elected; retry shortly".to_string(),
        ),
        (
            ProposeError::LostLeadership,
            Code::Unavailable,
            "Leadership changed before the write committed; retry".to_string(),
        ),
        (
            ProposeError::Storage("disk full".to_string()),
            Code::Internal,
            "Log write failed: disk full".to_string(),
        ),
    ];
    for (e, code, message) in cases {
        let rejection = propose_error(e);
        assert_eq!(rejection.code, code);
        assert_eq!(rejection.message, message);
    }
}

#[test]
fn a_job_is_taken_in_under_its_identifier() {
    let queue = QueueState::new();
    let taken = enqueue_as(&queue, "p".to_string(), 2, 9).unwrap();
    assert_eq!(taken.job_id, SECOND);
    assert_eq!(
        taken.record,
        Record::Enqueued { job_id: 2, payload: "p".to_string(), created_at: 9 }
    );

    let a = enqueue(&queue, "p".to_string()).unwrap();
    let b = enqueue(&queue, "p".to_string()).unwrap();
    assert_ne!(a.job_id, b.job_id);
    match a.record {
        Record::Enqueued { job_id, payload, created_at } => {
            assert_eq!(uuid::Uuid::from_u128(job_id).to_string(), a.job_id);
            assert_eq!(payload, "p");
            assert!(created_at > 1_600_000_000_000_000);
        }
        other => panic!("not a new job: {other:?}"),
    }
}

#[test]
fn a_full_queue_rejects_producers() {
    let mut queue = QueueState::new();
    queue.fill_for_test(MAX_QUEUE_DEPTH - 1);
    assert!(enqueue(&queue, "p".to_string()).is_ok());
    queue.fill_for_test(1);
    let rejection = enqueue(&queue, "p".to_string()).unwrap_err();
    assert_eq!(rejection.code, Code::ResourceExhausted);
    assert_eq!(
        rejection.message,
        "Queue is full: 10000 unacknowledged jobs (limit 10000)"
    );
    // Dead jobs count too.
    queue.insert_dead_for_test(Job::new("dead".to_string()));
    let rejection = enqueue_as(&queue, "p".to_string(), 1, 1).unwrap_err();
    assert_eq!(
        rejection.message,
        "Queue is full: 10001 unacknowledged jobs (limit 10000)"
    );
}

#[test]
fn a_lease_lasts_as_long_as_the_failures_ask_for() {
    let mut queue = queue_of(&[1]);
    for (retries, seconds) in [5, 10, 20, 40].iter().enumerate() {
        match lease_as(&queue, 50, 1_000) {
            Dequeue::Leased(lease) => {
                assert_eq!((lease.job_id, lease.delivery_id), (1, 50));
                assert_eq!(
                    lease.record,
                    Record::Leased {
                        job_id: 1,
                        delivery_id: 50,
                        visible_at: 1_000 + seconds * 1_000_000,
                    }
                );
                queue.apply(&lease.record);
            }
            other => panic!("a job waits: {other:?}"),
        }
        queue.apply(&Record::Retried { job_id: 1, delivery_id: 50 });
        assert_eq!(queue.retries_of(1), Some(retries as i32 + 1));
    }
}

#[test]
fn an_empty_queue_has_nothing_to_lease() {
    let queue = QueueState::new();
    assert!(matches!(lease_as(&queue, 50, 0), Dequeue::Empty));
    assert!(matches!(dequeue(&queue), Dequeue::Empty));
}

#[test]
fn a_lease_ends_on_the_calendar() {
    let queue = queue_of(&[1]);
    let latest = ferroqueue::clock::MAX_MICROS;
    assert!(matches!(lease_as(&queue, 50, latest - 5_000_000), Dequeue::Leased(_)));
    assert!(matches!(lease_as(&queue, 50, latest - 4_999_999), Dequeue::OffCalendar));
}

#[test]
fn the_job_that_waits_longest_is_leased_from_now_on() {
    let queue = queue_of(&[1, 2]);
    let before = chrono::Utc::now().timestamp_micros();
    match dequeue(&queue) {
        Dequeue::Leased(lease) => {
            let after = chrono::Utc::now().timestamp_micros();
            assert_eq!(lease.job_id, 1);
            match lease.record {
                Record::Leased { job_id, delivery_id, visible_at } => {
                    assert_eq!((job_id, delivery_id), (1, lease.delivery_id));
                    assert!(before + 5_000_000 <= visible_at);
                    assert!(visible_at <= after + 5_000_000);
                }
                other => panic!("not a lease: {other:?}"),
            }
        }
        other => panic!("a job waits: {other:?}"),
    }
}

#[test]
fn a_delivery_shows_the_job() {
    let queue = queue_of(&[1]);
    let delivery = deliver(&queue, 1, 2).unwrap();
    assert_eq!(delivery.job_id, FIRST);
    assert_eq!(delivery.delivery_id, SECOND);
    assert_eq!(delivery.payload, "job-1");
    assert_eq!(delivery.created_at, Timestamp { seconds: 1, nanos: 500_000_000 });
    assert!(deliver(&queue, 9, 2).is_none());
}

#[test]
fn times_before_1970_round_down() {
    assert_eq!(timestamp(0), Timestamp { seconds: 0, nanos: 0 });
    assert_eq!(timestamp(-1), Timestamp { seconds: -1, nanos: 999_999_000 });
    assert_eq!(timestamp(-1_000_000), Timestamp { seconds: -1, nanos: 0 });
    for micros in [-8_334_601_228_800_000_000, -1_234_567, 1_234_567, 8_210_266_876_799_999_999] {
        let date = chrono::DateTime::from_timestamp_micros(micros).unwrap();
        let expected = Timestamp {
            seconds: date.timestamp(),
            nanos: date.timestamp_subsec_nanos() as i32,
        };
        assert_eq!(timestamp(micros), expected);
    }
}

#[test]
fn a_delivery_is_acknowledged_while_its_lease_lasts() {
    let mut queue = queue_of(&[1]);
    queue.apply(&Record::Leased { job_id: 1, delivery_id: 2, visible_at: 10 });
    assert_eq!(ack(&queue, SECOND).unwrap(), Record::Acked { job_id: 1, delivery_id: 2 });
    assert_eq!(
        ack(&queue, "{00000000-0000-0000-0000-000000000002}").unwrap(),
        Record::Acked { job_id: 1, delivery_id: 2 }
    );

    let unknown = ack(&queue, FIRST).unwrap_err();
    assert_eq!(unknown.code, Code::NotFound);
    assert_eq!(unknown.message, "No such delivery; it may have expired");
    let invalid = ack(&queue, "2").unwrap_err();
    assert_eq!(invalid.code, Code::InvalidArgument);
    assert_eq!(invalid.message, "Invalid delivery ID");

    queue.apply(&Record::Retried { job_id: 1, delivery_id: 2 });
    assert_eq!(ack(&queue, SECOND).unwrap_err().code, Code::NotFound);
}

fn with_dead(ids: &[u128]) -> QueueState {
    let mut queue = queue_of(ids);
    for id in ids {
        queue.apply(&Record::Leased { job_id: *id, delivery_id: 100 + id, visible_at: 1 });
        queue.apply(&Record::DeadLettered { job_id: *id, delivery_id: 100 + id });
    }
    queue
}

#[test]
fn dead_jobs_are_listed_longest_first() {
    let queue = with_dead(&[2, 1]);
    let listed = list_dlq(&queue);
    assert_eq!(listed.len(), 2);
    assert_eq!(listed[0].job_id, SECOND);
    assert_eq!(listed[0].payload, "job-2");
    assert_eq!(listed[0].retries, 1);
    assert_eq!(listed[0].created_at, Timestamp { seconds: 1, nanos: 500_000_000 });
    assert_eq!(listed[1].job_id, FIRST);
    assert!(list_dlq(&QueueState::new()).is_empty());
}

#[test]
fn named_dead_jobs_are_redriven_and_all_if_none_is_named() {
    let queue = with_dead(&[2, 1]);
    let all = redrive_dlq(&queue, &vec![]).unwrap();
    assert_eq!(all.len(), 2);
    assert_eq!((all[0].job_id.as_str(), all[1].job_id.as_str()), (SECOND, FIRST));
    assert_eq!(all[0].record, Record::Redriven { job_id: 2 });

    let one = redrive_dlq(&queue, &vec![FIRST.to_string()]).unwrap();
    assert_eq!(one.len(), 1);
    assert_eq!(one[0].record, Record::Redriven { job_id: 1 });

    let unknown = "00000000-0000-0000-0000-000000000009".to_string();
    assert!(redrive_dlq(&queue, &vec![unknown]).unwrap().is_empty());

    let rejection =
        redrive_dlq(&queue, &vec![FIRST.to_string(), "nobody".to_string()]).unwrap_err();
    assert_eq!(rejection.code, Code::InvalidArgument);
    assert_eq!(rejection.message, "Invalid job ID");
}

#[test]
fn the_last_permitted_failure_sets_a_job_aside() {
    let mut queue = queue_of(&[1]);
    for failure in 1..=MAX_RETRIES {
        queue.apply(&Record::Leased { job_id: 1, delivery_id: 2, visible_at: 10 });
        assert_eq!(expire(&queue, 9), None);
        let record = expire(&queue, 10).unwrap();
        if failure < MAX_RETRIES {
            assert_eq!(record, Record::Retried { job_id: 1, delivery_id: 2 });
        } else {
            assert_eq!(record, Record::DeadLettered { job_id: 1, delivery_id: 2 });
        }
        queue.apply(&record);
        assert_eq!(queue.retries_of(1), Some(failure));
        assert_eq!(expire(&queue, i64::MAX), None);
    }
    assert_eq!(queue.dead_ids(), vec![1]);
    assert!(queue.ready_ids().is_empty());
}

#[test]
fn only_a_leader_sweeps() {
    let start = 1_000_000_000;
    let mut queue = queue_of(&[1]);
    queue.apply(&Record::Leased { job_id: 1, delivery_id: 2, visible_at: 10 });
    let mut node = Node::restore(1, 9, vec![], queue, None, &[], 1, start).unwrap();
    assert_eq!(sweep_expired_leases(&node), None);
    node.campaign(1, start);
    match node.campaign_kept(start) {
        ElectionStep::Lead(write) => {
            node.led(Some(write));
        }
        other => panic!("there is nobody to ask: {other:?}"),
    }
    let record = sweep_expired_leases(&node).expect("the lease ended long ago");
    assert_eq!(record, Record::Retried { job_id: 1, delivery_id: 2 });
    let write = node.propose(record).unwrap();
    node.proposed(write, 1);
    assert_eq!(sweep_expired_leases(&node), None);
    assert_eq!(node.state().ready_ids(), vec![1]);
}

#[test]
fn a_job_that_nobody_acknowledges_is_delivered_ten_times() {
    let mut queue = queue_of(&[1, 2]);
    let mut now = 0;
    let mut delivery_id = 100;
    let mut deliveries = [0, 0];
    loop {
        delivery_id += 1;
        match lease_as(&queue, delivery_id, now) {
            Dequeue::Leased(lease) => {
                deliveries[lease.job_id as usize - 1] += 1;
                queue.apply(&lease.record);
            }
            Dequeue::Empty => break,
            Dequeue::OffCalendar => panic!("the calendar goes on for long"),
        }
        now += 1_000_000_000;
        while let Some(record) = expire(&queue, now) {
            queue.apply(&record);
        }
    }
    assert_eq!(deliveries, [10, 10]);
    assert_eq!(queue.dead_ids().len(), 2);
    assert_eq!((queue.retries_of(1), queue.retries_of(2)), (Some(10), Some(10)));
    assert_eq!(queue.depth(), 2, "both are still held");
}
