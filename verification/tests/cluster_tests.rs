//! Cluster behaviour, exercised over direct calls so partitions and failures are
//! deterministic rather than a matter of timing luck.

use ferroqueue::ids::derive_id;
use ferroqueue::log::Append;
use ferroqueue::raft::{Action, ElectionStep, Node, ProposeError, Role, VoteStep};
use ferroqueue::state::{QueueState, Record};
use ferroqueue::transport::{MemoryCluster, NodeId};

/// Generous relative to an election timeout of 150 to 300 ms.
const SETTLE: u64 = 5_000_000_000;
const TICK: u64 = 20_000_000;

struct Member {
    node: Node,
    hard_state: Option<Vec<u8>>,
    log: Vec<u8>,
    done: Vec<u64>,
    lost: Vec<u64>,
    /// Whether the log's file can be cut.
    can_cut: bool,
}

struct Cluster {
    links: MemoryCluster,
    members: Vec<Member>,
    now: u64,
    next_ticket: u64,
}

fn id_for(name: &str, i: usize) -> NodeId {
    derive_id(&format!("{name}-{i}"))
}

fn enqueued(n: u128) -> Record {
    Record::Enqueued { job_id: n, payload: format!("job-{n}"), created_at: n as i64 }
}

impl Cluster {
    fn new(name: &str, size: usize) -> Self {
        let mut links = MemoryCluster::new();
        let cluster_id = derive_id(name);
        let ids: Vec<NodeId> = (0..size).map(|i| id_for(name, i)).collect();
        let now = 1_000_000_000;
        let mut members = Vec::new();
        for id in &ids {
            let state = QueueState::default();
            let node = Node::open(*id, cluster_id, ids.clone(), state, None, &[], now)
                .expect("node should open");
            links.register(node.id());
            assert_eq!(node.cluster_id(), cluster_id);
            assert_eq!(node.peers().len(), size - 1);
            members.push(Member {
                node,
                hard_state: None,
                log: Vec::new(),
                done: Vec::new(),
                lost: Vec::new(),
                can_cut: true,
            });
        }
        Cluster { links, members, now, next_ticket: 1 }
    }

    fn position(&self, id: NodeId) -> usize {
        self.members.iter().position(|m| m.node.id() == id).unwrap()
    }

    fn route(&self, from: NodeId, to: NodeId) -> Option<usize> {
        self.links.route(from, to).map(|id| self.position(id))
    }

    fn write(&mut self, i: usize, write: &Append) {
        let bytes = write.bytes().to_vec();
        self.members[i].log.extend_from_slice(&bytes);
    }

    fn election_step(&mut self, i: usize, step: ElectionStep) {
        match step {
            ElectionStep::Nothing => {}
            ElectionStep::Persist(bytes) => {
                self.members[i].hard_state = Some(bytes);
                self.members[i].node.term_kept();
            }
            ElectionStep::Lead(write) => {
                self.write(i, &write);
                let done = self.members[i].node.led(Some(write));
                self.members[i].done.extend(done);
            }
            ElectionStep::Request(req) => {
                let from = self.members[i].node.id();
                let peers = self.members[i].node.peers().clone();
                for peer in peers {
                    let Some(to) = self.route(from, peer) else { continue };
                    let now = self.now;
                    let resp = match self.members[to].node.handle_request_vote(&req, now) {
                        VoteStep::Reply(resp) => resp,
                        VoteStep::Persist(bytes) => {
                            self.members[to].hard_state = Some(bytes);
                            self.members[to].node.vote_kept(true, now)
                        }
                    };
                    let step = self.members[i].node.on_vote(peer, req.term, resp, now);
                    self.election_step(i, step);
                }
            }
        }
    }

    fn round(&mut self, i: usize) {
        let now = self.now;
        let round = self.members[i].node.run(now);
        self.members[i].lost.extend(round.lost);
        match round.action {
            Action::Nothing => {}
            Action::Campaign => {
                let bytes = self.members[i].node.start_election(now);
                self.members[i].hard_state = Some(bytes);
                let step = self.members[i].node.campaign_kept(now);
                self.election_step(i, step);
            }
            Action::Replicate(requests) => {
                let from = self.members[i].node.id();
                for (peer, req) in requests {
                    let resp = self.route(from, peer).and_then(|to| self.deliver(to, &req));
                    self.members[i].node.request_done(peer);
                    if let Some(resp) = resp {
                        let progress =
                            self.members[i].node.on_append_response(peer, req.term, resp, now);
                        if let Some(bytes) = progress.hard_state {
                            self.members[i].hard_state = Some(bytes);
                            self.members[i].node.term_kept();
                        }
                        self.members[i].done.extend(progress.done);
                    }
                }
            }
        }
    }

    fn deliver(
        &mut self,
        to: usize,
        req: &ferroqueue::raft::AppendEntriesRequest,
    ) -> Option<ferroqueue::raft::AppendEntriesResponse> {
        let now = self.now;
        let member = &mut self.members[to];
        let heard = member.node.handle_append_entries(req, now);
        if let Some(bytes) = heard.keep {
            member.hard_state = Some(bytes);
            member.node.term_kept();
        }
        let incoming = match heard.decision {
            Ok(incoming) => incoming,
            Err(resp) => return Some(resp),
        };
        if let Some(len) = member.node.cut_to(&incoming) {
            if !member.can_cut {
                return None;
            }
            member.log.truncate(len as usize);
        }
        let lost = member.node.truncated(&incoming);
        member.lost.extend(lost);
        let write = member.node.incoming_write(&incoming);
        member.log.extend_from_slice(write.bytes());
        let (resp, done) = member.node.accepted(incoming, write);
        member.done.extend(done);
        Some(resp)
    }

    fn tick(&mut self) {
        self.now += TICK;
        for i in 0..self.members.len() {
            self.round(i);
            assert_eq!(self.members[i].node.log_bytes(), self.members[i].log.len() as u64);
        }
    }

    /// Runs until exactly one of `candidates` leads.
    fn wait_for_leader(&mut self, candidates: &[usize]) -> usize {
        let deadline = self.now + SETTLE;
        while self.now < deadline {
            self.tick();
            let leaders: Vec<usize> =
                candidates.iter().copied().filter(|i| self.members[*i].node.is_leader()).collect();
            if leaders.len() == 1 {
                return leaders[0];
            }
        }
        panic!("no single leader emerged");
    }

    fn wait_until<F: Fn(&Cluster) -> bool>(&mut self, what: &str, condition: F) {
        let deadline = self.now + SETTLE;
        while self.now < deadline {
            if condition(self) {
                return;
            }
            self.tick();
        }
        panic!("timed out waiting for {what}");
    }

    /// Proposes a record and runs until it is committed or lost.
    fn propose(&mut self, i: usize, record: Record) -> Result<(), ProposeError> {
        let write = self.members[i].node.propose(record)?;
        self.write(i, &write);
        let ticket = self.next_ticket;
        self.next_ticket += 1;
        let done = self.members[i].node.proposed(write, ticket);
        self.members[i].done.extend(done);
        let deadline = self.now + SETTLE;
        while self.now < deadline {
            if self.members[i].done.contains(&ticket) {
                return Ok(());
            }
            if self.members[i].lost.contains(&ticket) {
                return Err(ProposeError::LostLeadership);
            }
            self.tick();
        }
        panic!("propose hung instead of failing");
    }

    fn ready(&self, i: usize) -> Vec<u128> {
        self.members[i].node.state().ready_ids()
    }
}

#[test]
fn single_node_commits_on_its_own_fsync() {
    let mut cluster = Cluster::new("single", 1);
    let node = cluster.wait_for_leader(&[0]);

    cluster.propose(node, enqueued(1)).expect("a one-member cluster is its own majority");

    assert_eq!(cluster.ready(node).len(), 1);
    let node = &cluster.members[node].node;
    assert_eq!(node.commit_index(), node.last_index());
}

#[test]
fn elects_exactly_one_leader() {
    let mut cluster = Cluster::new("elect", 3);
    let leader = cluster.wait_for_leader(&[0, 1, 2]);

    let term = cluster.members[leader].node.term();
    let mut leaders_in_term = 0;
    for member in &cluster.members {
        if member.node.role() == Role::Leader && member.node.term() == term {
            leaders_in_term += 1;
        }
        // Everyone should have converged on the same term.
        assert_eq!(member.node.term(), term, "term disagreement across the cluster");
    }
    assert_eq!(leaders_in_term, 1, "two leaders in one term is a split brain");
}

#[test]
fn replicates_committed_entries_to_every_follower() {
    let mut cluster = Cluster::new("replicate", 3);
    let leader = cluster.wait_for_leader(&[0, 1, 2]);

    for i in 1..=5 {
        cluster.propose(leader, enqueued(i)).expect("leader should commit");
    }

    let expected = cluster.ready(leader);
    assert_eq!(expected.len(), 5);

    for i in 0..3 {
        let expected = expected.clone();
        cluster.wait_until("followers to converge", |c| c.ready(i) == expected);
    }
}

#[test]
fn a_new_leader_takes_over_when_the_old_one_is_isolated() {
    let mut cluster = Cluster::new("failover", 3);
    let old_leader = cluster.wait_for_leader(&[0, 1, 2]);
    let old_term = cluster.members[old_leader].node.term();
    let old_id = cluster.members[old_leader].node.id();

    cluster.links.isolate(old_id);

    let survivors: Vec<usize> = (0..3).filter(|i| *i != old_leader).collect();
    let new_leader = cluster.wait_for_leader(&survivors);

    assert_ne!(cluster.members[new_leader].node.id(), old_id);
    assert!(
        cluster.members[new_leader].node.term() > old_term,
        "a new leader must run in a later term than the one it replaced"
    );

    // The new majority can still make progress.
    cluster.propose(new_leader, enqueued(99)).expect("the remaining majority should commit");
}

#[test]
fn an_isolated_leader_cannot_commit() {
    let mut cluster = Cluster::new("noquorum", 3);
    let leader = cluster.wait_for_leader(&[0, 1, 2]);
    let id = cluster.members[leader].node.id();

    cluster.links.isolate(id);

    // Cut off from its followers it has no majority, so this must fail rather
    // than commit or hang.
    match cluster.propose(leader, enqueued(7)) {
        Err(ProposeError::LostLeadership) | Err(ProposeError::NotLeader(_)) => {}
        Ok(()) => panic!("an isolated leader committed a write without a quorum"),
        Err(other) => panic!("unexpected error: {other:?}"),
    }
}

#[test]
fn a_partitioned_follower_catches_up_after_healing() {
    let mut cluster = Cluster::new("catchup", 3);
    let leader = cluster.wait_for_leader(&[0, 1, 2]);

    let follower =
        (0..3).find(|i| *i != leader).expect("three nodes means there is a follower");
    let follower_id = cluster.members[follower].node.id();

    cluster.links.isolate(follower_id);

    for i in 1..=4 {
        cluster.propose(leader, enqueued(i)).expect("the other two are still a majority");
    }
    assert!(
        cluster.ready(follower).len() < 4,
        "the isolated follower should have missed entries"
    );

    cluster.links.heal(follower_id);

    let expected = cluster.ready(leader);
    cluster.wait_until("the healed follower to catch up", |c| c.ready(follower) == expected);
}

#[test]
fn a_lone_node_cannot_elect_itself_in_a_three_node_cluster() {
    let mut cluster = Cluster::new("minority", 3);
    let leader = cluster.wait_for_leader(&[0, 1, 2]);

    // Pick a node that is not the leader and cut it off. On its own it is a
    // minority of one and must never win an election, however long it tries.
    let lone = (0..3).find(|i| *i != leader).unwrap();
    let lone_id = cluster.members[lone].node.id();
    cluster.links.isolate(lone_id);

    let deadline = cluster.now + 2_000_000_000;
    while cluster.now < deadline {
        cluster.tick();
        assert_ne!(
            cluster.members[lone].node.role(),
            Role::Leader,
            "one node out of three is not a majority"
        );
    }
    assert!(
        cluster.members[lone].node.term() > 0,
        "it should have kept campaigning, just never won"
    );
}

#[test]
fn a_restarted_member_rebuilds_its_queue_from_its_log() {
    let mut cluster = Cluster::new("restart", 1);
    cluster.wait_for_leader(&[0]);
    for i in 1..=3 {
        cluster.propose(0, enqueued(i)).unwrap();
    }
    let expected = cluster.ready(0);
    let term = cluster.members[0].node.term();
    let id = cluster.members[0].node.id();
    let cluster_id = cluster.members[0].node.cluster_id();

    let hard_state = cluster.members[0].hard_state.clone();
    let node = Node::open(
        id,
        cluster_id,
        vec![id],
        QueueState::default(),
        hard_state.as_deref(),
        &cluster.members[0].log,
        cluster.now,
    )
    .unwrap();
    assert_eq!(node.term(), term);
    assert_eq!(node.last_index(), 4, "the opening entry and the three proposals");
    assert_eq!(node.commit_index(), 0);
    assert_eq!(node.state().ready_ids(), Vec::<u128>::new());
    cluster.members[0].node = node;

    let leader = cluster.wait_for_leader(&[0]);
    assert_eq!(cluster.ready(leader), expected);
    assert!(cluster.members[0].node.term() > term);
}

#[test]
fn a_diverging_follower_is_brought_back() {
    let mut cluster = Cluster::new("diverge", 3);
    let old_leader = cluster.wait_for_leader(&[0, 1, 2]);
    cluster.propose(old_leader, enqueued(1)).unwrap();
    let old_id = cluster.members[old_leader].node.id();

    // The old leader writes entries that nobody else sees.
    cluster.links.isolate(old_id);
    for i in 10..=12 {
        let write = cluster.members[old_leader].node.propose(enqueued(i)).unwrap();
        cluster.write(old_leader, &write);
        cluster.members[old_leader].node.proposed(write, 1000 + i as u64);
    }
    let survivors: Vec<usize> = (0..3).filter(|i| *i != old_leader).collect();
    let new_leader = cluster.wait_for_leader(&survivors);
    cluster.propose(new_leader, enqueued(2)).unwrap();
    cluster.wait_until("the old leader to stand down", |c| {
        !c.members[old_leader].node.is_leader()
    });

    cluster.links.heal(old_id);
    let expected = cluster.ready(new_leader);
    assert_eq!(expected, vec![1, 2]);
    cluster.wait_until("the old leader to follow", |c| c.ready(old_leader) == expected);
    assert_eq!(cluster.members[old_leader].lost, vec![1010, 1011, 1012]);
}

#[test]
fn a_proposal_that_is_overwritten_is_lost_and_never_done() {
    let mut cluster = Cluster::new("overwrite", 3);
    let old_leader = cluster.wait_for_leader(&[0, 1, 2]);
    cluster.propose(old_leader, enqueued(1)).unwrap();
    let old_id = cluster.members[old_leader].node.id();
    let done_before = cluster.members[old_leader].done.clone();

    // The old leader writes entries that nobody else sees, and has not noticed
    // yet that it is alone.
    cluster.links.isolate(old_id);
    for i in 10..=12 {
        let write = cluster.members[old_leader].node.propose(enqueued(i)).unwrap();
        cluster.write(old_leader, &write);
        assert!(cluster.members[old_leader].node.proposed(write, 1000 + i as u64).is_empty());
    }

    // Meanwhile the others go on without it, over the same indices and beyond.
    let survivors: Vec<usize> = (0..3).filter(|i| *i != old_leader).collect();
    let candidate = survivors[0];
    let now = cluster.now;
    let bytes = cluster.members[candidate].node.start_election(now);
    cluster.members[candidate].hard_state = Some(bytes);
    let step = cluster.members[candidate].node.campaign_kept(now);
    cluster.election_step(candidate, step);
    assert!(cluster.members[candidate].node.is_leader());
    for i in 20..=24 {
        let write = cluster.members[candidate].node.propose(enqueued(i)).unwrap();
        cluster.write(candidate, &write);
        let done = cluster.members[candidate].node.proposed(write, 2000 + i as u64);
        cluster.members[candidate].done.extend(done);
    }
    for _ in 0..3 {
        cluster.round(candidate);
    }
    assert_eq!(cluster.ready(candidate), vec![1, 20, 21, 22, 23, 24]);
    assert!(cluster.members[old_leader].node.is_leader(), "it has not stood down yet");

    // The link heals before the old leader stands down.
    cluster.links.heal(old_id);
    cluster.wait_until("the old leader to follow", |c| c.ready(old_leader) == c.ready(candidate));
    assert_eq!(cluster.members[old_leader].lost, vec![1010, 1011, 1012]);
    assert_eq!(cluster.members[old_leader].done, done_before, "none of them was committed");
    assert_eq!(cluster.members[candidate].done.len(), 5);
}

#[test]
fn a_member_restarts_in_the_term_that_it_heard_of_from_a_leader() {
    let mut cluster = Cluster::new("heard", 3);
    let old_leader = cluster.wait_for_leader(&[0, 1, 2]);
    let old_id = cluster.members[old_leader].node.id();
    cluster.links.isolate(old_id);
    let survivors: Vec<usize> = (0..3).filter(|i| *i != old_leader).collect();
    let new_leader = cluster.wait_for_leader(&survivors);
    let term = cluster.members[new_leader].node.term();
    let new_id = cluster.members[new_leader].node.id();
    cluster.links.heal(old_id);
    cluster.wait_until("the old leader to follow", |c| {
        c.members[old_leader].node.leader() == Some(new_id)
    });

    let member = &cluster.members[old_leader];
    let restarted = Node::open(
        old_id,
        member.node.cluster_id(),
        vec![],
        QueueState::default(),
        member.hard_state.as_deref(),
        &member.log,
        cluster.now,
    )
    .unwrap();
    assert_eq!(restarted.term(), member.node.term());
    assert!(restarted.term() >= term);
}

#[test]
fn a_follower_that_cannot_cut_its_log_is_not_counted() {
    let mut cluster = Cluster::new("uncut", 3);
    let old_leader = cluster.wait_for_leader(&[0, 1, 2]);
    for i in 1..=100 {
        cluster.propose(old_leader, enqueued(i)).unwrap();
    }
    let old_id = cluster.members[old_leader].node.id();

    // The old leader writes entries that nobody else sees.
    cluster.links.isolate(old_id);
    for i in 201..=205 {
        let write = cluster.members[old_leader].node.propose(enqueued(i)).unwrap();
        cluster.write(old_leader, &write);
        cluster.members[old_leader].node.proposed(write, 1000 + i as u64);
    }
    let survivors: Vec<usize> = (0..3).filter(|i| *i != old_leader).collect();
    cluster.wait_for_leader(&survivors);

    // It comes back with a file that cannot be cut, and stays behind for long.
    cluster.members[old_leader].can_cut = false;
    let kept = cluster.members[old_leader].node.last_index();
    cluster.links.heal(old_id);
    for _ in 0..200 {
        cluster.tick();
        assert!(!cluster.members[old_leader].node.is_leader(), "its log is out of date");
        assert_eq!(cluster.members[old_leader].node.last_index(), kept);
    }
    let leader = cluster.wait_for_leader(&survivors);
    let other = *survivors.iter().find(|i| **i != leader).unwrap();

    // With the third member away it is no part of a majority.
    let other_id = cluster.members[other].node.id();
    cluster.links.isolate(other_id);
    let ticket = 5000;
    let write = cluster.members[leader].node.propose(enqueued(300)).unwrap();
    cluster.write(leader, &write);
    assert!(cluster.members[leader].node.proposed(write, ticket).is_empty());
    for _ in 0..10 {
        cluster.tick();
        assert!(!cluster.members[leader].done.contains(&ticket), "nobody else holds it");
    }

    // Once its log can be cut, everyone comes back in step.
    cluster.members[old_leader].can_cut = true;
    cluster.links.heal(other_id);
    let mut leader = cluster.wait_for_leader(&[0, 1, 2]);
    while cluster.propose(leader, enqueued(400)).is_err() {
        leader = cluster.wait_for_leader(&[0, 1, 2]);
    }
    let expected = cluster.ready(leader);
    for i in 0..3 {
        cluster.wait_until("everyone to converge", |c| c.ready(i) == expected);
    }
    assert!(!expected.contains(&201));
}
