use ferroqueue::ids::derive_id;
use ferroqueue::log::{encode_entry, EntryPayload, LogEntry};
use ferroqueue::raft::{
    check_identity, random_election_timeout, Action, AppendEntriesRequest, AppendEntriesResponse,
    ElectionStep, HardState, Identity, Node, OpenError, ProposeError, RequestVoteRequest,
    RequestVoteResponse, Role, VoteStep,
};
use ferroqueue::state::{QueueState, Record};

const MS: u64 = 1_000_000;
const START: u64 = 1_000_000_000;

fn member(id: u128, peers: Vec<u128>) -> Node {
    Node::restore(id, 9, peers, QueueState::default(), None, &[], 150 * MS, START).unwrap()
}

fn text(id: u128) -> String {
    uuid::Uuid::from_u128(id).to_string()
}

fn entry(term: u64, index: u64) -> LogEntry {
    LogEntry {
        term,
        index,
        payload: EntryPayload::Queue(Record::Enqueued {
            job_id: (term * 100 + index) as u128,
            payload: format!("job-{index}"),
            created_at: 0,
        }),
    }
}

fn append(term: u64, prev: (u64, u64), entries: &[LogEntry], commit: u64) -> AppendEntriesRequest {
    AppendEntriesRequest {
        term,
        leader_id: text(2),
        prev_log_index: prev.0,
        prev_log_term: prev.1,
        entries: entries.iter().map(encode_entry).collect(),
        leader_commit: commit,
    }
}

/// Takes a leader's request in, with storage that never fails.
fn accept(node: &mut Node, req: &AppendEntriesRequest) -> AppendEntriesResponse {
    let heard = node.handle_append_entries(req, START);
    if heard.keep.is_some() {
        node.term_kept();
    }
    match heard.decision {
        Err(resp) => resp,
        Ok(incoming) => {
            node.truncated(&incoming);
            let write = node.incoming_write(&incoming);
            node.accepted(incoming, write).0
        }
    }
}

fn vote(term: u64, candidate: u128, last: (u64, u64)) -> RequestVoteRequest {
    RequestVoteRequest {
        term,
        candidate_id: text(candidate),
        last_log_index: last.1,
        last_log_term: last.0,
    }
}

/// Asks for a vote, with storage that never fails.
fn ask(node: &mut Node, req: &RequestVoteRequest) -> RequestVoteResponse {
    match node.handle_request_vote(req, START) {
        VoteStep::Reply(resp) => resp,
        VoteStep::Persist(_) => node.vote_kept(true, START),
    }
}

/// Makes a member of three lead in the next term.
fn elect(node: &mut Node) -> u64 {
    node.campaign(200 * MS, START);
    let term = node.term();
    let granted = RequestVoteResponse { term, vote_granted: true };
    match node.on_vote(2, term, granted, START) {
        ElectionStep::Lead(write) => {
            node.led(Some(write));
        }
        other => panic!("one more vote is a majority of three: {other:?}"),
    }
    term
}

#[test]
fn election_timeouts_stay_in_range() {
    let mut seen = Vec::new();
    for _ in 0..200 {
        let timeout = random_election_timeout();
        assert!((150 * MS..300 * MS).contains(&timeout));
        assert_eq!(timeout % MS, 0);
        seen.push(timeout);
    }
    seen.sort();
    seen.dedup();
    assert!(seen.len() > 1, "every member would campaign at once");
}

#[test]
fn durable_values_have_the_expected_binary_form() {
    assert_eq!(HardState::default().encode(), vec![0, 0]);
    let hard = HardState { current_term: 300, voted_for: Some(7) };
    assert_eq!(hard.encode(), vec![251, 44, 1, 1, 7]);
    assert_eq!(HardState::decode(&hard.encode()), Ok(hard));
    assert!(HardState::decode(&[1]).is_err());
    assert!(HardState::decode(&[1, 2]).is_err());

    let identity = Identity { node_id: 1, cluster_id: 251 };
    assert_eq!(identity.encode(), vec![1, 251, 251, 0]);
    assert_eq!(Identity::decode(&identity.encode()), Ok(identity));
    assert!(Identity::decode(&[1]).is_err());
}

#[test]
fn a_directory_is_taken_over_once() {
    let bytes = check_identity(None, false, 1, 2).unwrap().expect("there is none yet");
    assert_eq!(bytes, vec![1, 2]);
    assert_eq!(check_identity(Some(&bytes), true, 1, 2), Ok(None));
    assert_eq!(check_identity(Some(&bytes), false, 1, 2), Ok(None));
}

#[test]
fn a_foreign_directory_is_refused() {
    let bytes = Identity { node_id: 1, cluster_id: 2 }.encode();
    let wrong_cluster = check_identity(Some(&bytes), true, 1, 3).unwrap_err();
    assert_eq!(wrong_cluster, OpenError::WrongCluster { found: 2, expected: 3 });
    assert_eq!(
        wrong_cluster.message(),
        "data directory belongs to cluster 00000000-0000-0000-0000-000000000002, \
         not 00000000-0000-0000-0000-000000000003"
    );
    let wrong_node = check_identity(Some(&bytes), true, 4, 2).unwrap_err();
    assert_eq!(wrong_node, OpenError::WrongNode { found: 1, expected: 4 });
    assert_eq!(
        wrong_node.message(),
        "data directory belongs to node 00000000-0000-0000-0000-000000000001, \
         not 00000000-0000-0000-0000-000000000004"
    );
    // The cluster is checked first.
    assert_eq!(
        check_identity(Some(&bytes), true, 4, 3),
        Err(OpenError::WrongCluster { found: 2, expected: 3 })
    );
    let orphan = check_identity(None, true, 1, 2).unwrap_err();
    assert_eq!(orphan, OpenError::OrphanLog);
    assert_eq!(
        orphan.message(),
        "found a raft log but no identity file; refusing to bootstrap over it"
    );
    let corrupt = check_identity(Some(&[1]), true, 1, 2).unwrap_err();
    assert_eq!(corrupt, OpenError::CorruptIdentity);
    assert_eq!(corrupt.message(), "identity file is unreadable");
}

#[test]
fn a_corrupt_hard_state_is_refused() {
    let opened = Node::open(1, 9, vec![], QueueState::default(), Some(&[1]), &[], START);
    let e = opened.unwrap_err();
    assert_eq!(e, OpenError::CorruptHardState);
    assert_eq!(e.message(), "hard-state file is unreadable");
}

#[test]
fn a_member_is_not_its_own_peer() {
    let node = member(1, vec![1, 2, 1, 3]);
    assert_eq!(node.peers(), &vec![2, 3]);
    assert_eq!(node.role(), Role::Follower);
    assert_eq!(node.term(), 0);
    assert_eq!(node.leader(), None);
}

#[test]
fn a_vote_is_cast_once_in_a_term() {
    let mut node = member(1, vec![2, 3]);
    assert_eq!(
        ask(&mut node, &vote(1, 2, (0, 0))),
        RequestVoteResponse { term: 1, vote_granted: true }
    );
    assert_eq!(
        ask(&mut node, &vote(1, 3, (0, 0))),
        RequestVoteResponse { term: 1, vote_granted: false }
    );
    assert_eq!(
        ask(&mut node, &vote(1, 2, (0, 0))),
        RequestVoteResponse { term: 1, vote_granted: true },
        "the same candidate may ask again"
    );
    assert_eq!(
        ask(&mut node, &vote(2, 3, (0, 0))),
        RequestVoteResponse { term: 2, vote_granted: true }
    );
    assert_eq!(
        ask(&mut node, &vote(1, 2, (9, 9))),
        RequestVoteResponse { term: 2, vote_granted: false },
        "the term is over"
    );
}

#[test]
fn a_vote_is_kept_before_it_counts() {
    let mut node = member(1, vec![2, 3]);
    match node.handle_request_vote(&vote(3, 2, (0, 0)), START) {
        VoteStep::Persist(bytes) => {
            let hard = HardState { current_term: 3, voted_for: Some(2) };
            assert_eq!(HardState::decode(&bytes), Ok(hard));
        }
        VoteStep::Reply(resp) => panic!("the vote has to be kept: {resp:?}"),
    }
    assert_eq!(
        node.vote_kept(false, START),
        RequestVoteResponse { term: 3, vote_granted: false }
    );
}

#[test]
fn a_vote_goes_to_a_current_log_only() {
    let mut node = member(1, vec![2, 3]);
    accept(&mut node, &append(1, (0, 0), &[entry(1, 1), entry(1, 2)], 0));
    assert!(!ask(&mut node, &vote(2, 3, (1, 1))).vote_granted, "shorter");
    assert!(!ask(&mut node, &vote(2, 3, (0, 9))).vote_granted, "of an earlier term");
    assert!(ask(&mut node, &vote(2, 3, (1, 2))).vote_granted);
    assert!(ask(&mut node, &vote(3, 3, (2, 1))).vote_granted, "of a later term");
}

#[test]
fn an_unreadable_candidate_gets_no_vote() {
    let mut node = member(1, vec![2, 3]);
    let mut req = vote(5, 2, (0, 0));
    req.candidate_id = "nobody".to_string();
    assert_eq!(ask(&mut node, &req), RequestVoteResponse { term: 5, vote_granted: false });
    assert_eq!(node.term(), 5);
}

#[test]
fn entries_follow_only_where_they_fit() {
    let mut node = member(1, vec![2, 3]);
    let refused = |term| AppendEntriesResponse { term, success: false, match_index: 0 };
    assert_eq!(accept(&mut node, &append(1, (1, 1), &[entry(1, 2)], 0)), refused(1));
    assert_eq!(node.leader(), Some(2));
    assert_eq!(
        accept(&mut node, &append(1, (0, 0), &[entry(1, 1), entry(1, 2)], 0)),
        AppendEntriesResponse { term: 1, success: true, match_index: 2 }
    );
    assert_eq!(accept(&mut node, &append(1, (2, 7), &[], 0)), refused(1));
    assert_eq!(accept(&mut node, &append(0, (0, 0), &[], 0)), refused(1));

    let mut garbled = append(1, (2, 1), &[entry(1, 3)], 0);
    garbled.entries[0].truncate(2);
    assert_eq!(accept(&mut node, &garbled), refused(1));
    assert_eq!(node.last_index(), 2);
}

#[test]
fn a_conflicting_suffix_goes() {
    let mut node = member(1, vec![2, 3]);
    accept(&mut node, &append(1, (0, 0), &[entry(1, 1), entry(1, 2), entry(1, 3)], 0));
    let bytes = node.log_bytes();

    // A request that brings nothing new leaves what follows it alone.
    let resp = accept(&mut node, &append(1, (0, 0), &[entry(1, 1)], 0));
    assert_eq!(resp.match_index, 3);

    let req = append(2, (1, 1), &[entry(2, 2)], 2);
    let incoming = node.handle_append_entries(&req, START).decision.unwrap();
    let cut = node.cut_to(&incoming).expect("the second entry is another");
    assert!(cut < bytes);
    assert!(node.truncated(&incoming).is_empty(), "no proposal was pending");
    assert_eq!(node.log_bytes(), cut);
    let write = node.incoming_write(&incoming);
    let (resp, done) = node.accepted(incoming, write);
    assert_eq!(resp, AppendEntriesResponse { term: 2, success: true, match_index: 2 });
    assert!(done.is_empty());
    assert_eq!(node.commit_index(), 2);
    assert_eq!(node.state().ready_ids(), vec![101, 202]);
}

#[test]
fn a_follower_commits_no_further_than_its_log() {
    let mut node = member(1, vec![2, 3]);
    accept(&mut node, &append(1, (0, 0), &[entry(1, 1), entry(1, 2)], 9));
    assert_eq!(node.commit_index(), 2);
    accept(&mut node, &append(1, (2, 1), &[], 1));
    assert_eq!(node.commit_index(), 2, "a commit point does not move back");
}

#[test]
fn a_leader_commits_what_a_majority_holds() {
    let mut node = member(1, vec![2, 3]);
    let term = elect(&mut node);
    assert_eq!(node.role(), Role::Leader);
    assert_eq!(node.leader(), Some(1));
    assert_eq!(node.last_index(), 1, "a term opens with an entry of its own");
    assert_eq!(node.commit_index(), 0);

    let record = Record::Enqueued { job_id: 5, payload: "p".to_string(), created_at: 1 };
    let write = node.propose(record).unwrap();
    assert!(node.proposed(write, 77).is_empty(), "nobody else holds it yet");

    let ok = AppendEntriesResponse { term, success: true, match_index: 2 };
    let progress = node.on_append_response(3, term, ok, START);
    assert_eq!(progress.done, vec![77]);
    assert_eq!(progress.hard_state, None);
    assert_eq!(node.commit_index(), 2);
    assert_eq!(node.state().ready_ids(), vec![5]);
}

#[test]
fn a_leader_does_not_commit_entries_of_earlier_terms_alone() {
    let mut node = member(1, vec![2, 3]);
    accept(&mut node, &append(1, (0, 0), &[entry(1, 1)], 0));
    let term = elect(&mut node);
    assert_eq!(term, 2);
    let one = AppendEntriesResponse { term, success: true, match_index: 1 };
    node.on_append_response(3, term, one, START);
    assert_eq!(node.commit_index(), 0, "the first entry is of an earlier term");
    let two = AppendEntriesResponse { term, success: true, match_index: 2 };
    node.on_append_response(3, term, two, START);
    assert_eq!(node.commit_index(), 2);
}

#[test]
fn only_a_leader_proposes() {
    let mut node = member(1, vec![2, 3]);
    match node.propose(Record::Redriven { job_id: 1 }) {
        Err(ProposeError::NotLeader(None)) => {}
        other => panic!("nobody leads yet: {other:?}"),
    }
    accept(&mut node, &append(1, (0, 0), &[], 0));
    match node.propose(Record::Redriven { job_id: 1 }) {
        Err(ProposeError::NotLeader(Some(2))) => {}
        other => panic!("somebody else leads: {other:?}"),
    }
}

#[test]
fn a_later_term_ends_a_campaign_and_a_leadership() {
    let mut node = member(1, vec![2, 3]);
    node.campaign(200 * MS, START);
    let refusal = RequestVoteResponse { term: 8, vote_granted: false };
    match node.on_vote(2, 1, refusal, START) {
        ElectionStep::Persist(bytes) => {
            assert_eq!(
                HardState::decode(&bytes),
                Ok(HardState { current_term: 8, voted_for: None })
            );
        }
        other => panic!("the term has to be kept: {other:?}"),
    }
    assert_eq!(node.role(), Role::Follower);

    let term = elect(&mut node);
    let resp = AppendEntriesResponse { term: term + 1, success: false, match_index: 0 };
    let progress = node.on_append_response(2, term, resp, START);
    assert!(progress.hard_state.is_some());
    assert_eq!(node.role(), Role::Follower);
    assert_eq!(node.term(), term + 1);
}

#[test]
fn stale_votes_do_not_count() {
    let mut node = member(1, vec![2, 3, 4, 5]);
    node.campaign(200 * MS, START);
    let granted = RequestVoteResponse { term: 1, vote_granted: true };
    assert!(matches!(node.on_vote(2, 0, granted, START), ElectionStep::Nothing));
    assert!(matches!(node.on_vote(2, 1, granted, START), ElectionStep::Nothing));
    assert!(matches!(node.on_vote(2, 1, granted, START), ElectionStep::Nothing), "counted once");
    let refused = RequestVoteResponse { term: 1, vote_granted: false };
    assert!(matches!(node.on_vote(3, 1, refused, START), ElectionStep::Nothing));
    // Three members of five are the majority that their number asks for.
    match node.on_vote(3, 1, granted, START) {
        ElectionStep::Lead(write) => {
            node.led(Some(write));
        }
        other => panic!("three of five have voted: {other:?}"),
    }
    assert_eq!(node.role(), Role::Leader);
}

#[test]
fn a_leader_sends_each_peer_what_it_lacks() {
    let mut node = member(1, vec![2, 3]);
    let term = elect(&mut node);
    for i in 0..100 {
        let record = Record::Redriven { job_id: i };
        let write = node.propose(record).unwrap();
        node.proposed(write, i as u64);
    }
    let round = node.run(START + 50 * MS);
    let requests = match round.action {
        Action::Replicate(requests) => requests,
        other => panic!("a leader replicates: {other:?}"),
    };
    assert_eq!(requests.len(), 2);
    let (peer, req) = &requests[0];
    assert_eq!(*peer, 2);
    assert_eq!(req.term, term);
    assert_eq!(req.leader_id, text(1));
    assert_eq!((req.prev_log_index, req.prev_log_term), (0, 0));
    assert_eq!(req.entries.len(), 64, "one request carries no more");
    assert_eq!(
        req.entries[0],
        encode_entry(&LogEntry { term, index: 1, payload: EntryPayload::Noop })
    );

    // Nothing more goes out to a peer before it has answered.
    match node.run(START + 100 * MS).action {
        Action::Replicate(requests) => assert!(requests.is_empty()),
        other => panic!("a leader replicates: {other:?}"),
    }
    node.request_done(2);
    let ok = AppendEntriesResponse { term, success: true, match_index: 64 };
    node.on_append_response(2, term, ok, START + 100 * MS);
    match node.run(START + 120 * MS).action {
        Action::Replicate(requests) => {
            assert_eq!(requests.len(), 1);
            assert_eq!(requests[0].0, 2);
            assert_eq!(requests[0].1.prev_log_index, 64);
            assert_eq!(requests[0].1.entries.len(), 37);
            assert_eq!(requests[0].1.leader_commit, 64);
        }
        other => panic!("a leader replicates: {other:?}"),
    }
}

#[test]
fn a_refused_leader_steps_back_one_entry_at_a_time() {
    let mut node = member(1, vec![2, 3]);
    accept(&mut node, &append(1, (0, 0), &[entry(1, 1), entry(1, 2)], 0));
    let term = elect(&mut node);
    let refusal = AppendEntriesResponse { term, success: false, match_index: 0 };
    let mut starts = Vec::new();
    for _ in 0..4 {
        match node.run(START + MS).action {
            Action::Replicate(requests) => {
                for (peer, req) in requests {
                    if peer == 3 {
                        starts.push(req.prev_log_index);
                    }
                    node.request_done(peer);
                    node.on_append_response(peer, term, refusal, START + MS);
                }
            }
            other => panic!("a leader replicates: {other:?}"),
        }
    }
    assert_eq!(starts, vec![2, 1, 0, 0]);
}

#[test]
fn a_leader_without_contact_stands_down() {
    let mut node = member(1, vec![2, 3]);
    let term = elect(&mut node);
    let write = node.propose(Record::Redriven { job_id: 1 }).unwrap();
    node.proposed(write, 5);

    let round = node.run(START + 299 * MS);
    assert!(round.lost.is_empty());
    assert!(matches!(round.action, Action::Replicate(_)));

    let round = node.run(START + 300 * MS);
    assert_eq!(round.lost, vec![5]);
    assert!(matches!(round.action, Action::Nothing));
    assert_eq!(node.role(), Role::Follower);
    assert_eq!(node.term(), term);

    // One answer of two peers is contact enough.
    let mut node = member(1, vec![2, 3]);
    let term = elect(&mut node);
    let ok = AppendEntriesResponse { term, success: true, match_index: 1 };
    node.on_append_response(3, term, ok, START + 100 * MS);
    assert!(matches!(node.run(START + 399 * MS).action, Action::Replicate(_)));
    assert!(matches!(node.run(START + 400 * MS).action, Action::Nothing));
}

#[test]
fn a_follower_campaigns_once_its_patience_is_over() {
    let mut node = member(1, vec![2, 3]);
    assert!(matches!(node.run(START + 150 * MS).action, Action::Nothing));
    assert!(matches!(node.run(START + 150 * MS + 1).action, Action::Campaign));
    node.start_election(START + 151 * MS);
    match node.campaign_kept(START + 151 * MS) {
        ElectionStep::Request(req) => {
            assert_eq!(req.term, 1);
            assert_eq!(req.candidate_id, text(1));
            assert_eq!((req.last_log_term, req.last_log_index), (0, 0));
        }
        other => panic!("its peers have a say: {other:?}"),
    }
    assert_eq!(node.role(), Role::Candidate);
    // A leader's request ends the campaign and the wait starts over.
    let heard = node.handle_append_entries(&append(1, (0, 0), &[], 0), START + 400 * MS);
    assert!(heard.decision.is_ok());
    assert_eq!(heard.keep, None, "the campaign was kept");
    assert_eq!(node.role(), Role::Follower);
    assert!(matches!(node.run(START + 550 * MS).action, Action::Nothing));
}

#[test]
fn a_single_member_leads_at_once_and_commits_alone() {
    let mut node = member(1, vec![]);
    let bytes = node.campaign(150 * MS, START);
    assert_eq!(HardState::decode(&bytes), Ok(HardState { current_term: 1, voted_for: Some(1) }));
    match node.campaign_kept(START) {
        ElectionStep::Lead(write) => {
            assert!(!write.bytes().is_empty());
            node.led(Some(write));
        }
        other => panic!("there is nobody to ask: {other:?}"),
    }
    assert_eq!((node.last_index(), node.commit_index()), (1, 1));
    let record = Record::Enqueued { job_id: 3, payload: String::new(), created_at: 0 };
    let write = node.propose(record).unwrap();
    assert_eq!(node.proposed(write, 42), vec![42]);
    assert_eq!((node.last_index(), node.commit_index()), (2, 2));
    assert_eq!(node.state().ready_ids(), vec![3]);
    assert!(matches!(node.run(START + 10_000 * MS).action, Action::Replicate(r) if r.is_empty()));
}

#[test]
fn a_leader_stands_down_when_its_opening_entry_is_not_written() {
    let mut node = member(1, vec![]);
    node.campaign(150 * MS, START);
    match node.campaign_kept(START) {
        ElectionStep::Lead(_) => {
            assert!(node.led(None).is_empty());
        }
        other => panic!("there is nobody to ask: {other:?}"),
    }
    assert_eq!((node.role(), node.term(), node.last_index()), (Role::Follower, 1, 0));
    assert_eq!(node.leader(), None);
    let refused = node.propose(Record::Redriven { job_id: 1 });
    assert!(matches!(refused, Err(ProposeError::NotLeader(None))));
    assert!(matches!(node.run(START).action, Action::Nothing), "it brings nobody in step");
    // Its vote of the term stays with itself.
    assert!(!ask(&mut node, &vote(1, 2, (9, 9))).vote_granted);
}

/// Gives `from` the answers of `to` to a round of requests.
fn exchange(from: &mut Node, to: &mut Node, now: u64) -> Vec<u64> {
    let peer = to.id();
    let requests = match from.run(now).action {
        Action::Replicate(requests) => requests,
        _ => Vec::new(),
    };
    let mut done = Vec::new();
    for (id, req) in requests {
        from.request_done(id);
        if id == peer {
            let resp = accept(to, &req);
            done.extend(from.on_append_response(peer, req.term, resp, now).done);
        }
    }
    done
}

#[test]
fn no_proposal_is_done_before_a_majority_holds_its_entry() {
    let mut one = member(1, vec![2, 3]);
    let mut two = member(2, vec![1, 3]);
    let mut three = member(3, vec![1, 2]);

    // The second member wins a term, and its opening entry reaches nobody.
    two.campaign(200 * MS, START);
    assert!(ask(&mut three, &vote(1, 2, (0, 0))).vote_granted);
    let granted = |term| RequestVoteResponse { term, vote_granted: true };
    match two.on_vote(3, 1, granted(1), START) {
        ElectionStep::Lead(write) => assert!(two.led(Some(write)).is_empty()),
        other => panic!("two of three are a majority: {other:?}"),
    }

    // The first wins the next one and cannot write its opening entry.
    one.campaign(200 * MS, START);
    one.campaign(200 * MS, START);
    assert!(ask(&mut three, &vote(2, 1, (0, 0))).vote_granted);
    match one.on_vote(3, 2, granted(2), START) {
        ElectionStep::Lead(_) => assert!(one.led(None).is_empty()),
        other => panic!("two of three are a majority: {other:?}"),
    }
    assert!(exchange(&mut one, &mut two, START).is_empty());
    let record = Record::Enqueued { job_id: 5, payload: "p".to_string(), created_at: 1 };
    assert!(matches!(one.propose(record.clone()), Err(ProposeError::NotLeader(None))));
    assert_eq!((one.last_index(), one.commit_index()), (0, 0));

    // It wins again, and now a proposal is done once another member holds it.
    one.campaign(200 * MS, START);
    assert!(ask(&mut three, &vote(3, 1, (0, 0))).vote_granted);
    match one.on_vote(3, 3, granted(3), START) {
        ElectionStep::Lead(write) => assert!(one.led(Some(write)).is_empty()),
        other => panic!("two of three are a majority: {other:?}"),
    }
    let write = one.propose(record).unwrap();
    assert!(one.proposed(write, 77).is_empty());
    assert_eq!(exchange(&mut one, &mut two, START), vec![77]);
    assert_eq!((one.commit_index(), two.last_index()), (2, 2));
    exchange(&mut one, &mut two, START + 100 * MS);
    assert_eq!(two.state().ready_ids(), vec![5], "its stale entry is gone");
}

#[test]
fn identifiers_are_derived_from_names() {
    assert_eq!(
        text(derive_id("example.org")),
        "34784df9-b065-5094-92c7-00bb3da97a30"
    );
    assert_ne!(derive_id("a"), derive_id("b"));
}

#[test]
fn a_leader_that_stands_down_keeps_its_vote() {
    let mut node = member(1, vec![2, 3]);
    let term = elect(&mut node);
    node.run(START + 300 * MS);
    assert_eq!((node.role(), node.term()), (Role::Follower, term));
    assert_eq!(
        ask(&mut node, &vote(term, 3, (term, 9))),
        RequestVoteResponse { term, vote_granted: false },
        "its vote of the term went to itself"
    );
    assert!(ask(&mut node, &vote(term + 1, 3, (term, 9))).vote_granted);
}

#[test]
fn a_term_met_through_a_leader_is_handed_out_to_be_kept() {
    let mut node = member(1, vec![2, 3]);
    let hard = HardState { current_term: 4, voted_for: None };

    let heard = node.handle_append_entries(&append(4, (0, 0), &[], 0), START);
    assert_eq!(HardState::decode(&heard.keep.unwrap()), Ok(hard));
    // Until it is kept it is handed out again, also where the entries do not fit.
    let heard = node.handle_append_entries(&append(4, (9, 9), &[], 0), START);
    assert!(heard.decision.is_err());
    assert!(heard.keep.is_some());
    node.term_kept();
    assert_eq!(node.handle_append_entries(&append(4, (0, 0), &[], 0), START).keep, None);
    assert_eq!(node.handle_append_entries(&append(3, (0, 0), &[], 0), START).keep, None);

    // A vote that was kept stands for the term.
    let mut node = member(1, vec![2, 3]);
    assert!(ask(&mut node, &vote(2, 3, (0, 0))).vote_granted);
    assert_eq!(node.handle_append_entries(&append(2, (0, 0), &[], 0), START).keep, None);
}

#[test]
fn a_request_that_comes_twice_changes_nothing_more() {
    let mut node = member(1, vec![2, 3]);
    accept(&mut node, &append(1, (0, 0), &[entry(1, 1), entry(1, 2), entry(1, 3)], 1));
    let req = append(2, (1, 1), &[entry(2, 2), entry(2, 3)], 2);
    let first = accept(&mut node, &req);
    let bytes = node.log_bytes();
    let ready = node.state().ready_ids();
    assert_eq!(first, AppendEntriesResponse { term: 2, success: true, match_index: 3 });

    assert_eq!(accept(&mut node, &req), first);
    assert_eq!((node.log_bytes(), node.last_index(), node.commit_index()), (bytes, 3, 2));
    assert_eq!((node.term(), node.role(), node.leader()), (2, Role::Follower, Some(2)));
    assert_eq!(node.state().ready_ids(), ready);
}

#[test]
fn a_proposal_goes_with_its_entry() {
    let mut node = member(1, vec![2, 3]);
    let term = elect(&mut node);
    for ticket in [7, 8] {
        let write = node.propose(Record::Redriven { job_id: 1 }).unwrap();
        assert!(node.proposed(write, ticket).is_empty());
    }
    // A later leader keeps the first of the two entries and replaces the second.
    let req = append(term + 1, (2, term), &[entry(term + 1, 3), entry(term + 1, 4)], 4);
    let incoming = node.handle_append_entries(&req, START).decision.unwrap();
    assert_eq!(node.truncated(&incoming), vec![8]);
    let write = node.incoming_write(&incoming);
    let (resp, done) = node.accepted(incoming, write);
    assert_eq!(resp.match_index, 4);
    assert_eq!(done, vec![7], "its entry is the one that was committed");
}
