//! What holds of a cluster, whatever its members go through.
use crate::codec;
use crate::ids;
use crate::log;
use crate::log::{EntryView, LogView, PayloadView};
use crate::log_laws;
use crate::protocol;
use crate::protocol::{
    AppendEntriesResponse, AppendRequestView, NodeView, RequestVoteResponse, Role,
    VoteRequestView,
};
use crate::quorum;
use crate::raft;
use crate::raft::OpenError;
use crate::state::{QueueView, RecordView};
use vstd::prelude::*;
use vstd::set_lib::*;

verus! {

// ------------------------------------------------------------- durable values

/// A member that starts from the term and the vote it kept last has them again.
pub proof fn law_restart_keeps_term_and_vote(node: NodeView)
    ensures
        raft::kept_state(Some(node.hard_state())) == Some((node.current_term, node.voted_for)),
{
    let rest = Seq::<u8>::empty();
    let tail = codec::option_bytes(node.voted_for) + rest;
    assert(node.hard_state() =~= codec::varint(node.current_term as nat) + tail);
    codec::lemma_read_u64(node.current_term, tail);
    codec::lemma_read_option(node.voted_for, rest);
}

/// The term and the vote, and the identity of a directory, are read from whatever
/// bytes hold them, part by part; what follows them does not matter, and where a part
/// is missing there is nothing to read.
pub proof fn law_durable_values_are_read_part_by_part(
    term: u64,
    vote: Option<u128>,
    node_id: u128,
    cluster_id: u128,
    more: Seq<u8>,
    s: Seq<u8>,
)
    ensures
        protocol::read_hard_state(protocol::hard_state_bytes(term, vote) + more) == Some(
            (term, vote),
        ),
        protocol::read_identity(protocol::identity_bytes(node_id, cluster_id) + more) == Some(
            (node_id, cluster_id),
        ),
        protocol::read_hard_state(s) is None <==> codec::read_u64(s) is None
            || codec::read_option(codec::read_u64(s).unwrap().1) is None,
        protocol::read_hard_state(s) matches Some(read) ==> read.0 == codec::read_u64(s).unwrap().0
            && read.1 == codec::read_option(codec::read_u64(s).unwrap().1).unwrap().0,
        protocol::read_identity(s) is None <==> codec::read_u128(s) is None || codec::read_u128(
            codec::read_u128(s).unwrap().1,
        ) is None,
        protocol::read_identity(s) matches Some(read) ==> read.0 == codec::read_u128(s).unwrap().0
            && read.1 == codec::read_u128(codec::read_u128(s).unwrap().1).unwrap().0,
{
    let tail = codec::option_bytes(vote) + more;
    assert(protocol::hard_state_bytes(term, vote) + more =~= codec::varint(term as nat) + tail);
    codec::lemma_read_u64(term, tail);
    codec::lemma_read_option(vote, more);
    let tail = codec::varint(cluster_id as nat) + more;
    assert(protocol::identity_bytes(node_id, cluster_id) + more =~= codec::varint(node_id as nat)
        + tail);
    codec::lemma_read_u128(node_id, tail);
    codec::lemma_read_u128(cluster_id, more);
}

/// A data directory that a node has taken over is its own from then on, and is
/// refused to any other node and to any other cluster.
pub proof fn law_directory_belongs_to_one_node(
    node_id: u128,
    cluster_id: u128,
    other_node: u128,
    other_cluster: u128,
    log_exists: bool,
)
    ensures
        ({
            let kept = Some(protocol::identity_bytes(node_id, cluster_id));
            &&& raft::claim(None, false, node_id, cluster_id) == Ok::<_, OpenError>(kept)
            &&& raft::claim(kept, log_exists, node_id, cluster_id) == Ok::<
                Option<Seq<u8>>,
                OpenError,
            >(None)
            &&& other_cluster != cluster_id ==> raft::claim(
                kept,
                log_exists,
                other_node,
                other_cluster,
            ) == Err::<Option<Seq<u8>>, OpenError>(
                OpenError::WrongCluster { found: cluster_id, expected: other_cluster },
            )
            &&& other_node != node_id ==> raft::claim(kept, log_exists, other_node, cluster_id)
                == Err::<Option<Seq<u8>>, OpenError>(
                OpenError::WrongNode { found: node_id, expected: other_node },
            )
        }),
{
    let rest = Seq::<u8>::empty();
    let tail = codec::varint(cluster_id as nat) + rest;
    assert(protocol::identity_bytes(node_id, cluster_id) =~= codec::varint(node_id as nat) + tail);
    codec::lemma_read_u128(node_id, tail);
    codec::lemma_read_u128(cluster_id, rest);
}

// ------------------------------------------------------------------- elections

/// Two majorities of the same members have a member in common.
pub proof fn law_two_majorities_meet(members: Set<u128>, peers: nat, a: Set<u128>, b: Set<u128>)
    requires
        members.finite(),
        members.len() == peers + 1,
        a.subset_of(members),
        b.subset_of(members),
        a.len() >= quorum::majority(peers),
        b.len() >= quorum::majority(peers),
    ensures
        exists|m: u128| a.contains(m) && b.contains(m),
{
    lemma_len_subset(a, members);
    lemma_len_subset(b, members);
    lemma_set_intersect_union_lens(a, b);
    lemma_len_subset(a + b, members);
    let both = a.intersect(b);
    assert(both.len() > 0);
    let m = both.choose();
    assert(both.contains(m));
}

/// A term has one leader at the most: of two candidates that a majority of the
/// same members voted for in one term, each member for one of them, both are
/// the same.
pub proof fn law_one_leader_per_term(
    members: Set<u128>,
    peers: nat,
    voted_for: Map<u128, u128>,
    first: u128,
    first_votes: Set<u128>,
    second: u128,
    second_votes: Set<u128>,
)
    requires
        members.finite(),
        members.len() == peers + 1,
        first_votes.subset_of(members),
        second_votes.subset_of(members),
        first_votes.len() >= quorum::majority(peers),
        second_votes.len() >= quorum::majority(peers),
        forall|m: u128| #[trigger] first_votes.contains(m) ==> voted_for[m] == first,
        forall|m: u128| #[trigger] second_votes.contains(m) ==> voted_for[m] == second,
    ensures
        first == second,
{
    law_two_majorities_meet(members, peers, first_votes, second_votes);
    let m = choose|m: u128| first_votes.contains(m) && second_votes.contains(m);
    assert(first_votes.contains(m) && second_votes.contains(m));
}

/// A member grants a vote in a term to one candidate alone, and to one whose
/// log is no less current than its own.
pub proof fn law_vote_goes_to_one_current_candidate(
    node: NodeView,
    req: VoteRequestView,
    now: u64,
    candidate: u128,
)
    requires
        node.grants(req, now) == Some(candidate),
    ensures
        req.term >= node.current_term,
        req.term == node.current_term && node.voted_for is Some ==> node.voted_for == Some(
            candidate,
        ),
        node.consider(req, now).voted_for == Some(candidate),
        node.consider(req, now).current_term == req.term,
        node.log_current(req.last_log_term, req.last_log_index),
{
}

/// Where `after` follows on `before` within one term, a vote that was cast
/// still stands.
pub open spec fn keeps_vote(before: NodeView, after: NodeView) -> bool {
    after.current_term == before.current_term && before.voted_for is Some ==> after.voted_for
        == before.voted_for
}

/// A vote stands until its term ends, whatever a member hears: requests for
/// votes, requests from leaders, answers to its own requests, and rounds in
/// which it stands down because it lost the majority.
pub proof fn law_vote_stands_for_the_term(
    node: NodeView,
    vote: VoteRequestView,
    append: AppendRequestView,
    peer: u128,
    term: u64,
    vote_resp: RequestVoteResponse,
    append_resp: AppendEntriesResponse,
    now: u64,
)
    ensures
        keeps_vote(node, node.consider(vote, now)),
        keeps_vote(node, node.meet_leader(append, now)),
        keeps_vote(node, node.accept(append, now)),
        keeps_vote(node, node.hear_vote(peer, term, vote_resp, now)),
        keeps_vote(node, node.hear(peer, term, append_resp, now)),
        keeps_vote(node, node.lead(now)),
        keeps_vote(node, node.advance()),
        keeps_vote(node, node.settle()),
        keeps_vote(node, node.replicate()),
        keeps_vote(node, node.round(now)),
{
    lemma_drain_frame(node, node.log.entries.len());
    let met = node.meet_leader(append, now);
    let taken = NodeView { kept: true, ..met }.with_entries(
        protocol::read(append.entries),
    ).commit_to(append.leader_commit);
    lemma_drain_frame(taken, taken.log.entries.len());
}

/// Applying entries touches the queue and the mark of what is applied alone.
pub proof fn lemma_drain_frame(node: NodeView, most: nat)
    ensures
        node.drain(most) == (NodeView {
            state: node.drain(most).state,
            last_applied: node.drain(most).last_applied,
            ..node
        }),
    decreases most,
{
    if most > 0 && node.can_apply() {
        lemma_drain_frame(node.apply_next(), (most - 1) as nat);
    }
}

/// A member's term never goes back.
pub proof fn law_term_never_goes_back(
    node: NodeView,
    vote: VoteRequestView,
    append: AppendRequestView,
    peer: u128,
    term: u64,
    vote_resp: RequestVoteResponse,
    append_resp: AppendEntriesResponse,
    election_timeout: u64,
    now: u64,
)
    ensures
        node.consider(vote, now).current_term >= node.current_term,
        node.accept(append, now).current_term >= node.current_term,
        node.hear_vote(peer, term, vote_resp, now).current_term >= node.current_term,
        node.hear(peer, term, append_resp, now).current_term >= node.current_term,
        node.lead(now).current_term == node.current_term,
        node.advance().current_term == node.current_term,
        node.settle().current_term == node.current_term,
        node.round(now).current_term == node.current_term,
        node.current_term < u64::MAX ==> node.campaign(election_timeout, now).current_term
            == node.current_term + 1,
{
    lemma_drain_frame(node, node.log.entries.len());
    let met = node.meet_leader(append, now);
    let taken = NodeView { kept: true, ..met }.with_entries(
        protocol::read(append.entries),
    ).commit_to(append.leader_commit);
    lemma_drain_frame(taken, taken.log.entries.len());
}

/// A candidate that has peers does not lead on its own vote, and one that hears
/// from a single peer leads in a cluster of three at the most.
pub proof fn law_minority_cannot_elect(
    node: NodeView,
    election_timeout: u64,
    now: u64,
    peer: u128,
    term: u64,
    resp: RequestVoteResponse,
)
    requires
        node.peers.len() > 0,
    ensures
        ({
            let candidate = node.campaign(election_timeout, now);
            &&& candidate.votes.len() == 1
            &&& candidate.votes.len() < candidate.quorum()
            &&& !candidate.wins(node.id, term, resp)
            &&& node.peers.len() > 2 ==> !candidate.wins(peer, term, resp)
        }),
{
    let candidate = node.campaign(election_timeout, now);
    assert(candidate.votes.insert(node.id) =~= candidate.votes);
    assert(candidate.votes.insert(peer).len() <= 2);
}

/// Whoever wins has the votes of a majority, itself included, all of them
/// granted in the term that it wins.
pub proof fn law_winner_has_a_majority(
    node: NodeView,
    peer: u128,
    term: u64,
    resp: RequestVoteResponse,
    now: u64,
)
    requires
        node.wins(peer, term, resp),
    ensures
        node.role == Role::Candidate,
        node.current_term == term,
        resp.vote_granted,
        node.hear_vote(peer, term, resp, now).lead(now).votes.len() >= node.quorum(),
{
}

// ------------------------------------------------------------------ committing

/// Some position is the furthest one that a majority shares.
proof fn lemma_shared_exists(positions: Seq<u64>, needed: nat, top: u64)
    requires
        1 <= needed <= positions.len(),
        forall|y: u64| y > top ==> #[trigger] quorum::reached(positions, y) < needed,
    ensures
        exists|x: u64| quorum::furthest_shared(positions, needed, x),
    decreases top,
{
    if quorum::reached(positions, top) >= needed {
        assert(quorum::furthest_shared(positions, needed, top));
    } else {
        quorum::lemma_all_reach_zero(positions);
        assert forall|y: u64| y > top - 1 implies #[trigger] quorum::reached(positions, y)
            < needed by {
            if y == top {
            }
        }
        lemma_shared_exists(positions, needed, (top - 1) as u64);
    }
}

/// A majority of the members is at the shared position.
pub proof fn lemma_shared(node: NodeView)
    ensures
        quorum::furthest_shared(
            node.positions(),
            node.quorum(),
            quorum::shared_position(node.positions(), node.quorum()),
        ),
{
    lemma_shared_exists(node.positions(), node.quorum(), u64::MAX);
}

/// A leader commits an entry only when a majority of the members holds it and
/// it is of the leader's own term; its commit point then only moves forward.
pub proof fn law_commit_needs_a_majority(node: NodeView)
    requires
        node.advance().commit_index != node.commit_index,
    ensures
        node.role == Role::Leader,
        node.advance().commit_index > node.commit_index,
        quorum::reached(node.positions(), node.advance().commit_index) >= node.quorum(),
        node.log.term_at(node.advance().commit_index) == Some(node.current_term),
{
    lemma_shared(node);
}

/// Nobody holds more than the furthest of them, so a leader with peers commits
/// an entry only when one of the peers is known to hold it.
pub proof fn law_isolated_leader_cannot_commit(node: NodeView, index: u64)
    requires
        node.peers.len() > 0,
        node.commit_index < index,
        forall|i: int|
            0 <= i < node.peers.len() && node.match_index.contains_key(
                #[trigger] node.peers[i],
            ) ==> node.match_index[node.peers[i]] < index,
    ensures
        node.advance().commit_index < index,
{
    if node.advance().commit_index >= index {
        lemma_shared(node);
        let x = node.advance().commit_index;
        let known = node.positions().drop_last();
        assert forall|k: int| 0 <= k < known.len() implies #[trigger] known[k] < x by {
            assert(node.positions()[k] == known[k]);
            assert(node.peers[k] == node.peers[k]);
        }
        lemma_nobody_there(known, x);
        assert(node.positions().last() == node.log.last_index());
        assert(quorum::reached(node.positions(), x) <= 1);
    }
}

proof fn lemma_nobody_there(positions: Seq<u64>, x: u64)
    requires
        forall|k: int| 0 <= k < positions.len() ==> #[trigger] positions[k] < x,
    ensures
        quorum::reached(positions, x) == 0,
    decreases positions.len(),
{
    if positions.len() > 0 {
        let front = positions.drop_last();
        assert forall|k: int| 0 <= k < front.len() implies #[trigger] front[k] < x by {
            assert(positions[k] == front[k]);
        }
        lemma_nobody_there(front, x);
        assert(positions[positions.len() - 1] < x);
    }
}

/// A leader that none of its peers has answered within the window stands down
/// in the next round, and gives every pending proposal up.
pub proof fn law_isolated_leader_stands_down(node: NodeView, now: u64)
    requires
        node.role == Role::Leader,
        node.peers.len() > 0,
        forall|i: int|
            0 <= i < node.peers.len() && node.last_response.contains_key(
                #[trigger] node.peers[i],
            ) ==> protocol::elapsed(now, node.last_response[node.peers[i]])
                >= protocol::CONTACT_WINDOW,
    ensures
        node.round(now).role == Role::Follower,
        node.round(now).current_term == node.current_term,
        node.round(now).waiters.len() == 0,
{
    lemma_nobody_in_touch(node, node.peers, now);
}

proof fn lemma_nobody_in_touch(node: NodeView, peers: Seq<u128>, now: u64)
    requires
        forall|i: int|
            0 <= i < peers.len() && node.last_response.contains_key(#[trigger] peers[i])
                ==> protocol::elapsed(now, node.last_response[peers[i]])
                >= protocol::CONTACT_WINDOW,
    ensures
        quorum::count(peers, node.in_touch(now)) == 0,
    decreases peers.len(),
{
    if peers.len() > 0 {
        let front = peers.drop_last();
        assert forall|i: int|
            0 <= i < front.len() && node.last_response.contains_key(
                #[trigger] front[i],
            ) implies protocol::elapsed(now, node.last_response[front[i]])
            >= protocol::CONTACT_WINDOW by {
            assert(peers[i] == front[i]);
        }
        lemma_nobody_in_touch(node, front, now);
        assert(peers[peers.len() - 1] == peers.last());
    }
}

/// A follower's commit point does not move back while its log reaches as far,
/// and never goes past what the leader has committed.
pub proof fn law_follower_commits_no_further_than_its_leader(node: NodeView, leader_commit: u64)
    requires
        node.commit_index <= node.log.last_index(),
    ensures
        node.commit_to(leader_commit).commit_index >= node.commit_index,
        node.commit_to(leader_commit).commit_index <= node.log.last_index(),
        node.commit_to(leader_commit).commit_index > node.commit_index ==> node.commit_to(
            leader_commit,
        ).commit_index <= leader_commit,
{
}

// ----------------------------------------------------------------- replication

/// Whether every entry has a binary form that reads back.
pub open spec fn all_writable(entries: Seq<EntryView>) -> bool {
    forall|i: int| 0 <= i < entries.len() ==> log::writable(#[trigger] entries[i])
}

/// A request carries the leader's own entries, no more than fit in one, and
/// they read back as they are in its log.
pub proof fn law_request_carries_the_leaders_entries(
    node: NodeView,
    peer: u128,
    req: AppendRequestView,
)
    requires
        all_writable(node.log.entries),
        node.request_for(peer) == Some(req),
    ensures
        protocol::readable(req.entries),
        protocol::read(req.entries) == node.log.entries_from(
            node.next_for(peer),
            protocol::MAX_ENTRIES_PER_RPC as int,
        ),
        req.entries.len() <= protocol::MAX_ENTRIES_PER_RPC,
        req.term == node.current_term,
        ids::id_of_text(req.leader_id) == Some(node.id),
        node.log.term_at(req.prev_log_index) == Some(req.prev_log_term),
{
    ids::law_id_text_reads_back(node.id);
    let next = node.next_for(peer);
    let sent = node.log.entries_from(next, protocol::MAX_ENTRIES_PER_RPC as int);
    assert forall|i: int| 0 <= i < sent.len() implies log::read_entry(
        #[trigger] req.entries[i],
    ) == Some(sent[i]) by {
        assert(sent[i] == node.log.entries[next - 1 + i]);
        log::law_entry_reads_back(sent[i]);
    }
    assert(protocol::read(req.entries) =~= sent);
}

/// A request that starts with the first entry is one that no log is too short
/// or too different for.
pub proof fn law_first_entry_always_fits(leader: NodeView, peer: u128, log: LogView)
    requires
        leader.next_for(peer) == 1,
    ensures
        leader.request_for(peer) is Some,
        log.term_at(leader.request_for(peer).unwrap().prev_log_index) == Some(
            leader.request_for(peer).unwrap().prev_log_term,
        ),
{
}

/// A leader whose request is refused starts one entry further back the next
/// time, until it starts with the first.
pub proof fn law_refusal_steps_back(
    node: NodeView,
    peer: u128,
    resp: AppendEntriesResponse,
    now: u64,
)
    requires
        node.role == Role::Leader,
        resp.term <= node.current_term,
        !resp.success,
    ensures
        ({
            let heard = node.hear(peer, node.current_term, resp, now);
            heard.next_for(peer) == (if node.next_for(peer) > 1 {
                node.next_for(peer) - 1
            } else {
                1
            })
        }),
{
}

/// Whether logs that have an entry of the same term at an index hold the same
/// entries up to there.
pub open spec fn logs_match(a: LogView, b: LogView) -> bool {
    forall|i: int|
        0 <= i < a.entries.len() && i < b.entries.len() && (#[trigger] a.entries[i]).term
            == (#[trigger] b.entries[i]).term ==> a.entries.take(i + 1) == b.entries.take(i + 1)
}

/// Up to `first_new` the log holds the entries.
pub proof fn lemma_first_new(log: LogView, entries: Seq<EntryView>, i: int)
    requires
        0 <= i <= entries.len(),
    ensures
        i <= log.first_new(entries, i) <= entries.len(),
        forall|k: int|
            i <= k < log.first_new(entries, i) ==> log.term_at((#[trigger] entries[k]).index)
                == Some(entries[k].term),
        log.first_new(entries, i) < entries.len() ==> log.term_at(
            entries[log.first_new(entries, i)].index,
        ) != Some(entries[log.first_new(entries, i)].term),
    decreases entries.len() - i,
{
    if i < entries.len() && log.term_at(entries[i].index) == Some(entries[i].term) {
        lemma_first_new(log, entries, i + 1);
    }
}

/// A follower that takes in a leader's request holds the leader's entries up to
/// the last one that the request carries, provided their logs matched before;
/// and their logs match afterwards.
pub proof fn law_accepted_entries_match_the_leader(
    leader: LogView,
    follower: LogView,
    prev: int,
    n: int,
)
    requires
        leader.contiguous(),
        follower.contiguous(),
        leader.entries.len() <= u64::MAX,
        follower.entries.len() <= u64::MAX,
        logs_match(follower, leader),
        0 <= prev,
        0 <= n,
        prev + n <= leader.entries.len(),
        follower.term_at(prev as u64) == leader.term_at(prev as u64),
    ensures
        ({
            let entries = leader.entries.subrange(prev, prev + n);
            let taken = follower.reconciled(entries);
            &&& taken.entries.len() >= prev + n
            &&& taken.entries.take(prev + n) == leader.entries.take(prev + n)
            &&& logs_match(taken, leader)
            &&& taken.contiguous()
        }),
{
    let entries = leader.entries.subrange(prev, prev + n);
    let i = follower.first_new(entries, 0);
    let taken = follower.reconciled(entries);
    lemma_first_new(follower, entries, 0);
    // Both hold the same entries up to where the request begins.
    assert(prev <= follower.entries.len());
    assert(follower.entries.take(prev) == leader.entries.take(prev)) by {
        if prev == 0 {
            assert(follower.entries.take(0) =~= leader.entries.take(0));
        } else {
            assert(follower.entries[prev - 1].term == leader.entries[prev - 1].term);
        }
    }
    // And up to the first entry of it that the follower does not hold.
    assert(prev + i <= follower.entries.len() && follower.entries.take(prev + i)
        == leader.entries.take(prev + i)) by {
        if i > 0 {
            let k = prev + i - 1;
            assert(entries[i - 1] == leader.entries[k]);
            assert(leader.entries[k].index == k + 1);
            assert(follower.term_at(entries[i - 1].index) == Some(entries[i - 1].term));
            assert(follower.entries[k].term == leader.entries[k].term);
        }
    }
    if i < n {
        assert(entries[i] == leader.entries[prev + i]);
        assert(entries[i].index == prev + i + 1);
        let cut = follower.cut_for(entries);
        assert(cut.entries =~= follower.entries.take(prev + i)) by {
            if follower.term_at(entries[i].index) is Some {
                assert(follower.last_index() == follower.entries.len());
            } else {
                assert(follower.entries.take(prev + i) =~= follower.entries);
            }
        }
        assert(taken.entries =~= leader.entries.take(prev + n)) by {
            assert(entries.skip(i) =~= leader.entries.subrange(prev + i, prev + n));
            assert(leader.entries.take(prev + i) + leader.entries.subrange(prev + i, prev + n)
                =~= leader.entries.take(prev + n));
        }
        assert(taken.entries.take(prev + n) =~= leader.entries.take(prev + n));
        assert forall|k: int|
            0 <= k < taken.entries.len() && k < leader.entries.len() && (
            #[trigger] taken.entries[k]).term == (#[trigger] leader.entries[k]).term implies
            taken.entries.take(k + 1) == leader.entries.take(k + 1) by {
            assert(taken.entries.take(k + 1) =~= leader.entries.take(k + 1));
        }
        assert forall|k: int| 0 <= k < taken.entries.len() implies (
        #[trigger] taken.entries[k]).index == k + 1 by {
            assert(taken.entries[k] == leader.entries[k]);
        }
    } else {
        assert(entries.skip(i) =~= Seq::empty());
        assert(taken.entries =~= follower.entries);
    }
}

// -------------------------------------------------------------------- applying

/// The records that entries carry, in order.
pub open spec fn records(entries: Seq<EntryView>) -> Seq<RecordView>
    decreases entries.len(),
{
    if entries.len() == 0 {
        Seq::empty()
    } else {
        let before = records(entries.drop_last());
        match entries.last().payload {
            PayloadView::Noop => before,
            PayloadView::Queue(record) => before.push(record),
        }
    }
}

/// The queue that the first `n` entries of a log lead to from `base`.
pub open spec fn replay(base: QueueView, log: LogView, n: int) -> QueueView {
    base.apply_all(records(log.entries.take(n)))
}

/// How far a member applies its log.
pub open spec fn applicable(node: NodeView) -> int {
    let reach = if node.commit_index < node.log.entries.len() {
        node.commit_index as int
    } else {
        node.log.entries.len() as int
    };
    if node.last_applied < reach {
        reach
    } else {
        node.last_applied as int
    }
}

proof fn lemma_drain(node: NodeView, base: QueueView, most: nat)
    requires
        node.log.contiguous(),
        node.last_applied <= node.log.entries.len(),
        node.state == replay(base, node.log, node.last_applied as int),
        most >= node.log.entries.len() - node.last_applied,
    ensures
        node.drain(most).last_applied == applicable(node),
        node.drain(most).state == replay(base, node.log, applicable(node)),
    decreases most,
{
    if most > 0 && node.can_apply() {
        let next = node.apply_next();
        let k = node.last_applied as int;
        let entry = node.log.entries[k];
        assert(entry.index == k + 1);
        assert(node.log.entries.take(k + 1).drop_last() =~= node.log.entries.take(k));
        if let PayloadView::Queue(record) = entry.payload {
            let before = records(node.log.entries.take(k));
            assert(before.push(record).drop_last() =~= before);
        }
        lemma_drain(next, base, (most - 1) as nat);
    }
}

/// The queue is always what the applied part of the log leads to: applying what
/// is committed goes as far as the log and the commit point reach, and the queue
/// is then the replay of just that part.
pub proof fn law_queue_is_the_replay_of_the_log(node: NodeView, base: QueueView)
    requires
        node.log.contiguous(),
        node.last_applied <= node.log.entries.len(),
        node.state == replay(base, node.log, node.last_applied as int),
    ensures
        node.settle().last_applied == applicable(node),
        node.settle().state == replay(base, node.log, applicable(node)),
        node.settle().log == node.log,
{
    lemma_drain(node, base, node.log.entries.len());
    lemma_drain_frame(node, node.log.entries.len());
}

/// Taking entries in at the end leaves the replay of the applied part as it is.
pub proof fn law_appending_keeps_the_replay(
    node: NodeView,
    base: QueueView,
    write: log::AppendView,
)
    requires
        node.last_applied <= node.log.entries.len(),
        node.state == replay(base, node.log, node.last_applied as int),
    ensures
        node.stored(write).state == replay(
            base,
            node.stored(write).log,
            node.last_applied as int,
        ),
{
    assert(node.stored(write).log.entries.take(node.last_applied as int)
        =~= node.log.entries.take(node.last_applied as int));
}

/// Replicas agree: two members that have applied the same entries hold the same
/// queue.
pub proof fn law_replicas_agree(a: NodeView, b: NodeView, base: QueueView)
    requires
        a.last_applied == b.last_applied,
        a.log.entries.take(a.last_applied as int) == b.log.entries.take(b.last_applied as int),
        a.state == replay(base, a.log, a.last_applied as int),
        b.state == replay(base, b.log, b.last_applied as int),
    ensures
        a.state == b.state,
{
}

/// A restart loses nothing that was committed: a member that starts anew with
/// an empty queue from the file of its log reaches the queue that it had, once
/// it learns how far the log is committed.
pub proof fn law_restart_rebuilds_the_queue(
    before: NodeView,
    restarted: NodeView,
    disk: Seq<u8>,
)
    requires
        before.log.contiguous(),
        before.log.describes(disk),
        restarted.log.describes(disk),
        before.last_applied <= before.log.entries.len(),
        before.state == replay(QueueView::empty(), before.log, before.last_applied as int),
        restarted.state == QueueView::empty(),
        restarted.last_applied == 0,
        restarted.commit_index == before.last_applied,
    ensures
        restarted.settle().state == before.state,
        restarted.settle().last_applied == before.last_applied,
{
    log_laws::law_reload_is_decided_by_the_file(before.log, restarted.log, disk);
    assert(restarted.log.entries.take(0) =~= Seq::empty());
    law_queue_is_the_replay_of_the_log(restarted, QueueView::empty());
}

/// A pending proposal is let go when the log is applied up to its index.
pub proof fn lemma_waiter_settles(node: NodeView, index: u64, ticket: u64)
    requires
        node.waiters.contains((index, ticket)),
    ensures
        index <= node.settle().last_applied ==> node.settled().contains(ticket),
        index > node.settle().last_applied ==> node.settle().waiters.contains((index, ticket)),
{
    lemma_drain_frame(node, node.log.entries.len());
    let drained = node.drained();
    let i = node.waiters.index_of((index, ticket));
    let within = protocol::waits_within(drained.last_applied);
    let beyond = protocol::waits_beyond(drained.last_applied);
    if index <= drained.last_applied {
        drained.waiters.lemma_filter_contains(within, i);
        let done = drained.waiters.filter(within);
        let k = done.index_of((index, ticket));
        assert(protocol::tickets(done)[k] == ticket);
    } else {
        drained.waiters.lemma_filter_contains(beyond, i);
    }
}

/// The leader of a cluster of one is its own majority: what it has written it
/// commits and applies at once, and the proposal is done.
pub proof fn law_single_node_commits_on_its_own(node: NodeView, record: RecordView, ticket: u64)
    requires
        node.peers.len() == 0,
        node.role == Role::Leader,
        node.log.contiguous(),
        node.log.entries.len() < u64::MAX,
        node.commit_index <= node.log.entries.len(),
        node.last_applied <= node.log.entries.len(),
    ensures
        ({
            let write = node.log.plan(seq![node.proposal(record)]);
            let waiting = node.stored(write).wait(ticket);
            let end = waiting.advance().settle();
            &&& end.log.last_index() == node.log.entries.len() + 1
            &&& end.commit_index == end.log.last_index()
            &&& end.last_applied == end.log.last_index()
            &&& waiting.advance().settled().contains(ticket)
        }),
{
    let write = node.log.plan(seq![node.proposal(record)]);
    let waiting = node.stored(write).wait(ticket);
    let last = waiting.log.last_index();
    assert(waiting.log.contiguous());
    assert(waiting.positions() =~= seq![last]);
    assert(waiting.quorum() == 1);
    reveal_with_fuel(quorum::reached, 2);
    assert(quorum::furthest_shared(waiting.positions(), 1, last));
    quorum::lemma_shared_position(waiting.positions(), 1, last);
    let committed = waiting.advance();
    lemma_drain_reach(committed, committed.log.entries.len());
    lemma_drain_frame(committed, committed.log.entries.len());
    let (index, own) = committed.waiters.last();
    assert(committed.waiters.contains((index, own)));
    lemma_waiter_settles(committed, last, ticket);
}

/// How far applying goes does not depend on the queue.
pub proof fn lemma_drain_reach(node: NodeView, most: nat)
    requires
        node.log.contiguous(),
        node.last_applied <= node.log.entries.len(),
        most >= node.log.entries.len() - node.last_applied,
    ensures
        node.drain(most).last_applied == applicable(node),
    decreases most,
{
    if most > 0 && node.can_apply() {
        assert(node.log.entries[node.last_applied as int].index == node.last_applied + 1);
        lemma_drain_reach(node.apply_next(), (most - 1) as nat);
    }
}

// ------------------------------------------------------------- taken together

/// Taking a leader's request in step by step, with storage that does not fail,
/// comes to taking it in as a whole.
pub proof fn law_steps_of_an_append_add_up(node: NodeView, req: AppendRequestView, now: u64)
    ensures
        ({
            let met = node.meet_leader(req, now);
            let incoming = raft::IncomingView::of(node.log, req);
            let cut = NodeView { kept: true, ..met }.cut_after(incoming.after);
            let write = cut.log.plan(incoming.fresh);
            let taken = cut.stored(write).commit_to(incoming.leader_commit);
            taken.settle() == node.accept(req, now)
        }),
{
}

/// What a leader appends takes the next slot of its log: entries stay where
/// their indices say.
pub proof fn law_leaders_log_stays_contiguous(node: NodeView, record: RecordView)
    requires
        node.log.contiguous(),
        node.log.entries.len() < u64::MAX,
    ensures
        node.stored(node.log.plan(seq![node.proposal(record)])).log.contiguous(),
        node.stored(node.log.plan(seq![node.opening()])).log.contiguous(),
        node.proposal(record).index == node.log.entries.len() + 1,
        node.opening().index == node.log.entries.len() + 1,
{
}

/// Nothing is committed that is not in the log, and nothing is applied that is
/// not committed.
pub proof fn law_applied_within_committed_within_the_log(node: NodeView)
    requires
        node.log.contiguous(),
        node.last_applied <= node.commit_index <= node.log.entries.len(),
    ensures
        ({
            let after = node.advance().settle();
            after.last_applied <= after.commit_index <= after.log.entries.len()
        }),
{
    let committed = node.advance();
    lemma_drain_reach(committed, committed.log.entries.len());
    lemma_drain_frame(committed, committed.log.entries.len());
}

/// Whether entries run on from an index.
pub open spec fn runs_on(entries: Seq<EntryView>, prev: int) -> bool {
    forall|k: int| 0 <= k < entries.len() ==> (#[trigger] entries[k]).index == prev + k + 1
}

/// A log that has taken in entries that run on from one of its own still has
/// every entry in its place, and holds them.
pub proof fn lemma_taken_in(node: NodeView, entries: Seq<EntryView>, prev: int)
    requires
        node.log.contiguous(),
        0 <= prev <= node.log.entries.len(),
        runs_on(entries, prev),
    ensures
        ({
            let after = node.with_entries(entries);
            let i = node.log.first_new(entries, 0);
            &&& after.log.contiguous()
            &&& after.log.first_new(entries, 0) == entries.len()
            &&& prev + i <= node.log.entries.len()
            &&& i < entries.len() ==> after.log.entries == node.log.entries.take(prev + i)
                + entries.skip(i)
            &&& i == entries.len() ==> after == node
            &&& forall|k: int|
                0 <= k < prev ==> #[trigger] after.log.entries[k] == node.log.entries[k]
        }),
{
    let log = node.log;
    let after = node.with_entries(entries);
    let i = log.first_new(entries, 0);
    lemma_first_new(log, entries, 0);
    assert(prev + i <= log.entries.len()) by {
        if i > 0 {
            assert(log.term_at(entries[i - 1].index) is Some);
        }
    }
    if i < entries.len() {
        let cut = node.cut_after(log.conflict(entries));
        assert(entries[i].index == prev + i + 1);
        assert(cut.log.entries =~= log.entries.take(prev + i));
        assert(after.log.entries =~= log.entries.take(prev + i) + entries.skip(i));
        assert forall|k: int| 0 <= k < after.log.entries.len() implies (
        #[trigger] after.log.entries[k]).index == k + 1 by {
            if k >= prev + i {
                assert(after.log.entries[k] == entries[k - prev]);
            } else {
                assert(after.log.entries[k] == log.entries[k]);
            }
        }
        assert forall|k: int| 0 <= k < entries.len() implies after.log.term_at(
            (#[trigger] entries[k]).index,
        ) == Some(entries[k].term) by {
            if k < i {
                assert(log.term_at(entries[k].index) == Some(entries[k].term));
                assert(after.log.entries[prev + k] == log.entries[prev + k]);
            } else {
                assert(after.log.entries[prev + k] == entries[k]);
            }
        }
    } else {
        assert(entries.skip(i) =~= Seq::empty());
        assert(log.append(entries.skip(i)).entries =~= log.entries);
        assert(log.append(entries.skip(i)).offsets =~= log.offsets);
        assert(log.append(entries.skip(i)) == log);
    }
    lemma_first_new(after.log, entries, 0);
}

/// Settling twice is settling once.
proof fn lemma_settled_stays(node: NodeView)
    requires
        node.log.contiguous(),
    ensures
        node.settle().settle() == node.settle(),
        node.settle().settled().len() == 0,
{
    let after = node.settle();
    lemma_drain_frame(node, node.log.entries.len());
    if node.last_applied <= node.log.entries.len() {
        lemma_drain_reach(node, node.log.entries.len());
    } else {
        assert(!node.can_apply());
    }
    assert(!after.can_apply());
    assert(after.drained() == after);
    let applied = after.last_applied;
    let beyond = protocol::waits_beyond(applied);
    let within = protocol::waits_within(applied);
    assert forall|k: int| 0 <= k < after.waiters.len() implies beyond(
        #[trigger] after.waiters[k],
    ) by {
        node.drained().waiters.lemma_filter_pred(beyond, k);
    }
    lemma_filter_all(after.waiters, beyond);
    lemma_filter_none(after.waiters, within);
}

proof fn lemma_filter_all(s: Seq<(u64, u64)>, p: spec_fn((u64, u64)) -> bool)
    requires
        forall|k: int| 0 <= k < s.len() ==> p(#[trigger] s[k]),
    ensures
        s.filter(p) == s,
    decreases s.len(),
{
    reveal(Seq::filter);
    if s.len() > 0 {
        let front = s.drop_last();
        assert forall|k: int| 0 <= k < front.len() implies p(#[trigger] front[k]) by {
            assert(front[k] == s[k]);
        }
        lemma_filter_all(front, p);
        assert(p(s[s.len() - 1]));
        assert(s =~= front.push(s.last()));
    }
}

proof fn lemma_filter_none(s: Seq<(u64, u64)>, p: spec_fn((u64, u64)) -> bool)
    requires
        forall|k: int| 0 <= k < s.len() ==> !p(#[trigger] s[k]),
    ensures
        s.filter(p).len() == 0,
    decreases s.len(),
{
    reveal(Seq::filter);
    if s.len() > 0 {
        let front = s.drop_last();
        assert forall|k: int| 0 <= k < front.len() implies !p(#[trigger] front[k]) by {
            assert(front[k] == s[k]);
        }
        lemma_filter_none(front, p);
        assert(!p(s[s.len() - 1]));
    }
}

/// A request that is sent again has no further effect: taken in twice, it
/// leaves the log, the term, the part played, the leader, the commit point, the
/// queue and the proposals as taking it in once left them, settles and gives up
/// none, and is answered the same.
pub proof fn law_request_sent_again_has_no_further_effect(
    node: NodeView,
    req: AppendRequestView,
    now: u64,
    later: u64,
)
    requires
        node.log.contiguous(),
        node.admits(req),
        runs_on(protocol::read(req.entries), req.prev_log_index as int),
    ensures
        ({
            let once = node.accept(req, now);
            let entries = protocol::read(req.entries);
            let again = NodeView { kept: true, ..once.meet_leader(req, later) };
            &&& once.admits(req)
            &&& once.accept(req, later) == (NodeView { last_heard: later, ..once })
            &&& !once.owes_keeping(req, later)
            &&& again.given_up(again.log.conflict(entries)).len() == 0
            &&& again.with_entries(entries).commit_to(req.leader_commit).settled().len() == 0
        }),
{
    let entries = protocol::read(req.entries);
    let prev = req.prev_log_index as int;
    let met = NodeView { kept: true, ..node.meet_leader(req, now) };
    let taken = met.with_entries(entries);
    let committed = taken.commit_to(req.leader_commit);
    let once = committed.settle();
    assert(met.log == node.log);
    lemma_taken_in(met, entries, prev);
    lemma_drain_frame(committed, committed.log.entries.len());
    assert(once.log == taken.log);
    assert(once.commit_index == committed.commit_index);
    let again = NodeView { kept: true, ..once.meet_leader(req, later) };
    assert(again == (NodeView { last_heard: later, ..once }));
    assert(once.log.term_at(req.prev_log_index) == Some(req.prev_log_term)) by {
        if prev > 0 {
            assert(taken.log.entries[prev - 1] == node.log.entries[prev - 1]);
        }
    }
    lemma_taken_in(again, entries, prev);
    assert(again.with_entries(entries) == again);
    assert(again.commit_to(req.leader_commit) == again);
    lemma_settled_stays(committed);
    lemma_settle_ignores_hearing(once, later);
}

/// When a member last heard from its leader plays no part in applying.
proof fn lemma_settle_ignores_hearing(node: NodeView, later: u64)
    requires
        node.settle() == node,
        node.settled().len() == 0,
    ensures
        (NodeView { last_heard: later, ..node }).settle() == (NodeView {
            last_heard: later,
            ..node
        }),
        (NodeView { last_heard: later, ..node }).settled().len() == 0,
{
    let moved = NodeView { last_heard: later, ..node };
    lemma_drain_hearing(node, later, node.log.entries.len());
    lemma_drain_frame(node, node.log.entries.len());
}

proof fn lemma_drain_hearing(node: NodeView, later: u64, most: nat)
    ensures
        (NodeView { last_heard: later, ..node }).drain(most) == (NodeView {
            last_heard: later,
            ..node.drain(most)
        }),
    decreases most,
{
    if most > 0 && node.can_apply() {
        lemma_drain_hearing(node.apply_next(), later, (most - 1) as nat);
        assert((NodeView { last_heard: later, ..node }).apply_next() == (NodeView {
            last_heard: later,
            ..node.apply_next()
        }));
    }
}

} // verus!
