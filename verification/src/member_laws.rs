//! What each step makes of a member.
use crate::ids;
use crate::ids::NodeId;
use crate::log;
use crate::log::{EntryView, LogView, PayloadView};
use crate::protocol;
use crate::protocol::{
    AppendEntriesResponse, AppendRequestView, NodeView, RequestVoteResponse, Role,
    VoteRequestView,
};
use crate::quorum;
use crate::raft;
use crate::raft::OpenError;
use crate::raft_laws;
use crate::safety;
use crate::state;
use crate::state::{QueueView, RecordView};
use vstd::prelude::*;

verus! {

// ------------------------------------------------------------------ majorities

/// A majority is more than half of the members, and no smaller number is: one
/// fewer is half of them at the most.
pub proof fn law_majority_is_more_than_half(peers: nat)
    ensures
        2 * quorum::majority(peers) > peers + 1,
        2 * (quorum::majority(peers) - 1) <= peers + 1,
{
}

/// Peers known to hold a log up to `x` are counted among those who do.
proof fn lemma_holders_are_counted(node: NodeView, n: int, x: u64, holders: Set<u128>)
    requires
        0 <= n <= node.peers.len(),
        holders.finite(),
        forall|p: u128| #[trigger]
            holders.contains(p) ==> {
                &&& exists|k: int| 0 <= k < n && #[trigger] node.peers[k] == p
                &&& node.match_index.contains_key(p)
                &&& x <= node.match_index[p]
            },
    ensures
        holders.len() <= quorum::reached(node.positions().take(n), x),
    decreases n,
{
    if n == 0 {
        assert(holders =~= Set::empty()) by {
            assert forall|p: u128| !holders.contains(p) by {
                if holders.contains(p) {
                    let k = choose|k: int| 0 <= k < n && #[trigger] node.peers[k] == p;
                }
            }
        }
    } else {
        let p = node.peers[n - 1];
        let fewer = holders.remove(p);
        assert forall|other: u128| #[trigger] fewer.contains(other) implies {
            &&& exists|k: int| 0 <= k < n - 1 && #[trigger] node.peers[k] == other
            &&& node.match_index.contains_key(other)
            &&& x <= node.match_index[other]
        } by {
            assert(holders.contains(other));
            let k = choose|k: int| 0 <= k < n && #[trigger] node.peers[k] == other;
            assert(k < n - 1);
        }
        lemma_holders_are_counted(node, n - 1, x, fewer);
        assert(node.positions().take(n).drop_last() =~= node.positions().take(n - 1));
        assert(node.positions().take(n).last() == node.positions()[n - 1]);
    }
}

// ------------------------------------------------------------------ committing

/// What a majority holds is committed: as soon as a leader and enough of its peers
/// to make more than half of the members hold its log up to an entry of its own
/// term, that entry is committed. Nobody else needs to hold it.
pub proof fn law_what_a_majority_holds_is_committed(
    node: NodeView,
    x: u64,
    holders: Set<u128>,
)
    requires
        node.role == Role::Leader,
        node.log.contiguous(),
        node.log.entries.len() <= u64::MAX,
        node.commit_index < x <= node.log.entries.len(),
        forall|i: int|
            x - 1 <= i < node.log.entries.len() ==> (#[trigger] node.log.entries[i]).term
                == node.current_term,
        forall|p: u128|
            node.peers.contains(p) && #[trigger] node.match_index.contains_key(p)
                ==> node.match_index[p] <= node.log.entries.len(),
        holders.finite(),
        forall|p: u128| #[trigger]
            holders.contains(p) ==> node.peers.contains(p) && node.match_index.contains_key(p)
                && x <= node.match_index[p],
        2 * (holders.len() + 1) > node.peers.len() + 1,
    ensures
        node.advance().commit_index >= x,
        node.advance().commit_index <= node.log.entries.len(),
{
    let positions = node.positions();
    let n = node.peers.len() as int;
    let shared = quorum::shared_position(positions, node.quorum());
    raft_laws::lemma_shared(node);
    assert forall|p: u128| #[trigger] holders.contains(p) implies {
        &&& exists|k: int| 0 <= k < n && #[trigger] node.peers[k] == p
        &&& node.match_index.contains_key(p)
        &&& x <= node.match_index[p]
    } by {
        assert(node.peers[node.peers.index_of(p)] == p);
    }
    lemma_holders_are_counted(node, n, x, holders);
    assert(positions.take(n) =~= positions.drop_last());
    assert(node.log.last_index() == node.log.entries.len()) by {
        assert(node.log.entries[node.log.entries.len() - 1].index == node.log.entries.len());
    }
    assert(quorum::reached(positions, x) >= node.quorum());
    assert(shared >= x);
    let j = quorum::lemma_nearest(positions, shared);
    assert(positions[j] <= node.log.entries.len()) by {
        if j < n {
            assert(node.peers.contains(node.peers[j]));
        }
    }
    assert(node.log.entries[shared - 1].term == node.current_term);
}

/// Nothing is committed that is not held by a majority: if a leader's commit point
/// moves, then to an entry of its own term that it and enough of its peers to make
/// more than half of the members hold.
pub proof fn law_what_is_committed_is_held_by_more_than_half(node: NodeView) -> (holders: Set<
    u128,
>)
    requires
        node.peers.no_duplicates(),
        node.advance().commit_index != node.commit_index,
    ensures
        node.role == Role::Leader,
        node.advance().commit_index > node.commit_index,
        node.advance().commit_index <= node.log.entries.len(),
        node.log.entries[node.advance().commit_index - 1].term == node.current_term,
        holders.finite(),
        2 * (holders.len() + 1) > node.peers.len() + 1,
        forall|p: u128| #[trigger]
            holders.contains(p) ==> node.peers.contains(p) && node.match_index.contains_key(p)
                && node.advance().commit_index <= node.match_index[p],
{
    raft_laws::lemma_shared(node);
    let x = node.advance().commit_index;
    let n = node.peers.len() as int;
    let holders = safety::lemma_holders(node, n, x);
    assert(node.positions().take(n) =~= node.positions().drop_last());
    assert forall|p: u128| #[trigger] holders.contains(p) implies node.peers.contains(p)
        && node.match_index.contains_key(p) && x <= node.match_index[p] by {
        let k = choose|k: int| 0 <= k < n && #[trigger] node.peers[k] == p;
        assert(node.peers.contains(p));
    }
    holders
}

/// The peers that a member knows to hold its log up to `x`.
pub open spec fn holders(node: NodeView, x: u64) -> Set<u128> {
    Set::new(
        |p: u128|
            node.peers.contains(p) && node.match_index.contains_key(p) && x
                <= node.match_index[p],
    )
}

/// Whether more than half of the members hold a log up to `x`.
pub open spec fn held_by_most(node: NodeView, x: u64) -> bool {
    2 * (holders(node, x).len() + if x <= node.log.last_index() {
        1int
    } else {
        0
    }) > node.peers.len() + 1
}

proof fn lemma_counted_as_held(node: NodeView, x: u64)
    requires
        node.peers.no_duplicates(),
        x > 0,
    ensures
        quorum::reached(node.positions(), x) >= node.quorum() <==> held_by_most(node, x),
{
    let n = node.peers.len() as int;
    let all = holders(node, x);
    let found = safety::lemma_holders(node, n, x);
    assert(node.positions().take(n) =~= node.positions().drop_last());
    assert(all.subset_of(node.peers.to_set()));
    vstd::seq_lib::seq_to_set_is_finite(node.peers);
    vstd::set_lib::lemma_len_subset(all, node.peers.to_set());
    assert forall|p: u128| #[trigger] all.contains(p) implies {
        &&& exists|k: int| 0 <= k < n && #[trigger] node.peers[k] == p
        &&& node.match_index.contains_key(p)
        &&& x <= node.match_index[p]
    } by {
        assert(node.peers[node.peers.index_of(p)] == p);
    }
    lemma_holders_are_counted(node, n, x, all);
    assert forall|p: u128| found.contains(p) implies #[trigger] all.contains(p) by {
        let k = choose|k: int| 0 <= k < n && #[trigger] node.peers[k] == p;
        assert(node.peers.contains(p));
    }
    vstd::set_lib::lemma_len_subset(found, all);
}

/// The commit point goes where most members are: of all that more than half of the
/// members hold, a leader commits the furthest, if it is beyond what is committed
/// and of the leader's own term, and nothing otherwise.
pub proof fn law_commit_point_is_the_furthest_held_by_most(node: NodeView, x: u64)
    requires
        node.peers.no_duplicates(),
        x == 0 || held_by_most(node, x),
        forall|y: u64| y > x ==> !#[trigger] held_by_most(node, y),
    ensures
        node.advance().commit_index == (if node.role == Role::Leader && x > node.commit_index && x
            <= node.log.entries.len() && node.log.entries[x - 1].term == node.current_term {
            x
        } else {
            node.commit_index
        }),
{
    raft_laws::lemma_shared(node);
    let shared = quorum::shared_position(node.positions(), node.quorum());
    if x > 0 {
        lemma_counted_as_held(node, x);
        assert(shared >= x);
    }
    if shared > x {
        lemma_counted_as_held(node, shared);
    }
    assert(shared == x);
}

/// Committing moves the commit point and nothing else.
pub proof fn law_committing_moves_the_commit_point_alone(node: NodeView)
    ensures
        node.advance() == (NodeView { commit_index: node.advance().commit_index, ..node }),
        node.advance().commit_index >= node.commit_index,
        node.role != Role::Leader ==> node.advance() == node,
{
}

/// The answer that completes a majority commits: once one more peer says that it
/// holds the log up to an entry of the leader's term, and the leader and the peers
/// that hold it are more than half of the members, the entry is committed and
/// applied, and the proposals that waited for it are done.
pub proof fn law_answer_that_completes_a_majority_commits(
    node: NodeView,
    peer: u128,
    resp: AppendEntriesResponse,
    now: u64,
    x: u64,
    holders: Set<u128>,
    ticket: u64,
)
    requires
        node.role == Role::Leader,
        node.log.contiguous(),
        node.log.entries.len() < u64::MAX,
        node.last_applied <= node.log.entries.len(),
        node.commit_index < x <= node.log.entries.len(),
        forall|i: int|
            x - 1 <= i < node.log.entries.len() ==> (#[trigger] node.log.entries[i]).term
                == node.current_term,
        forall|p: u128|
            node.peers.contains(p) && #[trigger] node.match_index.contains_key(p)
                ==> node.match_index[p] <= node.log.entries.len(),
        node.peers.contains(peer),
        resp.success,
        resp.term <= node.current_term,
        x <= resp.match_index <= node.log.entries.len(),
        holders.finite(),
        forall|p: u128| #[trigger]
            holders.contains(p) ==> p == peer || (node.peers.contains(p)
                && node.match_index.contains_key(p) && x <= node.match_index[p]),
        2 * (holders.insert(peer).len() + 1) > node.peers.len() + 1,
    ensures
        ({
            let heard = node.hear(peer, node.current_term, resp, now);
            let end = heard.advance().settle();
            &&& end.commit_index >= x
            &&& end.last_applied >= x
            &&& node.waiters.contains((x, ticket)) ==> heard.advance().settled().contains(ticket)
        }),
{
    let heard = node.hear(peer, node.current_term, resp, now);
    law_what_a_majority_holds_is_committed(heard, x, holders.insert(peer));
    let committed = heard.advance();
    raft_laws::lemma_drain_reach(committed, committed.log.entries.len());
    raft_laws::lemma_drain_frame(committed, committed.log.entries.len());
    if node.waiters.contains((x, ticket)) {
        raft_laws::lemma_waiter_settles(committed, x, ticket);
    }
}

/// A follower commits what its leader has committed as far as its own log reaches,
/// all of it, and keeps what it has committed.
pub proof fn law_follower_commits_what_its_leader_has(node: NodeView, leader_commit: u64)
    ensures
        ({
            let after = node.commit_to(leader_commit);
            &&& after == (NodeView { commit_index: after.commit_index, ..node })
            &&& leader_commit > node.commit_index && leader_commit <= node.log.last_index()
                ==> after.commit_index == leader_commit
            &&& leader_commit > node.commit_index && leader_commit > node.log.last_index()
                ==> after.commit_index == node.log.last_index()
            &&& leader_commit <= node.commit_index ==> after.commit_index == node.commit_index
        }),
{
}

// -------------------------------------------------------------------- applying

/// Everything that is committed is applied, entry by entry: the last one is applied
/// to the queue that those before it led to.
pub proof fn law_committed_entries_are_applied_one_by_one(node: NodeView)
    requires
        node.log.contiguous(),
        node.last_applied <= node.commit_index <= node.log.entries.len(),
    ensures
        ({
            let end = node.settle();
            &&& end.last_applied == node.commit_index
            &&& end.commit_index == node.commit_index
            &&& end.log == node.log
            &&& node.last_applied == node.commit_index ==> end.state == node.state
            &&& node.last_applied < node.commit_index ==> {
                let before = NodeView {
                    commit_index: (node.commit_index - 1) as u64,
                    ..node
                }.settle();
                &&& before.last_applied == node.commit_index - 1
                &&& end.state == match node.log.entries[node.commit_index - 1].payload {
                    PayloadView::Noop => before.state,
                    PayloadView::Queue(record) => before.state.apply(record),
                }
            }
        }),
{
    let most = node.log.entries.len();
    raft_laws::lemma_drain_reach(node, most);
    raft_laws::lemma_drain_frame(node, most);
    if node.last_applied < node.commit_index {
        let before = NodeView { commit_index: (node.commit_index - 1) as u64, ..node };
        raft_laws::lemma_drain_reach(before, most);
        lemma_last_entry(node, most);
    }
}

proof fn lemma_last_entry(node: NodeView, most: nat)
    requires
        node.log.contiguous(),
        node.last_applied < node.commit_index <= node.log.entries.len(),
        most >= node.commit_index - node.last_applied,
    ensures
        ({
            let before = NodeView { commit_index: (node.commit_index - 1) as u64, ..node }.drain(
                most,
            );
            node.drain(most).state == match node.log.entries[node.commit_index - 1].payload {
                PayloadView::Noop => before.state,
                PayloadView::Queue(record) => before.state.apply(record),
            }
        }),
    decreases most,
{
    let before = NodeView { commit_index: (node.commit_index - 1) as u64, ..node };
    assert(node.log.entries[node.last_applied as int].index == node.last_applied + 1);
    assert(node.can_apply());
    let next = node.apply_next();
    reveal_with_fuel(NodeView::drain, 2);
    if node.last_applied + 1 == node.commit_index {
        assert(!before.can_apply());
        assert(!next.can_apply());
    } else {
        assert(before.can_apply());
        lemma_last_entry(next, (most - 1) as nat);
        assert(before.apply_next() == (NodeView {
            commit_index: (next.commit_index - 1) as u64,
            ..next
        }));
    }
}

/// Every pending proposal is done or still pending after what is committed has been
/// applied: as many as there were, none lost and none counted twice.
pub proof fn law_no_proposal_is_lost_in_applying(node: NodeView)
    ensures
        node.settled().len() + node.settle().waiters.len() == node.waiters.len(),
        node.settle() == (NodeView {
            state: node.settle().state,
            last_applied: node.settle().last_applied,
            waiters: node.settle().waiters,
            ..node
        }),
{
    raft_laws::lemma_drain_frame(node, node.log.entries.len());
    lemma_drain_touches(node, node.log.entries.len());
    lemma_parts(node.waiters, node.drained().last_applied);
}

proof fn lemma_drain_touches(node: NodeView, most: nat)
    ensures
        node.drain(most) == (NodeView {
            state: node.drain(most).state,
            last_applied: node.drain(most).last_applied,
            ..node
        }),
    decreases most,
{
    if most > 0 && node.can_apply() {
        lemma_drain_touches(node.apply_next(), (most - 1) as nat);
    }
}

proof fn lemma_parts(waiters: Seq<(u64, u64)>, applied: u64)
    ensures
        waiters.filter(protocol::waits_within(applied)).len() + waiters.filter(
            protocol::waits_beyond(applied),
        ).len() == waiters.len(),
    decreases waiters.len(),
{
    reveal(Seq::filter);
    if waiters.len() > 0 {
        lemma_parts(waiters.drop_last(), applied);
    }
}

/// A ticket is handed out for each proposal, in order.
pub proof fn law_tickets_are_those_of_the_proposals(waiters: Seq<(u64, u64)>, i: int)
    requires
        0 <= i < waiters.len(),
    ensures
        protocol::tickets(waiters).len() == waiters.len(),
        protocol::tickets(waiters)[i] == waiters[i].1,
{
}

// ---------------------------------------------------------------------- voting

/// A vote is granted to every candidate that it is owed to and to no other: one
/// that can be identified, campaigns in this term or a later one, has not lost this
/// member's vote in that term to another, and whose last entry is of a later term
/// than the member's own, or of the same term and no earlier.
pub proof fn law_vote_is_granted_where_it_is_owed(
    node: NodeView,
    req: VoteRequestView,
    candidate: u128,
    now: u64,
)
    ensures
        ({
            let entries = node.log.entries;
            let own_term = if entries.len() == 0 {
                0
            } else {
                entries[entries.len() - 1].term
            };
            let own_index = if entries.len() == 0 {
                0
            } else {
                entries[entries.len() - 1].index
            };
            let free = req.term > node.current_term || (req.term == node.current_term && (
            node.voted_for is None || node.voted_for == Some(candidate)));
            let current = req.last_log_term > own_term || (req.last_log_term == own_term
                && req.last_log_index >= own_index);
            let after = node.consider(req, now);
            &&& node.grants(req, now) == Some(candidate) <==> ids::id_of_text(req.candidate_id)
                == Some(candidate) && free && current
            &&& node.grants(req, now) == Some(candidate) ==> after.voted_for == Some(candidate)
                && after.current_term == req.term && !after.kept
        }),
{
}

/// A request for a vote changes a member's term, part and vote, and nothing else;
/// one of a later term makes it follow that term, and one of an earlier term does
/// nothing at all.
pub proof fn law_request_for_a_vote_changes_term_and_vote_alone(
    node: NodeView,
    req: VoteRequestView,
    now: u64,
)
    ensures
        ({
            let after = node.consider(req, now);
            &&& after == (NodeView {
                current_term: after.current_term,
                role: after.role,
                voted_for: after.voted_for,
                kept: after.kept,
                leader: after.leader,
                votes: after.votes,
                last_heard: after.last_heard,
                ..node
            })
            &&& req.term < node.current_term ==> after == node
            &&& req.term == node.current_term ==> after.current_term == node.current_term
                && after.role == node.role && after.leader == node.leader && after.votes
                == node.votes && after.last_heard == node.last_heard
            &&& req.term == node.current_term && node.grants(req, now) is None ==> after == node
            &&& req.term > node.current_term ==> {
                &&& after.current_term == req.term
                &&& after.role == Role::Follower
                &&& after.leader is None
                &&& after.votes == Set::<u128>::empty()
                &&& after.last_heard == now
                &&& !after.kept
                &&& node.grants(req, now) is None ==> after.voted_for is None
            }
        }),
{
}

/// Standing down keeps the term's vote if the term goes on, and has none to keep
/// otherwise; the log, the queue and what is committed stay.
pub proof fn law_standing_down_keeps_the_log(node: NodeView, term: u64, now: u64)
    ensures
        ({
            let after = node.step_down(term, now);
            &&& after == (NodeView {
                current_term: term,
                role: Role::Follower,
                voted_for: after.voted_for,
                kept: after.kept,
                leader: None,
                votes: Set::empty(),
                last_heard: now,
                ..node
            })
            &&& term == node.current_term ==> after.voted_for == node.voted_for && after.kept
                == node.kept
            &&& term != node.current_term ==> after.voted_for is None && !after.kept
        }),
{
}

/// A campaign is for the next term, begins with the candidate's own vote, and
/// touches neither log nor queue.
pub proof fn law_campaign_begins_with_the_own_vote(
    node: NodeView,
    election_timeout: u64,
    now: u64,
)
    requires
        node.current_term < u64::MAX,
    ensures
        ({
            let after = node.campaign(election_timeout, now);
            &&& after.current_term == node.current_term + 1
            &&& after.role == Role::Candidate
            &&& after.voted_for == Some(node.id)
            &&& after.votes == Set::<u128>::empty().insert(node.id)
            &&& after.leader is None
            &&& !after.kept
            &&& after.last_heard == now
            &&& after.election_timeout == election_timeout
            &&& after == (NodeView {
                current_term: after.current_term,
                role: after.role,
                voted_for: after.voted_for,
                kept: after.kept,
                leader: after.leader,
                votes: after.votes,
                last_heard: after.last_heard,
                election_timeout: after.election_timeout,
                ..node
            })
        }),
{
}

/// A candidate asks for votes in its own name and term, and tells where its log
/// ends.
pub proof fn law_candidate_tells_where_its_log_ends(node: NodeView)
    ensures
        ({
            let req = node.vote_request();
            let entries = node.log.entries;
            &&& req.term == node.current_term
            &&& ids::id_of_text(req.candidate_id) == Some(node.id)
            &&& entries.len() > 0 ==> req.last_log_index == entries[entries.len() - 1].index
                && req.last_log_term == entries[entries.len() - 1].term
            &&& entries.len() == 0 ==> req.last_log_index == 0 && req.last_log_term == 0
        }),
{
    ids::law_id_text_reads_back(node.id);
}

/// A member that is free to vote votes for a candidate whose log is its own: two
/// members with the same log elect each other.
pub proof fn law_member_with_the_same_log_votes_for_a_candidate(
    candidate: NodeView,
    voter: NodeView,
    election_timeout: u64,
    now: u64,
)
    requires
        candidate.log.entries == voter.log.entries,
        candidate.current_term < u64::MAX,
        voter.current_term <= candidate.current_term,
    ensures
        voter.grants(candidate.campaign(election_timeout, now).vote_request(), now) == Some(
            candidate.id,
        ),
{
    ids::law_id_text_reads_back(candidate.id);
}

/// More than half of the votes make a leader, and fewer do not; a vote counts once,
/// while its campaign goes on.
pub proof fn law_more_than_half_of_the_votes_win(
    node: NodeView,
    peer: u128,
    term: u64,
    resp: RequestVoteResponse,
    now: u64,
)
    ensures
        ({
            let after = node.hear_vote(peer, term, resp, now);
            let counted = node.role == Role::Candidate && node.current_term == term
                && resp.vote_granted && resp.term <= node.current_term;
            &&& node.wins(peer, term, resp) <==> counted && 2 * node.votes.insert(peer).len()
                > node.peers.len() + 1
            &&& counted ==> after == (NodeView { votes: node.votes.insert(peer), ..node })
            &&& !counted && resp.term <= node.current_term ==> after == node
            &&& resp.term > node.current_term ==> after.role == Role::Follower
                && after.current_term == resp.term && after.voted_for is None && after.log
                == node.log
        }),
{
}

// --------------------------------------------------------------------- leading

proof fn lemma_with_each(m: Map<u128, u64>, peers: Seq<u128>, value: u64, p: u128)
    ensures
        peers.contains(p) ==> protocol::with_all(m, peers, value).contains_key(p)
            && protocol::with_all(m, peers, value)[p] == value,
        !peers.contains(p) ==> (protocol::with_all(m, peers, value).contains_key(p)
            <==> m.contains_key(p)) && protocol::with_all(m, peers, value)[p] == m[p],
    decreases peers.len(),
{
    if peers.len() > 0 {
        let front = peers.drop_last();
        lemma_with_each(m, front, value, p);
        if peers.contains(p) && peers.last() != p {
            let i = peers.index_of(p);
            assert(front[i] == p);
        }
        if !peers.contains(p) {
            assert(peers[peers.len() - 1] == peers.last());
            if front.contains(p) {
                let i = front.index_of(p);
                assert(peers[i] == p);
            }
        }
    }
}

/// A new leader supposes that every peer holds what it holds itself, knows of none
/// that it does, and takes all of them to be in touch; its log, its term and its
/// queue are what they were.
pub proof fn law_new_leader_starts_afresh_with_every_peer(node: NodeView, peer: u128, now: u64)
    requires
        node.peers.contains(peer),
        node.log.last_index() < u64::MAX,
    ensures
        ({
            let after = node.lead(now);
            &&& after.role == Role::Leader
            &&& after.leader == Some(node.id)
            &&& after.next_for(peer) == node.log.last_index() + 1
            &&& after.match_index.contains_key(peer)
            &&& after.match_index[peer] == 0
            &&& after.last_response.contains_key(peer)
            &&& after.last_response[peer] == now
            &&& after == (NodeView {
                role: Role::Leader,
                leader: Some(node.id),
                last_heartbeat_sent: after.last_heartbeat_sent,
                next_index: after.next_index,
                match_index: after.match_index,
                last_response: after.last_response,
                ..node
            })
        }),
{
    let next = (node.log.last_index() + 1) as u64;
    lemma_with_each(node.next_index, node.peers, next, peer);
    lemma_with_each(node.match_index, node.peers, 0, peer);
    lemma_with_each(node.last_response, node.peers, now, peer);
}

/// A proposal takes the next place in the log, in the leader's term, and carries
/// what was proposed; a term opens with an entry that carries nothing. The
/// proposal's ticket waits for just that entry.
pub proof fn law_proposal_takes_the_next_place(node: NodeView, record: RecordView, ticket: u64)
    requires
        node.log.contiguous(),
        node.log.entries.len() < u64::MAX,
    ensures
        ({
            let entry = node.proposal(record);
            let stored = node.stored(node.log.plan(seq![entry]));
            let opened = node.stored(node.log.plan(seq![node.opening()]));
            &&& entry.term == node.current_term
            &&& entry.index == node.log.entries.len() + 1
            &&& entry.payload == PayloadView::Queue(record)
            &&& node.opening().term == node.current_term
            &&& node.opening().index == node.log.entries.len() + 1
            &&& node.opening().payload == PayloadView::Noop
            &&& stored.log.entries == node.log.entries.push(entry)
            &&& stored == (NodeView { log: stored.log, ..node })
            &&& opened.log.entries == node.log.entries.push(node.opening())
            &&& stored.wait(ticket) == (NodeView {
                waiters: node.waiters.push(((node.log.entries.len() + 1) as u64, ticket)),
                ..stored
            })
        }),
{
    let entry = node.proposal(record);
    assert(node.log.entries + seq![entry] =~= node.log.entries.push(entry));
    assert(node.log.entries + seq![node.opening()] =~= node.log.entries.push(node.opening()));
    if node.log.entries.len() > 0 {
        assert(node.log.entries[node.log.entries.len() - 1].index == node.log.entries.len());
    }
}

/// What a leader sends a peer begins right after what it supposes the peer to hold,
/// and goes on to the end of its log or to as many entries as fit: nothing is left
/// out, and a peer that lacks something is sent something.
pub proof fn law_request_brings_what_the_peer_lacks(
    node: NodeView,
    peer: u128,
    req: AppendRequestView,
)
    requires
        node.log.contiguous(),
        raft_laws::all_writable(node.log.entries),
        node.log.entries.len() < u64::MAX,
        node.request_for(peer) == Some(req),
    ensures
        ({
            let rest = node.log.entries.len() - req.prev_log_index;
            &&& req.term == node.current_term
            &&& req.leader_commit == node.commit_index
            &&& ids::id_of_text(req.leader_id) == Some(node.id)
            &&& req.prev_log_index == node.next_for(peer) - 1
            &&& req.prev_log_index <= node.log.entries.len()
            &&& req.prev_log_index > 0 ==> req.prev_log_term == node.log.entries[req.prev_log_index
                - 1].term
            &&& req.prev_log_index == 0 ==> req.prev_log_term == 0
            &&& rest <= protocol::MAX_ENTRIES_PER_RPC ==> req.entries.len() == rest
            &&& rest > protocol::MAX_ENTRIES_PER_RPC ==> req.entries.len()
                == protocol::MAX_ENTRIES_PER_RPC
            &&& forall|k: int|
                0 <= k < req.entries.len() ==> log::read_entry(#[trigger] req.entries[k]) == Some(
                    node.log.entries[req.prev_log_index + k],
                )
        }),
{
    ids::law_id_text_reads_back(node.id);
    let next = node.next_for(peer);
    let sent = node.log.entries_from(next, protocol::MAX_ENTRIES_PER_RPC as int);
    if node.log.entries.len() > 0 {
        assert(node.log.entries[node.log.entries.len() - 1].index == node.log.entries.len());
    }
    assert forall|k: int| 0 <= k < req.entries.len() implies log::read_entry(
        #[trigger] req.entries[k],
    ) == Some(node.log.entries[req.prev_log_index + k]) by {
        assert(sent[k] == node.log.entries[req.prev_log_index + k]);
        log::law_entry_reads_back(sent[k]);
    }
}

/// What is to be sent next is what an answer or the election left behind, and the
/// first entry where nothing is known.
pub proof fn law_next_entry_is_the_one_on_record(node: NodeView, peer: u128)
    ensures
        node.next_index.contains_key(peer) && node.next_index[peer] >= 1 ==> node.next_for(peer)
            == node.next_index[peer],
        !node.next_index.contains_key(peer) ==> node.next_for(peer) == 1,
        node.next_for(peer) >= 1,
        node.next_for(peer) - 1 <= node.log.entries.len() ==> node.request_for(peer) is Some,
        node.next_for(peer) - 1 > node.log.entries.len() ==> node.request_for(peer) is None,
{
}

proof fn lemma_addressed(node: NodeView, n: int, p: u128)
    requires
        0 <= n <= node.peers.len(),
    ensures
        node.addressed(n).no_duplicates(),
        node.addressed(n).contains(p) <==> node.peers.take(n).contains(p)
            && !node.inflight.contains(p) && node.request_for(p) is Some,
    decreases n,
{
    if n > 0 {
        let before = node.addressed(n - 1);
        let peer = node.peers[n - 1];
        lemma_addressed(node, n - 1, p);
        lemma_addressed(node, n - 1, peer);
        assert(node.peers.take(n) =~= node.peers.take(n - 1).push(peer));
        let earlier = node.peers.take(n - 1);
        assert(earlier.push(peer).contains(p) <==> earlier.contains(p) || peer == p) by {
            if earlier.contains(p) {
                assert(earlier.push(peer)[earlier.index_of(p)] == p);
            }
            if peer == p {
                assert(earlier.push(peer)[n - 1] == p);
            }
            if earlier.push(peer).contains(p) && peer != p {
                let i = earlier.push(peer).index_of(p);
                assert(earlier[i] == p);
            }
        }
        assert(before.push(peer).contains(p) <==> before.contains(p) || peer == p) by {
            if before.contains(p) {
                assert(before.push(peer)[before.index_of(p)] == p);
            }
            if peer == p {
                assert(before.push(peer)[before.len() as int] == p);
            }
            if before.push(peer).contains(p) && peer != p {
                let i = before.push(peer).index_of(p);
                assert(before[i] == p);
            }
        }
    }
}

/// A round goes to every peer that no request is under way to and that the log
/// reaches back for, once to each, and to nobody else; a request is then under way
/// to all of them. Only a leader sends any.
pub proof fn law_round_goes_to_every_peer_once(node: NodeView, peer: u128)
    ensures
        node.role == Role::Leader ==> (node.recipients().contains(peer) <==> node.peers.contains(
            peer,
        ) && !node.inflight.contains(peer) && node.next_for(peer) - 1 <= node.log.entries.len()),
        node.role != Role::Leader ==> node.recipients().len() == 0,
        node.recipients().no_duplicates(),
        node.replicate().inflight.contains(peer) <==> node.inflight.contains(peer)
            || node.recipients().contains(peer),
        node.replicate() == (NodeView { inflight: node.replicate().inflight, ..node }),
{
    lemma_addressed(node, node.peers.len() as int, peer);
    assert(node.peers.take(node.peers.len() as int) =~= node.peers);
}

/// What goes out is one request to each recipient, in order, each the one that the
/// recipient is owed.
pub proof fn law_each_recipient_gets_its_request(
    node: NodeView,
    requests: Seq<(NodeId, protocol::AppendEntriesRequest)>,
    i: int,
)
    requires
        raft::owed(node, node.recipients(), requests),
        0 <= i < node.recipients().len(),
    ensures
        requests.len() == node.recipients().len(),
        requests[i].0 == node.recipients()[i],
        node.request_for(requests[i].0) == Some(requests[i].1@),
{
}

/// An answer of a peer that took a request in tells the leader how far the peer
/// holds its log, and where to go on; that of one that did not makes it go back by
/// one entry. Of the other peers it tells nothing. Every answer shows that the peer
/// is in touch.
pub proof fn law_answer_tells_how_far_the_peer_is(
    node: NodeView,
    peer: u128,
    resp: AppendEntriesResponse,
    now: u64,
    other: u128,
)
    requires
        node.role == Role::Leader,
        resp.term <= node.current_term,
        resp.match_index < u64::MAX,
        other != peer,
    ensures
        ({
            let after = node.hear(peer, node.current_term, resp, now);
            &&& resp.success ==> after.match_index.contains_key(peer) && after.match_index[peer]
                == resp.match_index && after.next_for(peer) == resp.match_index + 1
            &&& !resp.success ==> after.match_index == node.match_index
            &&& !resp.success && node.next_for(peer) > 1 ==> after.next_for(peer)
                == node.next_for(peer) - 1
            &&& !resp.success && node.next_for(peer) == 1 ==> after.next_for(peer) == 1
            &&& after.next_for(other) == node.next_for(other)
            &&& after.match_index.contains_key(other) <==> node.match_index.contains_key(other)
            &&& after.match_index[other] == node.match_index[other]
            &&& after.last_response == node.last_response.insert(peer, now)
            &&& after == (NodeView {
                match_index: after.match_index,
                next_index: after.next_index,
                last_response: after.last_response,
                ..node
            })
        }),
{
}

/// An answer of a later term ends a leader's term; one that comes too late, to a
/// request of another term or to a member that no longer leads, shows only that the
/// peer is there.
pub proof fn law_answer_of_a_later_term_ends_the_term(
    node: NodeView,
    peer: u128,
    term: u64,
    resp: AppendEntriesResponse,
    now: u64,
)
    ensures
        ({
            let after = node.hear(peer, term, resp, now);
            &&& resp.term > node.current_term ==> {
                &&& after.role == Role::Follower
                &&& after.current_term == resp.term
                &&& after.voted_for is None
                &&& after.leader is None
                &&& after.match_index == node.match_index
                &&& after.log == node.log
                &&& after.state == node.state
                &&& after.commit_index == node.commit_index
            }
            &&& resp.term <= node.current_term && (node.role != Role::Leader || term
                != node.current_term) ==> after == (NodeView {
                last_response: node.last_response.insert(peer, now),
                ..node
            })
        }),
{
}

// --------------------------------------------------------------------- contact

proof fn lemma_counted(peers: Seq<u128>, p: spec_fn(u128) -> bool) -> (those: Set<u128>)
    requires
        peers.no_duplicates(),
    ensures
        those.finite(),
        those.len() == quorum::count(peers, p),
        forall|peer: u128| #[trigger] those.contains(peer) <==> peers.contains(peer) && p(peer),
    decreases peers.len(),
{
    if peers.len() == 0 {
        Set::empty()
    } else {
        let front = peers.drop_last();
        let last = peers.last();
        let before = lemma_counted(front, p);
        assert(!front.contains(last)) by {
            if front.contains(last) {
                let i = front.index_of(last);
                assert(peers[i] != peers[peers.len() - 1]);
            }
        }
        let those = if p(last) {
            before.insert(last)
        } else {
            before
        };
        assert forall|peer: u128| #[trigger] those.contains(peer) <==> peers.contains(peer) && p(
            peer,
        ) by {
            if peers.contains(peer) && peer != last {
                let i = peers.index_of(peer);
                assert(front[i] == peer);
            }
            if front.contains(peer) {
                let i = front.index_of(peer);
                assert(peers[i] == peer);
            }
            assert(peers[peers.len() - 1] == last);
        }
        those
    }
}

/// A leader goes on leading as long as it and the peers that have answered within
/// the window are more than half of the members, and stands down as soon as they
/// are not.
pub proof fn law_leader_leads_while_in_touch_with_a_majority(
    node: NodeView,
    now: u64,
    answered: Set<u128>,
)
    requires
        node.role == Role::Leader,
        node.peers.no_duplicates(),
        forall|p: u128| #[trigger]
            answered.contains(p) <==> node.peers.contains(p) && node.last_response.contains_key(p)
                && now < node.last_response[p] + protocol::CONTACT_WINDOW,
    ensures
        2 * (answered.len() + 1) > node.peers.len() + 1 ==> {
            &&& node.round(now).role == Role::Leader
            &&& node.round(now) == (NodeView {
                last_heartbeat_sent: node.round(now).last_heartbeat_sent,
                ..node
            })
        },
        2 * (answered.len() + 1) <= node.peers.len() + 1 ==> {
            &&& node.round(now).role == Role::Follower
            &&& node.round(now).current_term == node.current_term
            &&& node.round(now).voted_for == node.voted_for
            &&& node.round(now).waiters.len() == 0
            &&& node.round(now).last_heard == now
            &&& node.round(now).log == node.log
        },
{
    let those = lemma_counted(node.peers, node.in_touch(now));
    assert(those =~= answered);
}

/// Whoever does not lead gives up every proposal that is pending, and is otherwise
/// left as it is by a round.
pub proof fn law_member_that_does_not_lead_gives_proposals_up(node: NodeView, now: u64)
    requires
        node.role != Role::Leader,
    ensures
        node.round(now) == (NodeView { waiters: Seq::empty(), ..node }),
        protocol::tickets(node.waiters).len() == node.waiters.len(),
{
}

/// The times are in proportion: a leader shows that it is alive several times within
/// any wait of a follower, a round is shorter than half the time between two such
/// signs, and the time after which a leader that nobody answers stands down is longer
/// than any wait and no longer than two of them.
pub proof fn law_times_are_in_proportion(wait: u64)
    requires
        raft::election_timeout_in_range(wait),
    ensures
        3 * protocol::HEARTBEAT <= wait,
        2 * protocol::TICK < protocol::HEARTBEAT,
        wait < protocol::CONTACT_WINDOW,
        protocol::CONTACT_WINDOW <= 2 * wait,
        protocol::CONTACT_WINDOW == 6 * protocol::HEARTBEAT,
        protocol::CONTACT_WINDOW == 15 * protocol::TICK,
{
}

/// It is time to campaign once a member that does not lead has heard nothing for
/// longer than it waits, and not before.
pub proof fn law_campaign_is_due_after_the_wait(node: NodeView, now: u64)
    ensures
        node.due(now) <==> node.role != Role::Leader && now > node.last_heard
            + node.election_timeout,
{
}

// ------------------------------------------------------------------- following

/// A leader of this term or a later one is followed, and hearing from it starts the
/// wait anew; one of an earlier term is not heeded. The log waits for the entries to
/// be taken in.
pub proof fn law_leader_is_followed(node: NodeView, req: AppendRequestView, now: u64)
    ensures
        ({
            let after = node.meet_leader(req, now);
            &&& req.term < node.current_term ==> after == node
            &&& req.term >= node.current_term ==> {
                &&& after.role == Role::Follower
                &&& after.current_term == req.term
                &&& after.leader == ids::id_of_text(req.leader_id)
                &&& after.last_heard == now
                &&& req.term == node.current_term ==> after.voted_for == node.voted_for
                    && after.kept == node.kept && after.votes == node.votes
                &&& req.term > node.current_term ==> after.voted_for is None && !after.kept
                &&& after == (NodeView {
                    role: after.role,
                    current_term: after.current_term,
                    leader: after.leader,
                    last_heard: after.last_heard,
                    voted_for: after.voted_for,
                    kept: after.kept,
                    votes: after.votes,
                    ..node
                })
            }
            &&& node.owes_keeping(req, now) <==> req.term > node.current_term || (req.term
                == node.current_term && !node.kept)
        }),
{
}

/// A request is taken in where the log holds the entry before it, of the term that
/// the leader says, and the entries can be read; and only there.
pub proof fn law_request_is_taken_in_where_it_joins_on(node: NodeView, req: AppendRequestView)
    ensures
        ({
            let entries = node.log.entries;
            let prev = req.prev_log_index;
            let joins = if prev == 0 {
                req.prev_log_term == 0
            } else {
                prev <= entries.len() && entries[prev - 1].term == req.prev_log_term
            };
            let read = forall|i: int|
                0 <= i < req.entries.len() ==> log::read_entry(#[trigger] req.entries[i]) is Some;
            &&& node.admits(req) <==> req.term >= node.current_term && joins && read
            &&& read ==> {
                &&& protocol::read(req.entries).len() == req.entries.len()
                &&& forall|i: int|
                    0 <= i < req.entries.len() ==> log::read_entry(#[trigger] req.entries[i])
                        == Some(protocol::read(req.entries)[i])
            }
        }),
{
}

proof fn lemma_first_to_differ(log: LogView, entries: Seq<EntryView>, i: int, k: int)
    requires
        0 <= i <= k <= entries.len(),
        forall|j: int|
            i <= j < k ==> log.term_at((#[trigger] entries[j]).index) == Some(entries[j].term),
        k < entries.len() ==> log.term_at(entries[k].index) != Some(entries[k].term),
    ensures
        log.first_new(entries, i) == k,
    decreases k - i,
{
    if i < k {
        assert(log.term_at(entries[i].index) == Some(entries[i].term));
        lemma_first_to_differ(log, entries, i + 1, k);
    }
}

/// A follower that takes in entries keeps what it holds of them and replaces its
/// log from the first that it does not hold on, by the entries: what came before
/// stays, and if it holds all of them, nothing is cut and nothing is added.
pub proof fn law_log_is_replaced_from_the_first_entry_that_differs(
    node: NodeView,
    entries: Seq<EntryView>,
    prev: int,
    k: int,
)
    requires
        node.log.contiguous(),
        node.log.entries.len() <= u64::MAX,
        0 <= prev <= node.log.entries.len(),
        raft_laws::runs_on(entries, prev),
        0 <= k <= entries.len(),
        forall|j: int|
            0 <= j < k ==> prev + j < node.log.entries.len() && node.log.entries[prev + j].term == (
            #[trigger] entries[j]).term,
        k < entries.len() ==> !(prev + k < node.log.entries.len() && node.log.entries[prev
            + k].term == entries[k].term),
    ensures
        k < entries.len() ==> node.with_entries(entries).log.entries == node.log.entries.take(
            prev + k,
        ) + entries.skip(k),
        k == entries.len() ==> node.with_entries(entries) == node,
        node.with_entries(entries) == (NodeView {
            log: node.with_entries(entries).log,
            waiters: node.with_entries(entries).waiters,
            ..node
        }),
{
    assert forall|j: int| 0 <= j < k implies node.log.term_at((#[trigger] entries[j]).index)
        == Some(entries[j].term) by {
        assert(entries[j].index == prev + j + 1);
    }
    if k < entries.len() {
        assert(entries[k].index == prev + k + 1);
    }
    lemma_first_to_differ(node.log, entries, 0, k);
    raft_laws::lemma_taken_in(node, entries, prev);
}

/// What a request brings for a log is what the log does not hold of its entries,
/// after a cut where the log holds another entry in the place of the first of them,
/// and how far the leader has committed.
pub proof fn law_request_brings_what_the_log_lacks(
    node: NodeView,
    req: AppendRequestView,
    k: int,
)
    requires
        node.log.contiguous(),
        node.log.entries.len() < u64::MAX,
        req.prev_log_index <= node.log.entries.len(),
        raft_laws::runs_on(protocol::read(req.entries), req.prev_log_index as int),
        0 <= k <= req.entries.len(),
        forall|j: int|
            0 <= j < k ==> req.prev_log_index + j < node.log.entries.len()
                && node.log.entries[req.prev_log_index + j].term == (#[trigger] protocol::read(
                req.entries,
            )[j]).term,
        k < req.entries.len() ==> !(req.prev_log_index + k < node.log.entries.len()
            && node.log.entries[req.prev_log_index + k].term == protocol::read(
            req.entries,
        )[k].term),
    ensures
        ({
            let brought = raft::IncomingView::of(node.log, req);
            &&& brought.leader_commit == req.leader_commit
            &&& brought.fresh == protocol::read(req.entries).skip(k)
            &&& k < req.entries.len() && req.prev_log_index + k < node.log.entries.len()
                ==> brought.after == Some((req.prev_log_index + k) as u64)
            &&& !(k < req.entries.len() && req.prev_log_index + k < node.log.entries.len())
                ==> brought.after is None
        }),
{
    let entries = protocol::read(req.entries);
    let prev = req.prev_log_index as int;
    assert forall|j: int| 0 <= j < k implies node.log.term_at((#[trigger] entries[j]).index)
        == Some(entries[j].term) by {
        assert(entries[j].index == prev + j + 1);
    }
    if k < entries.len() {
        assert(entries[k].index == prev + k + 1);
    }
    lemma_first_to_differ(node.log, entries, 0, k);
}

/// A follower that has taken a request in holds the leader's entries where the
/// leader says, has committed and applied what the leader has committed as far as
/// its log reaches, and follows the leader in its term.
pub proof fn law_follower_holds_what_it_took_in(node: NodeView, req: AppendRequestView, now: u64)
    requires
        node.admits(req),
        node.log.contiguous(),
        node.log.entries.len() < u64::MAX,
        req.prev_log_index + req.entries.len() < u64::MAX,
        raft_laws::runs_on(protocol::read(req.entries), req.prev_log_index as int),
        node.last_applied <= node.commit_index <= node.log.entries.len(),
        forall|k: int|
            0 <= k < req.entries.len() && req.prev_log_index + k < node.commit_index
                ==> node.log.entries[req.prev_log_index + k].term == (#[trigger] protocol::read(
                req.entries,
            )[k]).term,
    ensures
        ({
            let entries = protocol::read(req.entries);
            let prev = req.prev_log_index as int;
            let after = node.accept(req, now);
            let len = after.log.entries.len();
            &&& len >= prev + entries.len()
            &&& forall|k: int|
                0 <= k < entries.len() ==> after.log.entries[prev + k].term == (
                #[trigger] entries[k]).term && after.log.entries[prev + k].index
                    == entries[k].index
            &&& forall|k: int|
                0 <= k < prev ==> #[trigger] after.log.entries[k] == node.log.entries[k]
            &&& after.role == Role::Follower
            &&& after.current_term == req.term
            &&& after.leader == ids::id_of_text(req.leader_id)
            &&& after.kept
            &&& req.leader_commit <= len && req.leader_commit > node.commit_index
                ==> after.commit_index == req.leader_commit
            &&& req.leader_commit > len ==> after.commit_index == len
            &&& req.leader_commit <= node.commit_index ==> after.commit_index
                == node.commit_index
            &&& after.last_applied == after.commit_index
        }),
{
    let entries = protocol::read(req.entries);
    let prev = req.prev_log_index as int;
    let met = NodeView { kept: true, ..node.meet_leader(req, now) };
    raft_laws::lemma_taken_in(met, entries, prev);
    let taken = met.with_entries(entries);
    raft_laws::lemma_first_new(taken.log, entries, 0);
    raft_laws::lemma_first_new(met.log, entries, 0);
    let i = met.log.first_new(entries, 0);
    assert(taken.log.entries.len() >= prev + entries.len()) by {
        if i == entries.len() && i > 0 {
            assert(met.log.term_at(entries[i - 1].index) is Some);
        }
    }
    assert forall|k: int| 0 <= k < entries.len() implies taken.log.entries[prev + k].term == (
    #[trigger] entries[k]).term && taken.log.entries[prev + k].index == entries[k].index by {
        assert(taken.log.term_at(entries[k].index) == Some(entries[k].term));
        assert(entries[k].index == prev + k + 1);
        assert(taken.log.entries[prev + k].index == prev + k + 1);
    }
    assert(taken.log.entries.len() >= node.commit_index) by {
        if i < entries.len() && prev + i < node.commit_index {
            assert(entries[i].index == prev + i + 1);
            assert(node.log.entries[prev + i].term == entries[i].term);
        }
    }
    let committed = taken.commit_to(req.leader_commit);
    let len = committed.log.entries.len();
    if len > 0 {
        assert(committed.log.entries[len - 1].index == len);
    }
    raft_laws::lemma_drain_reach(committed, len);
    raft_laws::lemma_drain_frame(committed, len);
    lemma_drain_touches(committed, len);
}

/// Cutting the log gives up the proposals beyond the cut and no others: each is
/// given up or still pending.
pub proof fn law_cut_gives_up_the_proposals_beyond_it(node: NodeView, after: u64, i: int)
    requires
        after < node.log.last_index(),
        0 <= i < node.waiters.len(),
    ensures
        ({
            let cut = node.cut_after(Some(after));
            let (index, ticket) = node.waiters[i];
            &&& cut.log.entries == node.log.entries.take(after as int)
            &&& index > after ==> node.given_up(Some(after)).contains(ticket)
            &&& index <= after ==> cut.waiters.contains((index, ticket))
            &&& node.given_up(Some(after)).len() + cut.waiters.len() == node.waiters.len()
            &&& node.cut_after(None) == node
            &&& node.given_up(None).len() == 0
        }),
{
    let (index, ticket) = node.waiters[i];
    let within = protocol::waits_within(after);
    let beyond = protocol::waits_beyond(after);
    lemma_parts(node.waiters, after);
    if index > after {
        node.waiters.lemma_filter_contains(beyond, i);
        let lost = node.waiters.filter(beyond);
        let k = lost.index_of((index, ticket));
        assert(protocol::tickets(lost)[k] == ticket);
    } else {
        node.waiters.lemma_filter_contains(within, i);
    }
}

// -------------------------------------------------------------------- starting

/// A member that starts has its term, its vote and its log as it kept them, follows
/// nobody yet, has committed nothing, and waits from now on.
pub proof fn law_member_starts_from_what_it_kept(
    id: u128,
    cluster_id: u128,
    peers: Seq<u128>,
    queue: QueueView,
    current_term: u64,
    voted_for: Option<u128>,
    log: LogView,
    election_timeout: u64,
    now: u64,
)
    ensures
        ({
            let node = NodeView::restored(
                id,
                cluster_id,
                peers,
                queue,
                current_term,
                voted_for,
                log,
                election_timeout,
                now,
            );
            &&& node.id == id
            &&& node.cluster_id == cluster_id
            &&& node.peers == peers
            &&& node.state == queue
            &&& node.current_term == current_term
            &&& node.voted_for == voted_for
            &&& node.kept
            &&& node.log == log
            &&& node.role == Role::Follower
            &&& node.leader is None
            &&& node.commit_index == 0
            &&& node.last_applied == 0
            &&& node.last_heard == now
            &&& node.election_timeout == election_timeout
            &&& node.waiters.len() == 0
            &&& node.inflight == Set::<u128>::empty()
            &&& node.votes == Set::<u128>::empty()
            &&& node.next_index == Map::<u128, u64>::empty()
            &&& node.match_index == Map::<u128, u64>::empty()
            &&& !node.due(now)
        }),
{
}

/// A member's peers are all the others that it was told of, in order, and not
/// itself.
pub proof fn law_peers_are_all_the_others(told: Seq<u128>, id: u128, other: u128)
    ensures
        state::without(told, id).contains(other) <==> told.contains(other) && other != id,
        state::without(told.push(other), id) == (if other == id {
            state::without(told, id)
        } else {
            state::without(told, id).push(other)
        }),
        state::without(Seq::empty(), id) == Seq::<u128>::empty(),
{
    let others = state::other_than(id);
    if told.contains(other) && other != id {
        told.lemma_filter_contains(others, told.index_of(other));
    }
    if state::without(told, id).contains(other) {
        told.lemma_filter_contains_rev(others, other);
        told.lemma_filter_pred(others, state::without(told, id).index_of(other));
    }
    reveal(Seq::filter);
    assert(told.push(other).drop_last() =~= told);
    assert(state::without(Seq::empty(), id) =~= Seq::<u128>::empty());
}

/// A member that kept nothing starts in no term, with no vote cast; one that kept
/// bytes that cannot be read does not start.
pub proof fn law_member_that_kept_nothing_starts_in_no_term(bytes: Seq<u8>)
    ensures
        raft::kept_state(None) == Some((0u64, None::<u128>)),
        raft::kept_state(Some(bytes)) is None <==> protocol::read_hard_state(bytes) is None,
        raft::kept_state(Some(bytes)) is Some ==> raft::kept_state(Some(bytes))
            == protocol::read_hard_state(bytes),
{
}

/// A directory that holds a log but does not say whose it is, or whose identity
/// cannot be read, is not taken over by anybody; one that holds neither log nor
/// identity is taken over by whoever asks.
pub proof fn law_directory_of_nobody(
    bytes: Seq<u8>,
    log_exists: bool,
    node_id: u128,
    cluster_id: u128,
)
    ensures
        raft::claim(None, true, node_id, cluster_id) == Err::<Option<Seq<u8>>, OpenError>(
            OpenError::OrphanLog,
        ),
        protocol::read_identity(bytes) is None ==> raft::claim(
            Some(bytes),
            log_exists,
            node_id,
            cluster_id,
        ) == Err::<Option<Seq<u8>>, OpenError>(OpenError::CorruptIdentity),
        raft::claim(None, false, node_id, cluster_id) is Ok,
        raft::claim(None, false, node_id, cluster_id)->Ok_0 is Some,
        raft::claim(Some(bytes), log_exists, node_id, cluster_id) is Ok <==> (
        protocol::read_identity(bytes) == Some((node_id, cluster_id))),
{
}

/// An operator who points a node at the wrong directory is told whose it is and who
/// asked: the message ends with who asked, and whose it is stands before that.
pub proof fn law_wrong_directory_is_named(found: u128, expected: u128)
    ensures
        ({
            let node = raft::open_error_text(OpenError::WrongNode { found, expected });
            let cluster = raft::open_error_text(OpenError::WrongCluster { found, expected });
            let (f, e) = (ids::id_text(found), ids::id_text(expected));
            let gap = ", not "@.len();
            &&& node.len() >= f.len() + gap + e.len()
            &&& node.skip(node.len() - e.len()) == e
            &&& node.subrange(
                node.len() - e.len() - gap - f.len(),
                node.len() - e.len() - gap,
            ) == f
            &&& cluster.len() >= f.len() + gap + e.len()
            &&& cluster.skip(cluster.len() - e.len()) == e
            &&& cluster.subrange(
                cluster.len() - e.len() - gap - f.len(),
                cluster.len() - e.len() - gap,
            ) == f
        }),
{
    let (f, e) = (ids::id_text(found), ids::id_text(expected));
    let gap = ", not "@;
    let a = "data directory belongs to node "@;
    let b = "data directory belongs to cluster "@;
    assert((a + f + gap + e).skip((a + f + gap).len() as int) =~= e);
    assert((a + f + gap + e).subrange(a.len() as int, (a + f).len() as int) =~= f);
    assert((b + f + gap + e).skip((b + f + gap).len() as int) =~= e);
    assert((b + f + gap + e).subrange(b.len() as int, (b + f).len() as int) =~= f);
}

} // verus!
