//! What becomes of proposals: a ticket stands for one entry from the proposal
//! on, and is given up where that entry is dropped.
use crate::log::{AppendView, EntryView, LogView};
use crate::protocol;
use crate::protocol::{
    AppendEntriesResponse, AppendRequestView, NodeView, RequestVoteResponse, VoteRequestView,
};
use crate::raft_laws;
use crate::state::{QueueView, RecordView};
use vstd::prelude::*;

verus! {

/// Whether the entry that a pending proposal is owed is where it waits for it.
pub open spec fn stands(log: LogView, owed: Map<u64, EntryView>, waiter: (u64, u64)) -> bool {
    &&& owed.contains_key(waiter.1)
    &&& owed[waiter.1].index == waiter.0
    &&& log.entry(waiter.0) == Some(owed[waiter.1])
}

/// Whether a member still holds the entry of each of its pending proposals, has
/// committed no more than it holds, and has applied no more than is committed.
pub open spec fn pledged(node: NodeView, owed: Map<u64, EntryView>) -> bool {
    &&& node.log.contiguous()
    &&& node.last_applied <= node.commit_index <= node.log.entries.len()
    &&& forall|k: int|
        0 <= k < node.waiters.len() ==> stands(node.log, owed, #[trigger] node.waiters[k])
}

/// Entries at the end of a log leave those before them where they are.
proof fn lemma_longer_log(node: NodeView, owed: Map<u64, EntryView>, after: NodeView)
    requires
        pledged(node, owed),
        after.log.contiguous(),
        after.log.entries.len() >= node.log.entries.len(),
        forall|k: int|
            0 <= k < node.log.entries.len() ==> #[trigger] after.log.entries[k]
                == node.log.entries[k],
        after.waiters == node.waiters,
        after.last_applied == node.last_applied,
        after.commit_index == node.commit_index,
    ensures
        pledged(after, owed),
{
    assert forall|k: int| 0 <= k < after.waiters.len() implies stands(
        after.log,
        owed,
        #[trigger] after.waiters[k],
    ) by {
        assert(stands(node.log, owed, node.waiters[k]));
    }
}

/// Some of the pending proposals are pending proposals.
proof fn lemma_fewer_waiters(
    node: NodeView,
    owed: Map<u64, EntryView>,
    p: spec_fn((u64, u64)) -> bool,
)
    requires
        pledged(node, owed),
    ensures
        forall|k: int|
            0 <= k < node.waiters.filter(p).len() ==> {
                &&& p(#[trigger] node.waiters.filter(p)[k])
                &&& node.waiters.contains(node.waiters.filter(p)[k])
                &&& stands(node.log, owed, node.waiters.filter(p)[k])
            },
{
    let left = node.waiters.filter(p);
    assert forall|k: int| 0 <= k < left.len() implies {
        &&& p(#[trigger] left[k])
        &&& node.waiters.contains(left[k])
        &&& stands(node.log, owed, left[k])
    } by {
        node.waiters.lemma_filter_pred(p, k);
        node.waiters.lemma_filter_contains_rev(p, left[k]);
        let i = node.waiters.index_of(left[k]);
        assert(stands(node.log, owed, node.waiters[i]));
    }
}

/// A member that has just loaded what it had kept owes nothing.
pub proof fn law_restored_member_owes_nothing(
    id: u128,
    cluster_id: u128,
    peers: Seq<u128>,
    state: QueueView,
    current_term: u64,
    voted_for: Option<u128>,
    log: LogView,
    election_timeout: u64,
    now: u64,
)
    requires
        log.contiguous(),
    ensures
        pledged(
            NodeView::restored(
                id,
                cluster_id,
                peers,
                state,
                current_term,
                voted_for,
                log,
                election_timeout,
                now,
            ),
            Map::empty(),
        ),
{
}

/// A proposal is owed the entry that it was written as, under a ticket that no
/// other has.
pub proof fn law_proposal_is_owed_its_entry(
    node: NodeView,
    owed: Map<u64, EntryView>,
    record: RecordView,
    ticket: u64,
)
    requires
        pledged(node, owed),
        node.log.entries.len() < u64::MAX,
        !owed.contains_key(ticket),
    ensures
        pledged(
            node.stored(node.log.plan(seq![node.proposal(record)])).wait(ticket),
            owed.insert(ticket, node.proposal(record)),
        ),
{
    let entry = node.proposal(record);
    let more = owed.insert(ticket, entry);
    let after = node.stored(node.log.plan(seq![entry])).wait(ticket);
    let old_log = node.log.entries;
    assert(old_log.len() > 0 ==> old_log[old_log.len() - 1].index == old_log.len());
    assert(after.log.entries =~= old_log.push(entry));
    assert(after.waiters.last() == (entry.index, ticket));
    assert forall|k: int| 0 <= k < after.waiters.len() implies stands(
        after.log,
        more,
        #[trigger] after.waiters[k],
    ) by {
        if k < node.waiters.len() {
            assert(after.waiters[k] == node.waiters[k]);
            assert(stands(node.log, owed, node.waiters[k]));
        }
    }
}

/// Pending proposals keep their entries whatever a member hears, decides, writes
/// at the end of its log, commits or applies.
pub proof fn law_moving_on_keeps_entries(
    node: NodeView,
    owed: Map<u64, EntryView>,
    vote: VoteRequestView,
    append: AppendRequestView,
    peer: u128,
    term: u64,
    vote_resp: RequestVoteResponse,
    append_resp: AppendEntriesResponse,
    write: AppendView,
    election_timeout: u64,
    now: u64,
)
    requires
        pledged(node, owed),
    ensures
        pledged(node.consider(vote, now), owed),
        pledged(node.meet_leader(append, now), owed),
        pledged(node.campaign(election_timeout, now), owed),
        pledged(node.hear_vote(peer, term, vote_resp, now), owed),
        pledged(node.lead(now), owed),
        pledged(node.hear(peer, term, append_resp, now), owed),
        pledged(node.advance(), owed),
        pledged(node.settle(), owed),
        pledged(node.round(now), owed),
        pledged(node.replicate(), owed),
        raft_laws::runs_on(write.entries, node.log.entries.len() as int) ==> pledged(
            node.stored(write),
            owed,
        ),
{
    raft_laws::lemma_drain_frame(node, node.log.entries.len());
    raft_laws::lemma_drain_reach(node, node.log.entries.len());
    lemma_fewer_waiters(node, owed, protocol::waits_beyond(node.drained().last_applied));
    if raft_laws::runs_on(write.entries, node.log.entries.len() as int) {
        let after = node.stored(write);
        let len = node.log.entries.len();
        assert forall|k: int| 0 <= k < after.log.entries.len() implies (
        #[trigger] after.log.entries[k]).index == k + 1 by {
            if k >= len {
                assert(after.log.entries[k] == write.entries[k - len]);
            } else {
                assert(after.log.entries[k] == node.log.entries[k]);
            }
        }
        lemma_longer_log(node, owed, after);
    }
}

/// Where a member takes a leader's entries in, its pending proposals keep their
/// entries or are given up: those whose entries lie beyond the one from which on
/// the log is replaced, and no others. The law is on logs that are replaced
/// beyond what is committed.
pub proof fn law_dropped_proposals_are_given_up(
    node: NodeView,
    owed: Map<u64, EntryView>,
    req: AppendRequestView,
    now: u64,
)
    requires
        pledged(node, owed),
        node.admits(req),
        raft_laws::runs_on(protocol::read(req.entries), req.prev_log_index as int),
        node.log.conflict(protocol::read(req.entries)) matches Some(index) ==> node.commit_index
            <= index,
    ensures
        ({
            let entries = protocol::read(req.entries);
            let met = NodeView { kept: true, ..node.meet_leader(req, now) };
            let lost = met.given_up(met.log.conflict(entries));
            let taken = met.with_entries(entries);
            &&& pledged(taken, owed)
            &&& pledged(taken.commit_to(req.leader_commit), owed)
            &&& pledged(node.accept(req, now), owed)
            &&& forall|index: u64, ticket: u64| #[trigger]
                node.waiters.contains((index, ticket)) ==> {
                    ||| lost.contains(ticket)
                    ||| taken.waiters.contains((index, ticket))
                }
            &&& forall|k: int|
                0 <= k < lost.len() ==> {
                    &&& owed.contains_key(#[trigger] lost[k])
                    &&& node.log.conflict(entries) matches Some(index) && owed[lost[k]].index
                        > index
                }
        }),
{
    let entries = protocol::read(req.entries);
    let prev = req.prev_log_index as int;
    let met = NodeView { kept: true, ..node.meet_leader(req, now) };
    assert(pledged(met, owed));
    let taken = met.with_entries(entries);
    let lost = met.given_up(met.log.conflict(entries));
    let i = met.log.first_new(entries, 0);
    raft_laws::lemma_taken_in(met, entries, prev);
    raft_laws::lemma_first_new(met.log, entries, 0);
    let own = met.log.entries;
    assert(own.len() > 0 ==> own[own.len() - 1].index == own.len());
    match met.log.conflict(entries) {
        Some(index) => {
            assert(entries[i].index == prev + i + 1);
            assert(index == prev + i);
            assert(met.log.cut(index) is Some);
            let within = protocol::waits_within(index);
            let beyond = protocol::waits_beyond(index);
            lemma_fewer_waiters(met, owed, within);
            lemma_fewer_waiters(met, owed, beyond);
            assert forall|k: int| 0 <= k < taken.waiters.len() implies stands(
                taken.log,
                owed,
                #[trigger] taken.waiters[k],
            ) by {
                let waiter = met.waiters.filter(within)[k];
                assert(taken.waiters[k] == waiter);
                assert(stands(met.log, owed, waiter));
                assert(taken.log.entries[waiter.0 - 1] == own[waiter.0 - 1]);
            }
            assert forall|at: u64, ticket: u64| #[trigger]
                node.waiters.contains((at, ticket)) implies lost.contains(ticket)
                || taken.waiters.contains((at, ticket)) by {
                let k = met.waiters.index_of((at, ticket));
                if at <= index {
                    met.waiters.lemma_filter_contains(within, k);
                } else {
                    met.waiters.lemma_filter_contains(beyond, k);
                    let j = met.waiters.filter(beyond).index_of((at, ticket));
                    assert(lost[j] == ticket);
                }
            }
            assert forall|k: int| 0 <= k < lost.len() implies {
                &&& owed.contains_key(#[trigger] lost[k])
                &&& owed[lost[k]].index > index
            } by {
                let waiter = met.waiters.filter(beyond)[k];
                assert(lost[k] == waiter.1);
                assert(stands(met.log, owed, waiter));
            }
        },
        None => {
            assert forall|k: int| 0 <= k < own.len() implies #[trigger] taken.log.entries[k]
                == own[k] by {
                if i < entries.len() {
                    assert(entries[i].index == prev + i + 1);
                }
            }
            lemma_longer_log(met, owed, taken);
        },
    }
    let committed = taken.commit_to(req.leader_commit);
    let after = taken.log.entries;
    assert(after.len() > 0 ==> after[after.len() - 1].index == after.len());
    assert(pledged(committed, owed));
    raft_laws::lemma_drain_frame(committed, committed.log.entries.len());
    raft_laws::lemma_drain_reach(committed, committed.log.entries.len());
    lemma_fewer_waiters(
        committed,
        owed,
        protocol::waits_beyond(committed.drained().last_applied),
    );
}

/// Where the log is cut beyond what is committed, the proposals that are not given
/// up keep their entries.
pub proof fn law_cutting_keeps_entries(
    node: NodeView,
    owed: Map<u64, EntryView>,
    after: Option<u64>,
)
    requires
        pledged(node, owed),
        after matches Some(index) ==> node.commit_index <= index,
    ensures
        pledged(node.cut_after(after), owed),
{
    let own = node.log.entries;
    assert(own.len() > 0 ==> own[own.len() - 1].index == own.len());
    if let Some(index) = after {
        let within = protocol::waits_within(index);
        lemma_fewer_waiters(node, owed, within);
        let cut = node.cut_after(after);
        if node.log.cut(index) is Some {
            assert forall|k: int| 0 <= k < cut.log.entries.len() implies (
            #[trigger] cut.log.entries[k]).index == k + 1 by {
                assert(cut.log.entries[k] == own[k]);
            }
            assert forall|k: int| 0 <= k < cut.waiters.len() implies stands(
                cut.log,
                owed,
                #[trigger] cut.waiters[k],
            ) by {
                let waiter = node.waiters.filter(within)[k];
                assert(stands(node.log, owed, waiter));
                assert(cut.log.entries[waiter.0 - 1] == own[waiter.0 - 1]);
            }
        }
    }
}

/// A proposal that is handed out as done is the one it was: the entry that it was
/// written as stands in the member's own log, is committed, and has been applied.
pub proof fn law_done_proposal_stands_in_the_log(
    node: NodeView,
    owed: Map<u64, EntryView>,
    ticket: u64,
)
    requires
        pledged(node, owed),
        node.settled().contains(ticket),
    ensures
        owed.contains_key(ticket),
        node.settle().log.entry(owed[ticket].index) == Some(owed[ticket]),
        owed[ticket].index <= node.settle().commit_index,
        owed[ticket].index <= node.settle().last_applied,
{
    raft_laws::lemma_drain_frame(node, node.log.entries.len());
    raft_laws::lemma_drain_reach(node, node.log.entries.len());
    let drained = node.drained();
    let within = protocol::waits_within(drained.last_applied);
    lemma_fewer_waiters(node, owed, within);
    let done = drained.waiters.filter(within);
    let k = node.settled().index_of(ticket);
    assert(done[k].1 == ticket);
    assert(stands(node.log, owed, done[k]));
}

/// A pending proposal is done as soon as its entry has been applied, and not
/// before.
pub proof fn law_proposal_is_done_once_applied(
    node: NodeView,
    owed: Map<u64, EntryView>,
    index: u64,
    ticket: u64,
)
    requires
        pledged(node, owed),
        node.waiters.contains((index, ticket)),
    ensures
        owed.contains_key(ticket),
        owed[ticket].index == index,
        index <= node.settle().last_applied ==> node.settled().contains(ticket),
        index > node.settle().last_applied ==> node.settle().waiters.contains((index, ticket)),
{
    let k = node.waiters.index_of((index, ticket));
    assert(stands(node.log, owed, node.waiters[k]));
    raft_laws::lemma_waiter_settles(node, index, ticket);
}

} // verus!
