//! What members of a cluster tell each other, and what each step of the
//! protocol makes of a member.
use crate::codec;
use crate::ids;
use crate::log;
use crate::log::{EntryView, LogView, PayloadView};
use crate::quorum;
use crate::state::{QueueView, RecordView};
use vstd::prelude::*;

verus! {

/// How long a round of the protocol waits for something to happen, in
/// nanoseconds.
pub const TICK: u64 = 20_000_000;

/// How often a leader shows that it is alive, in nanoseconds.
pub const HEARTBEAT: u64 = 50_000_000;

/// The shortest wait for a leader before campaigning, in milliseconds.
pub const ELECTION_TIMEOUT_MIN_MS: u64 = 150;

/// The bound that the wait for a leader stays below, in milliseconds.
pub const ELECTION_TIMEOUT_MAX_MS: u64 = 300;

/// How far back a peer's last answer may lie for it to count as reachable, in
/// nanoseconds.
pub const CONTACT_WINDOW: u64 = 300_000_000;

/// Entries that one request carries at most.
pub const MAX_ENTRIES_PER_RPC: usize = 64;

/// The part that a member plays.
#[derive(Clone, Copy, PartialEq, Eq, Debug, Structural)]
pub enum Role {
    Follower,
    Candidate,
    Leader,
}

// ------------------------------------------------------------------- messages

/// A candidate asks for a vote.
#[derive(Debug)]
pub struct RequestVoteRequest {
    pub term: u64,
    pub candidate_id: String,
    pub last_log_index: u64,
    pub last_log_term: u64,
}

/// The answer to a [`RequestVoteRequest`].
#[derive(Clone, Copy, PartialEq, Eq, Debug, Structural)]
pub struct RequestVoteResponse {
    pub term: u64,
    pub vote_granted: bool,
}

/// A leader hands on entries, or none to show that it is alive.
#[derive(Debug)]
pub struct AppendEntriesRequest {
    pub term: u64,
    pub leader_id: String,
    pub prev_log_index: u64,
    pub prev_log_term: u64,
    /// Entries in binary form.
    pub entries: Vec<Vec<u8>>,
    pub leader_commit: u64,
}

/// The answer to an [`AppendEntriesRequest`].
#[derive(Clone, Copy, PartialEq, Eq, Debug, Structural)]
pub struct AppendEntriesResponse {
    pub term: u64,
    pub success: bool,
    pub match_index: u64,
}

/// What a [`RequestVoteRequest`] says.
pub struct VoteRequestView {
    pub term: u64,
    pub candidate_id: Seq<char>,
    pub last_log_index: u64,
    pub last_log_term: u64,
}

/// What an [`AppendEntriesRequest`] says.
pub struct AppendRequestView {
    pub term: u64,
    pub leader_id: Seq<char>,
    pub prev_log_index: u64,
    pub prev_log_term: u64,
    pub entries: Seq<Seq<u8>>,
    pub leader_commit: u64,
}

impl View for RequestVoteRequest {
    type V = VoteRequestView;

    open spec fn view(&self) -> VoteRequestView {
        VoteRequestView {
            term: self.term,
            candidate_id: self.candidate_id@,
            last_log_index: self.last_log_index,
            last_log_term: self.last_log_term,
        }
    }
}

/// The contents of a sequence of byte vectors.
pub open spec fn contents(parts: Seq<Vec<u8>>) -> Seq<Seq<u8>> {
    parts.map_values(|part: Vec<u8>| part@)
}

impl View for AppendEntriesRequest {
    type V = AppendRequestView;

    open spec fn view(&self) -> AppendRequestView {
        AppendRequestView {
            term: self.term,
            leader_id: self.leader_id@,
            prev_log_index: self.prev_log_index,
            prev_log_term: self.prev_log_term,
            entries: contents(self.entries@),
            leader_commit: self.leader_commit,
        }
    }
}

/// Entries in binary form.
pub open spec fn written(entries: Seq<EntryView>) -> Seq<Seq<u8>> {
    entries.map_values(|e: EntryView| log::entry_bytes(e))
}

/// Whether every part is an entry in binary form.
pub open spec fn readable(parts: Seq<Seq<u8>>) -> bool {
    forall|i: int| 0 <= i < parts.len() ==> log::read_entry(#[trigger] parts[i]) is Some
}

/// The entries that the parts are the binary forms of.
pub open spec fn read(parts: Seq<Seq<u8>>) -> Seq<EntryView> {
    Seq::new(parts.len(), |i: int| log::read_entry(parts[i]).unwrap())
}

// ------------------------------------------------------------- durable values

/// The bytes that keep a term and the vote cast in it.
pub open spec fn hard_state_bytes(current_term: u64, voted_for: Option<u128>) -> Seq<u8> {
    codec::varint(current_term as nat) + codec::option_bytes(voted_for)
}

/// The term and the vote that some bytes keep.
pub open spec fn read_hard_state(s: Seq<u8>) -> Option<(u64, Option<u128>)> {
    match codec::read_u64(s) {
        Some((current_term, rest)) => match codec::read_option(rest) {
            Some((voted_for, _)) => Some((current_term, voted_for)),
            None => None,
        },
        None => None,
    }
}

/// The bytes that keep which node of which cluster a directory belongs to.
pub open spec fn identity_bytes(node_id: u128, cluster_id: u128) -> Seq<u8> {
    codec::varint(node_id as nat) + codec::varint(cluster_id as nat)
}

/// The node and the cluster that some bytes keep.
pub open spec fn read_identity(s: Seq<u8>) -> Option<(u128, u128)> {
    match codec::read_u128(s) {
        Some((node_id, rest)) => match codec::read_u128(rest) {
            Some((cluster_id, _)) => Some((node_id, cluster_id)),
            None => None,
        },
        None => None,
    }
}

// ------------------------------------------------------------------- a member

/// Time passed since `then`, none if it lies ahead.
pub open spec fn elapsed(now: u64, then: u64) -> int {
    if now >= then {
        now - then
    } else {
        0
    }
}

/// The index before `index`, on a counter of 64 bits.
pub open spec fn index_before(index: u64) -> u64 {
    if index == 0 {
        u64::MAX
    } else {
        (index - 1) as u64
    }
}

impl LogView {
    /// The position, from `i` on, of the first of the entries that the log does
    /// not hold.
    pub open spec fn first_new(self, entries: Seq<EntryView>, i: int) -> int
        decreases entries.len() - i,
    {
        if i >= entries.len() || self.term_at(entries[i].index) != Some(entries[i].term) {
            i
        } else {
            self.first_new(entries, i + 1)
        }
    }

    /// The index after which the log has to be cut for the entries to follow,
    /// if it holds another entry in the place of one of them.
    pub open spec fn conflict(self, entries: Seq<EntryView>) -> Option<u64> {
        let i = self.first_new(entries, 0);
        if i < entries.len() && self.term_at(entries[i].index) is Some {
            Some(index_before(entries[i].index))
        } else {
            None
        }
    }

    /// The log cut as [`LogView::conflict`] says.
    pub open spec fn cut_for(self, entries: Seq<EntryView>) -> LogView {
        match self.conflict(entries) {
            Some(index) => self.truncate(index),
            None => self,
        }
    }

    /// The entries that the log does not hold.
    pub open spec fn fresh(self, entries: Seq<EntryView>) -> Seq<EntryView> {
        entries.skip(self.first_new(entries, 0))
    }

    /// The log with the entries taken in.
    pub open spec fn reconciled(self, entries: Seq<EntryView>) -> LogView {
        self.cut_for(entries).append(self.fresh(entries))
    }
}

/// What a member of a cluster knows.
pub struct NodeView {
    pub id: u128,
    pub cluster_id: u128,
    /// The other members.
    pub peers: Seq<u128>,
    pub role: Role,
    pub current_term: u64,
    pub voted_for: Option<u128>,
    /// Whether the term and the vote are the ones that a restart would find.
    pub kept: bool,
    pub log: LogView,
    pub commit_index: u64,
    pub last_applied: u64,
    pub leader: Option<u128>,
    /// For each peer, the entry to send next.
    pub next_index: Map<u128, u64>,
    /// For each peer, the last entry that it is known to hold.
    pub match_index: Map<u128, u64>,
    pub votes: Set<u128>,
    /// For each peer, when it last answered.
    pub last_response: Map<u128, u64>,
    pub last_heard: u64,
    pub last_heartbeat_sent: u64,
    pub election_timeout: u64,
    pub state: QueueView,
    /// The index that each pending proposal waits for, with its ticket.
    pub waiters: Seq<(u64, u64)>,
    /// The peers that a request is under way to.
    pub inflight: Set<u128>,
}

/// Tells the proposals that wait for an index beyond `applied`.
pub open spec fn waits_beyond(applied: u64) -> spec_fn((u64, u64)) -> bool {
    |waiter: (u64, u64)| waiter.0 > applied
}

/// Tells the proposals that wait for no index beyond `applied`.
pub open spec fn waits_within(applied: u64) -> spec_fn((u64, u64)) -> bool {
    |waiter: (u64, u64)| waiter.0 <= applied
}

/// The tickets of pending proposals.
pub open spec fn tickets(waiters: Seq<(u64, u64)>) -> Seq<u64> {
    waiters.map_values(|waiter: (u64, u64)| waiter.1)
}

impl NodeView {
    pub open spec fn quorum(self) -> nat {
        quorum::majority(self.peers.len())
    }

    /// A member that has just loaded what it had kept.
    pub open spec fn restored(
        id: u128,
        cluster_id: u128,
        peers: Seq<u128>,
        state: QueueView,
        current_term: u64,
        voted_for: Option<u128>,
        log: LogView,
        election_timeout: u64,
        now: u64,
    ) -> NodeView {
        NodeView {
            id,
            cluster_id,
            peers,
            role: Role::Follower,
            current_term,
            voted_for,
            kept: true,
            log,
            commit_index: 0,
            last_applied: 0,
            leader: None,
            next_index: Map::empty(),
            match_index: Map::empty(),
            votes: Set::empty(),
            last_response: Map::empty(),
            last_heard: now,
            last_heartbeat_sent: now,
            election_timeout,
            state,
            waiters: Seq::empty(),
            inflight: Set::empty(),
        }
    }

    /// The bytes that keep this member's term and vote.
    pub open spec fn hard_state(self) -> Seq<u8> {
        hard_state_bytes(self.current_term, self.voted_for)
    }

    // ------------------------------------------------------------ following

    /// Follow in `term` with no leader known. A term that goes on keeps its
    /// vote; in another term none is cast yet.
    pub open spec fn step_down(self, term: u64, now: u64) -> NodeView {
        NodeView {
            current_term: term,
            role: Role::Follower,
            voted_for: if term == self.current_term {
                self.voted_for
            } else {
                None
            },
            kept: self.kept && term == self.current_term,
            leader: None,
            votes: Set::empty(),
            last_heard: now,
            ..self
        }
    }

    /// Follow a term that is later than the current one.
    pub open spec fn catch_up(self, term: u64, now: u64) -> NodeView {
        if term > self.current_term {
            self.step_down(term, now)
        } else {
            self
        }
    }

    /// Whether a candidate's log is no less current than this member's.
    pub open spec fn log_current(self, last_log_term: u64, last_log_index: u64) -> bool {
        last_log_term > self.log.last_term() || (last_log_term == self.log.last_term()
            && last_log_index >= self.log.last_index())
    }

    /// The candidate that a request wins this member's vote for.
    pub open spec fn grants(self, req: VoteRequestView, now: u64) -> Option<u128> {
        let caught_up = self.catch_up(req.term, now);
        match ids::id_of_text(req.candidate_id) {
            Some(candidate) => if req.term >= self.current_term && (caught_up.voted_for is None
                || caught_up.voted_for == Some(candidate)) && self.log_current(
                req.last_log_term,
                req.last_log_index,
            ) {
                Some(candidate)
            } else {
                None
            },
            None => None,
        }
    }

    /// After a request for a vote, before the vote is kept.
    pub open spec fn consider(self, req: VoteRequestView, now: u64) -> NodeView {
        let caught_up = self.catch_up(req.term, now);
        match self.grants(req, now) {
            Some(candidate) => NodeView { voted_for: Some(candidate), kept: false, ..caught_up },
            None => caught_up,
        }
    }

    /// After a request from a leader, before its entries are taken in.
    pub open spec fn meet_leader(self, req: AppendRequestView, now: u64) -> NodeView {
        if req.term < self.current_term {
            self
        } else {
            NodeView {
                role: Role::Follower,
                leader: ids::id_of_text(req.leader_id),
                last_heard: now,
                ..self.catch_up(req.term, now)
            }
        }
    }

    /// Whether a request from a leader can be taken in.
    pub open spec fn admits(self, req: AppendRequestView) -> bool {
        &&& req.term >= self.current_term
        &&& self.log.term_at(req.prev_log_index) == Some(req.prev_log_term)
        &&& readable(req.entries)
    }

    /// Take over a leader's commit point, as far as the log reaches.
    pub open spec fn commit_to(self, leader_commit: u64) -> NodeView {
        if leader_commit > self.commit_index {
            NodeView {
                commit_index: if leader_commit < self.log.last_index() {
                    leader_commit
                } else {
                    self.log.last_index()
                },
                ..self
            }
        } else {
            self
        }
    }

    /// Whether a request from a leader meets a term that is not kept yet.
    pub open spec fn owes_keeping(self, req: AppendRequestView, now: u64) -> bool {
        req.term >= self.current_term && !self.meet_leader(req, now).kept
    }

    /// Drop what the log holds after an index, and the proposals with it.
    pub open spec fn cut_after(self, after: Option<u64>) -> NodeView {
        if after is Some && self.log.cut(after.unwrap()) is Some {
            NodeView {
                log: self.log.truncate(after.unwrap()),
                waiters: self.waiters.filter(waits_within(after.unwrap())),
                ..self
            }
        } else {
            self
        }
    }

    /// The tickets of the proposals that are dropped with what the log holds
    /// after an index.
    pub open spec fn given_up(self, after: Option<u64>) -> Seq<u64> {
        if after is Some && self.log.cut(after.unwrap()) is Some {
            tickets(self.waiters.filter(waits_beyond(after.unwrap())))
        } else {
            Seq::empty()
        }
    }

    /// With a leader's entries in the log, what stood in their place gone.
    pub open spec fn with_entries(self, entries: Seq<EntryView>) -> NodeView {
        let cut = self.cut_after(self.log.conflict(entries));
        NodeView { log: cut.log.append(self.log.fresh(entries)), ..cut }
    }

    /// After a leader's request has been taken in and kept.
    pub open spec fn accept(self, req: AppendRequestView, now: u64) -> NodeView {
        let met = self.meet_leader(req, now);
        NodeView { kept: true, ..met }.with_entries(read(req.entries)).commit_to(
            req.leader_commit,
        ).settle()
    }

    // ------------------------------------------------------------- applying

    /// Whether there is a committed entry to apply.
    pub open spec fn can_apply(self) -> bool {
        self.last_applied < self.commit_index && self.log.entry(
            (self.last_applied + 1) as u64,
        ) is Some
    }

    /// Apply the entry after the last applied one.
    pub open spec fn apply_next(self) -> NodeView {
        let entry = self.log.entry((self.last_applied + 1) as u64).unwrap();
        NodeView {
            state: match entry.payload {
                PayloadView::Noop => self.state,
                PayloadView::Queue(record) => self.state.apply(record),
            },
            last_applied: entry.index,
            ..self
        }
    }

    /// Apply committed entries, `most` of them at the most.
    pub open spec fn drain(self, most: nat) -> NodeView
        decreases most,
    {
        if most == 0 || !self.can_apply() {
            self
        } else {
            self.apply_next().drain((most - 1) as nat)
        }
    }

    /// Apply every committed entry. No entry is applied more often than the log
    /// has entries, should their indices lead round in a circle.
    pub open spec fn drained(self) -> NodeView {
        self.drain(self.log.entries.len())
    }

    /// Apply every committed entry and let go of the proposals that are done.
    pub open spec fn settle(self) -> NodeView {
        let drained = self.drained();
        NodeView {
            waiters: drained.waiters.filter(waits_beyond(drained.last_applied)),
            ..drained
        }
    }

    /// The tickets of the proposals that are done once every committed entry is
    /// applied.
    pub open spec fn settled(self) -> Seq<u64> {
        let drained = self.drained();
        tickets(drained.waiters.filter(waits_within(drained.last_applied)))
    }

    // -------------------------------------------------------------- leading

    /// How far each peer and this member are known to hold the log.
    pub open spec fn positions(self) -> Seq<u64> {
        Seq::new(
            self.peers.len(),
            |i: int|
                if self.match_index.contains_key(self.peers[i]) {
                    self.match_index[self.peers[i]]
                } else {
                    0
                },
        ).push(self.log.last_index())
    }

    /// Commit what a majority holds, provided the last of it is of this term.
    pub open spec fn advance(self) -> NodeView {
        let shared = quorum::shared_position(self.positions(), self.quorum());
        if self.role == Role::Leader && shared > self.commit_index && self.log.term_at(shared)
            == Some(self.current_term) {
            NodeView { commit_index: shared, ..self }
        } else {
            self
        }
    }

    /// The entry that carries a proposal.
    pub open spec fn proposal(self, record: RecordView) -> EntryView {
        EntryView {
            term: self.current_term,
            index: (self.log.last_index() + 1) as u64,
            payload: PayloadView::Queue(record),
        }
    }

    /// The log with a written append taken in.
    pub open spec fn stored(self, write: log::AppendView) -> NodeView {
        NodeView { log: self.log.appended(write), ..self }
    }

    /// Wait for the last entry of the log under a ticket.
    pub open spec fn wait(self, ticket: u64) -> NodeView {
        NodeView { waiters: self.waiters.push((self.log.last_index(), ticket)), ..self }
    }

    /// Campaign in the next term.
    pub open spec fn campaign(self, election_timeout: u64, now: u64) -> NodeView {
        NodeView {
            current_term: (self.current_term + 1) as u64,
            role: Role::Candidate,
            voted_for: Some(self.id),
            kept: false,
            leader: None,
            votes: set![self.id],
            last_heard: now,
            election_timeout,
            ..self
        }
    }

    /// The request for the votes of the peers.
    pub open spec fn vote_request(self) -> VoteRequestView {
        VoteRequestView {
            term: self.current_term,
            candidate_id: ids::id_text(self.id),
            last_log_index: self.log.last_index(),
            last_log_term: self.log.last_term(),
        }
    }

    /// Lead in the current term, before the entry that opens it is kept.
    pub open spec fn lead(self, now: u64) -> NodeView {
        let next = (self.log.last_index() + 1) as u64;
        NodeView {
            role: Role::Leader,
            leader: Some(self.id),
            last_heartbeat_sent: (now - HEARTBEAT) as u64,
            next_index: with_all(self.next_index, self.peers, next),
            match_index: with_all(self.match_index, self.peers, 0),
            last_response: with_all(self.last_response, self.peers, now),
            ..self
        }
    }

    /// The entry that opens a leader's term.
    pub open spec fn opening(self) -> EntryView {
        EntryView {
            term: self.current_term,
            index: (self.log.last_index() + 1) as u64,
            payload: PayloadView::Noop,
        }
    }

    /// Whether a vote asked for in `term` still counts.
    pub open spec fn counts(self, term: u64, resp: RequestVoteResponse) -> bool {
        &&& resp.term <= self.current_term
        &&& self.role == Role::Candidate
        &&& self.current_term == term
        &&& resp.vote_granted
    }

    /// After an answer to a request for a vote, before leading.
    pub open spec fn hear_vote(
        self,
        peer: u128,
        term: u64,
        resp: RequestVoteResponse,
        now: u64,
    ) -> NodeView {
        if resp.term > self.current_term {
            self.step_down(resp.term, now)
        } else if self.counts(term, resp) {
            NodeView { votes: self.votes.insert(peer), ..self }
        } else {
            self
        }
    }

    /// Whether an answer completes the votes of a majority.
    pub open spec fn wins(self, peer: u128, term: u64, resp: RequestVoteResponse) -> bool {
        self.counts(term, resp) && self.votes.insert(peer).len() >= self.quorum()
    }

    /// What the peer has to be sent next.
    pub open spec fn next_for(self, peer: u128) -> u64 {
        if self.next_index.contains_key(peer) && self.next_index[peer] > 1 {
            self.next_index[peer]
        } else {
            1
        }
    }

    /// The request that brings a peer up to date, where the log reaches back to
    /// the entry before it.
    pub open spec fn request_for(self, peer: u128) -> Option<AppendRequestView> {
        let next = self.next_for(peer);
        let prev_log_index = (next - 1) as u64;
        match self.log.term_at(prev_log_index) {
            Some(prev_log_term) => Some(
                AppendRequestView {
                    term: self.current_term,
                    leader_id: ids::id_text(self.id),
                    prev_log_index,
                    prev_log_term,
                    entries: written(self.log.entries_from(next, MAX_ENTRIES_PER_RPC as int)),
                    leader_commit: self.commit_index,
                },
            ),
            None => None,
        }
    }

    /// Those of the first `n` peers that a request goes out to: the ones that
    /// none is under way to and that there is a request for.
    pub open spec fn addressed(self, n: int) -> Seq<u128>
        decreases n,
    {
        if n <= 0 {
            Seq::empty()
        } else {
            let before = self.addressed(n - 1);
            let peer = self.peers[n - 1];
            if self.inflight.contains(peer) || before.contains(peer) || self.request_for(
                peer,
            ) is None {
                before
            } else {
                before.push(peer)
            }
        }
    }

    /// The peers that a round of requests goes out to.
    pub open spec fn recipients(self) -> Seq<u128> {
        if self.role == Role::Leader {
            self.addressed(self.peers.len() as int)
        } else {
            Seq::empty()
        }
    }

    /// After a round of requests has gone out.
    pub open spec fn replicate(self) -> NodeView {
        NodeView { inflight: self.inflight.union(self.recipients().to_set()), ..self }
    }

    /// After a peer's answer to a request of `term`, before committing.
    pub open spec fn hear(
        self,
        peer: u128,
        term: u64,
        resp: AppendEntriesResponse,
        now: u64,
    ) -> NodeView {
        let heard = NodeView { last_response: self.last_response.insert(peer, now), ..self };
        if resp.term > self.current_term {
            heard.step_down(resp.term, now)
        } else if self.role != Role::Leader || self.current_term != term {
            heard
        } else if resp.success {
            NodeView {
                match_index: self.match_index.insert(peer, resp.match_index),
                next_index: self.next_index.insert(peer, (resp.match_index + 1) as u64),
                ..heard
            }
        } else {
            NodeView {
                next_index: self.next_index.insert(peer, step_back(self.next_index, peer)),
                ..heard
            }
        }
    }

    /// Whether a peer has answered within the window.
    pub open spec fn in_touch(self, now: u64) -> spec_fn(u128) -> bool {
        |peer: u128|
            self.last_response.contains_key(peer) && elapsed(now, self.last_response[peer])
                < CONTACT_WINDOW
    }

    /// Whether a leader has lost contact with the majority.
    pub open spec fn lost_quorum(self, now: u64) -> bool {
        &&& self.peers.len() > 0
        &&& self.role == Role::Leader
        &&& quorum::count(self.peers, self.in_touch(now)) + 1 < self.quorum()
    }

    /// After the check of the contact with the majority.
    pub open spec fn check_quorum(self, now: u64) -> NodeView {
        if self.lost_quorum(now) {
            self.step_down(self.current_term, now)
        } else {
            self
        }
    }

    /// Whether it is time to campaign.
    pub open spec fn due(self, now: u64) -> bool {
        self.role != Role::Leader && elapsed(now, self.last_heard) > self.election_timeout
    }

    /// After a round has dropped what can no longer be promised and noted that
    /// the leader shows that it is alive, before requests go out.
    pub open spec fn round(self, now: u64) -> NodeView {
        let checked = self.check_quorum(now);
        if checked.role != Role::Leader {
            NodeView { waiters: Seq::empty(), ..checked }
        } else if elapsed(now, checked.last_heartbeat_sent) >= HEARTBEAT {
            NodeView { last_heartbeat_sent: now, ..checked }
        } else {
            checked
        }
    }
}

/// A map with `value` for each of the peers.
pub open spec fn with_all(m: Map<u128, u64>, peers: Seq<u128>, value: u64) -> Map<u128, u64>
    decreases peers.len(),
{
    if peers.len() == 0 {
        m
    } else {
        with_all(m, peers.drop_last(), value).insert(peers.last(), value)
    }
}

/// One entry further back for a peer, but not before the first.
pub open spec fn step_back(next_index: Map<u128, u64>, peer: u128) -> u64 {
    if next_index.contains_key(peer) && next_index[peer] > 2 {
        (next_index[peer] - 1) as u64
    } else {
        1
    }
}

/// What a message says is what stands in it, field by field and entry by entry.
pub proof fn law_messages_say_what_stands_in_them(
    ask: RequestVoteRequest,
    req: AppendEntriesRequest,
    i: int,
)
    ensures
        ask@.term == ask.term,
        ask@.candidate_id == ask.candidate_id@,
        ask@.last_log_index == ask.last_log_index,
        ask@.last_log_term == ask.last_log_term,
        req@.term == req.term,
        req@.leader_id == req.leader_id@,
        req@.prev_log_index == req.prev_log_index,
        req@.prev_log_term == req.prev_log_term,
        req@.leader_commit == req.leader_commit,
        req@.entries.len() == req.entries@.len(),
        0 <= i < req.entries@.len() ==> req@.entries[i] == req.entries@[i]@,
{
}

} // verus!
