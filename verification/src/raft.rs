//! A member of a cluster that agrees on one log.
//!
//! A [`Node`] decides; it reads no clock, sends nothing and writes nothing.
//! Where a decision has to reach stable storage before the next one, the work is
//! cut in two: one call says what to write, the next is told what became of it.
//! Times are nanoseconds on a clock that never runs backwards.
use std::collections::{HashMap, HashSet};

use crate::codec;
use crate::ids;
use crate::ids::NodeId;
use crate::log;
use crate::log::{Append, EntryPayload, LogEntry, RaftLog};
use crate::protocol;
pub use crate::protocol::{
    AppendEntriesRequest, AppendEntriesResponse, NodeView, RequestVoteRequest,
    RequestVoteResponse, Role,
};
use crate::protocol::{
    CONTACT_WINDOW, ELECTION_TIMEOUT_MAX_MS, ELECTION_TIMEOUT_MIN_MS, HEARTBEAT,
    MAX_ENTRIES_PER_RPC,
};
use crate::quorum;
use crate::state::{QueueState, Record};
use crate::text;
use vstd::prelude::*;

verus! {

broadcast use vstd::std_specs::hash::group_hash_axioms;

/// Why a proposal came to nothing.
#[derive(Debug)]
pub enum ProposeError {
    /// This member does not lead; the one that does, if known.
    NotLeader(Option<NodeId>),
    LostLeadership,
    Storage(String),
}

/// Why a data directory cannot be used.
#[derive(Clone, Copy, PartialEq, Eq, Debug, Structural)]
pub enum OpenError {
    CorruptIdentity,
    WrongCluster { found: u128, expected: u128 },
    WrongNode { found: u128, expected: u128 },
    OrphanLog,
    CorruptHardState,
}

/// What an operator hears of a data directory that cannot be used.
pub open spec fn open_error_text(e: OpenError) -> Seq<char> {
    match e {
        OpenError::CorruptIdentity => "identity file is unreadable"@,
        OpenError::WrongCluster { found, expected } => "data directory belongs to cluster "@
            + ids::id_text(found) + ", not "@ + ids::id_text(expected),
        OpenError::WrongNode { found, expected } => "data directory belongs to node "@
            + ids::id_text(found) + ", not "@ + ids::id_text(expected),
        OpenError::OrphanLog =>
            "found a raft log but no identity file; refusing to bootstrap over it"@,
        OpenError::CorruptHardState => "hard-state file is unreadable"@,
    }
}

impl OpenError {
    /// What an operator hears.
    pub fn message(&self) -> (r: String)
        ensures
            r@ == open_error_text(*self),
    {
        match *self {
            OpenError::CorruptIdentity => String::from_str("identity file is unreadable"),
            OpenError::WrongCluster { found, expected } => {
                let mut message = text::prefixed(
                    "data directory belongs to cluster ",
                    ids::id_to_text(found).as_str(),
                );
                message.append(", not ");
                message.append(ids::id_to_text(expected).as_str());
                message
            },
            OpenError::WrongNode { found, expected } => {
                let mut message = text::prefixed(
                    "data directory belongs to node ",
                    ids::id_to_text(found).as_str(),
                );
                message.append(", not ");
                message.append(ids::id_to_text(expected).as_str());
                message
            },
            OpenError::OrphanLog => String::from_str(
                "found a raft log but no identity file; refusing to bootstrap over it",
            ),
            OpenError::CorruptHardState => String::from_str("hard-state file is unreadable"),
        }
    }
}

// ------------------------------------------------------------- durable values

/// The term and the vote cast in it, which must survive a restart.
#[derive(Clone, Copy, PartialEq, Eq, Debug, Structural)]
pub struct HardState {
    pub current_term: u64,
    pub voted_for: Option<u128>,
}

impl Default for HardState {
    fn default() -> (r: Self)
        ensures
            r == (HardState { current_term: 0, voted_for: None }),
    {
        HardState { current_term: 0, voted_for: None }
    }
}

impl HardState {
    /// The binary form.
    pub fn encode(&self) -> (r: Vec<u8>)
        ensures
            r@ == protocol::hard_state_bytes(self.current_term, self.voted_for),
    {
        let mut out: Vec<u8> = Vec::new();
        codec::put_u64(&mut out, self.current_term);
        codec::put_option(&mut out, self.voted_for);
        assert(out@ =~= protocol::hard_state_bytes(self.current_term, self.voted_for));
        out
    }

    /// Reads the binary form. Bytes past its end are ignored.
    pub fn decode(bytes: &[u8]) -> (r: Result<HardState, codec::Malformed>)
        ensures
            match protocol::read_hard_state(bytes@) {
                Some((current_term, voted_for)) => r is Ok && r->Ok_0 == (HardState {
                    current_term,
                    voted_for,
                }),
                None => r is Err,
            },
    {
        let (current_term, rest) = codec::take_u64(bytes)?;
        let (voted_for, _) = codec::take_option(rest)?;
        Ok(HardState { current_term, voted_for })
    }
}

/// Which node of which cluster a data directory belongs to.
#[derive(Clone, Copy, PartialEq, Eq, Debug, Structural)]
pub struct Identity {
    pub node_id: u128,
    pub cluster_id: u128,
}

impl Identity {
    /// The binary form.
    pub fn encode(&self) -> (r: Vec<u8>)
        ensures
            r@ == protocol::identity_bytes(self.node_id, self.cluster_id),
    {
        let mut out: Vec<u8> = Vec::new();
        codec::put_u128(&mut out, self.node_id);
        codec::put_u128(&mut out, self.cluster_id);
        assert(out@ =~= protocol::identity_bytes(self.node_id, self.cluster_id));
        out
    }

    /// Reads the binary form. Bytes past its end are ignored.
    pub fn decode(bytes: &[u8]) -> (r: Result<Identity, codec::Malformed>)
        ensures
            match protocol::read_identity(bytes@) {
                Some((node_id, cluster_id)) => r is Ok && r->Ok_0 == (Identity {
                    node_id,
                    cluster_id,
                }),
                None => r is Err,
            },
    {
        let (node_id, rest) = codec::take_u128(bytes)?;
        let (cluster_id, _) = codec::take_u128(rest)?;
        Ok(Identity { node_id, cluster_id })
    }
}

/// What a data directory that holds `stored` as its identity means for a node:
/// the identity to write, none if one is there, or why it cannot be used.
pub open spec fn claim(
    stored: Option<Seq<u8>>,
    log_exists: bool,
    node_id: u128,
    cluster_id: u128,
) -> Result<Option<Seq<u8>>, OpenError> {
    match stored {
        Some(bytes) => match protocol::read_identity(bytes) {
            None => Err(OpenError::CorruptIdentity),
            Some((node, cluster)) => if cluster != cluster_id {
                Err(OpenError::WrongCluster { found: cluster, expected: cluster_id })
            } else if node != node_id {
                Err(OpenError::WrongNode { found: node, expected: node_id })
            } else {
                Ok(None)
            },
        },
        None => if log_exists {
            Err(OpenError::OrphanLog)
        } else {
            Ok(Some(protocol::identity_bytes(node_id, cluster_id)))
        },
    }
}

/// Checks that a data directory belongs to a node of a cluster. A directory
/// without an identity is taken over, unless it holds a log; the identity to
/// write is returned then.
pub fn check_identity(
    stored: Option<&[u8]>,
    log_exists: bool,
    node_id: NodeId,
    cluster_id: u128,
) -> (r: Result<Option<Vec<u8>>, OpenError>)
    ensures
        match claim(
            match stored {
                Some(bytes) => Some(bytes@),
                None => None,
            },
            log_exists,
            node_id,
            cluster_id,
        ) {
            Ok(None) => r is Ok && r->Ok_0 is None,
            Ok(Some(bytes)) => r is Ok && r->Ok_0 is Some && r->Ok_0.unwrap()@ == bytes,
            Err(e) => r is Err && r->Err_0 == e,
        },
{
    match stored {
        Some(bytes) => {
            let identity = match Identity::decode(bytes) {
                Ok(identity) => identity,
                Err(_) => {
                    return Err(OpenError::CorruptIdentity);
                },
            };
            if identity.cluster_id != cluster_id {
                return Err(
                    OpenError::WrongCluster { found: identity.cluster_id, expected: cluster_id },
                );
            }
            if identity.node_id != node_id {
                return Err(OpenError::WrongNode { found: identity.node_id, expected: node_id });
            }
            Ok(None)
        },
        None => {
            if log_exists {
                return Err(OpenError::OrphanLog);
            }
            Ok(Some(Identity { node_id, cluster_id }.encode()))
        },
    }
}

// -------------------------------------------------------------------- chances

/// A number that was drawn at random, with the range that it was drawn from. Only a
/// draw makes one.
pub struct Draw {
    low: u64,
    high: u64,
    number: u64,
}

impl Draw {
    /// The number that was drawn.
    pub closed spec fn number(self) -> u64 {
        self.number
    }

    /// Whether the range was that from `low` on to below `high`.
    pub closed spec fn is_from(self, low: u64, high: u64) -> bool {
        self.low == low && self.high == high
    }

    /// The number that was drawn.
    fn value(&self) -> (r: u64)
        ensures
            r == self.number(),
    {
        self.number
    }
}

/// A draw is the number that was drawn, as it was drawn, from one range alone.
proof fn law_draw_is_the_number_drawn(draw: Draw, low: u64, high: u64)
    ensures
        draw.number() == draw.number,
        draw.is_from(low, high) <==> draw.low == low && draw.high == high,
{
}

/// `rand::random_range` on a half-open range: a number of the range. Which one
/// is left to chance. An empty range panics there, so it is left out.
#[verifier::external_body]
fn random_between(low: u64, high: u64) -> (r: Draw)
    requires
        low < high,
    ensures
        low <= r.number() < high,
        r.is_from(low, high),
{
    Draw { low, high, number: rand::random_range(low..high) }
}

/// Whether a wait for a leader is one that a member may draw.
pub open spec fn election_timeout_in_range(nanos: u64) -> bool {
    ELECTION_TIMEOUT_MIN_MS * 1_000_000 <= nanos < ELECTION_TIMEOUT_MAX_MS * 1_000_000
}

/// Draws how long to wait for a leader, in nanoseconds.
pub fn random_election_timeout() -> (r: u64)
    ensures
        election_timeout_in_range(r),
        r % 1_000_000 == 0,
        exists|draw: Draw|
            r == #[trigger] draw.number() * 1_000_000 && draw.is_from(
                ELECTION_TIMEOUT_MIN_MS,
                ELECTION_TIMEOUT_MAX_MS,
            ),
{
    let draw = random_between(ELECTION_TIMEOUT_MIN_MS, ELECTION_TIMEOUT_MAX_MS);
    let r: u64 = draw.value() * 1_000_000;
    assert(r == draw.number() * 1_000_000);
    r
}

/// A wait that a member may draw is at least the shortest one and shorter than
/// the longest, in milliseconds.
pub proof fn law_election_timeout_is_within_its_bounds(millis: u64)
    requires
        millis * 1_000_000 <= u64::MAX,
    ensures
        election_timeout_in_range((millis * 1_000_000) as u64) <==> ELECTION_TIMEOUT_MIN_MS
            <= millis && millis < ELECTION_TIMEOUT_MAX_MS,
{
}

// ------------------------------------------------------------------- the node

/// One member of a cluster: the log it keeps, the part it plays, and the queue
/// that the committed part of the log amounts to.
#[derive(Debug)]
pub struct Node {
    id: NodeId,
    cluster_id: u128,
    peers: Vec<NodeId>,
    quorum: usize,
    role: Role,
    current_term: u64,
    voted_for: Option<NodeId>,
    kept: bool,
    log: RaftLog,
    commit_index: u64,
    last_applied: u64,
    leader: Option<NodeId>,
    next_index: HashMap<NodeId, u64>,
    match_index: HashMap<NodeId, u64>,
    votes: HashSet<NodeId>,
    last_response: HashMap<NodeId, u64>,
    last_heard: u64,
    last_heartbeat_sent: u64,
    election_timeout: u64,
    state: QueueState,
    waiters: Vec<(u64, u64)>,
    inflight: HashSet<NodeId>,
}

impl View for Node {
    type V = NodeView;

    closed spec fn view(&self) -> NodeView {
        NodeView {
            id: self.id,
            cluster_id: self.cluster_id,
            peers: self.peers@,
            role: self.role,
            current_term: self.current_term,
            voted_for: self.voted_for,
            kept: self.kept,
            log: self.log@,
            commit_index: self.commit_index,
            last_applied: self.last_applied,
            leader: self.leader,
            next_index: self.next_index@,
            match_index: self.match_index@,
            votes: self.votes@,
            last_response: self.last_response@,
            last_heard: self.last_heard,
            last_heartbeat_sent: self.last_heartbeat_sent,
            election_timeout: self.election_timeout,
            state: self.state@,
            waiters: self.waiters@,
            inflight: self.inflight@,
        }
    }
}

/// `ids` without any occurrence of `id`.
fn others(ids: &Vec<NodeId>, id: NodeId) -> (r: Vec<NodeId>)
    ensures
        r@ == crate::state::without(ids@, id),
{
    let mut kept: Vec<NodeId> = Vec::new();
    let mut i: usize = 0;
    proof {
        reveal(Seq::filter);
        assert(ids@.take(0).filter(crate::state::other_than(id)) =~= Seq::empty());
    }
    while i < ids.len()
        invariant
            i <= ids@.len(),
            kept@ == ids@.take(i as int).filter(crate::state::other_than(id)),
        decreases ids@.len() - i,
    {
        proof {
            reveal(Seq::filter);
            assert(ids@.take(i + 1).drop_last() =~= ids@.take(i as int));
        }
        if ids[i] != id {
            kept.push(ids[i]);
        }
        i = i + 1;
    }
    assert(ids@.take(i as int) =~= ids@);
    kept
}

/// The term and the vote that a member kept; none cast in term 0 if it kept
/// nothing.
pub open spec fn kept_state(stored: Option<Seq<u8>>) -> Option<(u64, Option<u128>)> {
    match stored {
        Some(bytes) => protocol::read_hard_state(bytes),
        None => Some((0, None)),
    }
}

impl Node {
    /// The parts are in order and the majority is that of the members.
    pub closed spec fn wf(&self) -> bool {
        &&& self.log.wf()
        &&& self.state.wf()
        &&& self.quorum == quorum::majority(self.peers@.len())
    }

    /// A member that starts from what it kept: the bytes of its term and vote,
    /// if there are any, and those of its log. It waits for a leader for
    /// `election_timeout`. The log's file has to be cut to
    /// [`Node::log_bytes`] for a torn trailing record to be gone.
    pub fn restore(
        node_id: NodeId,
        cluster_id: u128,
        peers: Vec<NodeId>,
        state: QueueState,
        hard_state: Option<&[u8]>,
        log_data: &[u8],
        election_timeout: u64,
        now: u64,
    ) -> (r: Result<Self, OpenError>)
        requires
            state.wf(),
        ensures
            match kept_state(
                match hard_state {
                    Some(bytes) => Some(bytes@),
                    None => None,
                },
            ) {
                Some((current_term, voted_for)) => {
                    &&& r is Ok
                    &&& r->Ok_0.wf()
                    &&& r->Ok_0@ == NodeView::restored(
                        node_id,
                        cluster_id,
                        crate::state::without(peers@, node_id),
                        state@,
                        current_term,
                        voted_for,
                        r->Ok_0@.log,
                        election_timeout,
                        now,
                    )
                    &&& r->Ok_0@.log.entries == log::scan_entries(log_data@, 0)
                    &&& log::positions(r->Ok_0@.log.offsets) == log::scan_offsets(log_data@, 0)
                    &&& r->Ok_0@.log.bytes == log::scan_end(log_data@, 0)
                },
                None => r is Err && r->Err_0 == OpenError::CorruptHardState,
            },
    {
        let hard = match hard_state {
            Some(bytes) => match HardState::decode(bytes) {
                Ok(hard) => hard,
                Err(_) => {
                    return Err(OpenError::CorruptHardState);
                },
            },
            None => HardState::default(),
        };
        let log = RaftLog::open(log_data);
        let peers = others(&peers, node_id);
        let quorum: usize = peers.len() / 2 + peers.len() % 2 + 1;
        let node = Node {
            id: node_id,
            cluster_id,
            peers,
            quorum,
            role: Role::Follower,
            current_term: hard.current_term,
            voted_for: hard.voted_for,
            kept: true,
            log,
            commit_index: 0,
            last_applied: 0,
            leader: None,
            next_index: HashMap::new(),
            match_index: HashMap::new(),
            votes: HashSet::new(),
            last_response: HashMap::new(),
            last_heard: now,
            last_heartbeat_sent: now,
            election_timeout,
            state,
            waiters: Vec::new(),
            inflight: HashSet::new(),
        };
        Ok(node)
    }

    /// A member that starts from what it kept, as [`Node::restore`] has it, and
    /// waits for a leader for a random time.
    pub fn open(
        node_id: NodeId,
        cluster_id: u128,
        peers: Vec<NodeId>,
        state: QueueState,
        hard_state: Option<&[u8]>,
        log_data: &[u8],
        now: u64,
    ) -> (r: Result<Self, OpenError>)
        requires
            state.wf(),
        ensures
            match kept_state(
                match hard_state {
                    Some(bytes) => Some(bytes@),
                    None => None,
                },
            ) {
                Some((current_term, voted_for)) => {
                    &&& r is Ok
                    &&& r->Ok_0.wf()
                    &&& r->Ok_0@ == NodeView::restored(
                        node_id,
                        cluster_id,
                        crate::state::without(peers@, node_id),
                        state@,
                        current_term,
                        voted_for,
                        r->Ok_0@.log,
                        r->Ok_0@.election_timeout,
                        now,
                    )
                    &&& election_timeout_in_range(r->Ok_0@.election_timeout)
                    &&& exists|draw: Draw|
                        r->Ok_0@.election_timeout == #[trigger] draw.number() * 1_000_000
                            && draw.is_from(ELECTION_TIMEOUT_MIN_MS, ELECTION_TIMEOUT_MAX_MS)
                    &&& r->Ok_0@.log.entries == log::scan_entries(log_data@, 0)
                    &&& log::positions(r->Ok_0@.log.offsets) == log::scan_offsets(log_data@, 0)
                    &&& r->Ok_0@.log.bytes == log::scan_end(log_data@, 0)
                },
                None => r is Err && r->Err_0 == OpenError::CorruptHardState,
            },
    {
        let election_timeout = random_election_timeout();
        Node::restore(
            node_id,
            cluster_id,
            peers,
            state,
            hard_state,
            log_data,
            election_timeout,
            now,
        )
    }
}

/// What a request for a vote leads to.
#[derive(Debug)]
pub enum VoteStep {
    /// The answer, with nothing to keep first.
    Reply(RequestVoteResponse),
    /// The vote is granted once these bytes are kept.
    Persist(Vec<u8>),
}

/// What a leader's request leads to.
#[derive(Debug)]
pub struct Heard {
    /// The term is not kept yet; these bytes keep it.
    pub keep: Option<Vec<u8>>,
    /// What the request brings, or the answer that refuses it.
    pub decision: Result<Incoming, AppendEntriesResponse>,
}

/// Entries that came from a leader, on their way into the log.
#[derive(Debug)]
pub struct Incoming {
    after: Option<u64>,
    fresh: Vec<LogEntry>,
    leader_commit: u64,
}

/// What an [`Incoming`] says.
pub struct IncomingView {
    /// The index after which the log has to be cut first.
    pub after: Option<u64>,
    pub fresh: Seq<log::EntryView>,
    pub leader_commit: u64,
}

impl View for Incoming {
    type V = IncomingView;

    closed spec fn view(&self) -> IncomingView {
        IncomingView {
            after: self.after,
            fresh: log::entry_views(self.fresh@),
            leader_commit: self.leader_commit,
        }
    }
}

impl IncomingView {
    /// What a request from a leader brings for a log.
    pub open spec fn of(log: log::LogView, req: protocol::AppendRequestView) -> IncomingView {
        let entries = protocol::read(req.entries);
        IncomingView {
            after: log.conflict(entries),
            fresh: log.fresh(entries),
            leader_commit: req.leader_commit,
        }
    }

    /// Whether the log can be cut as it has to be.
    pub open spec fn fits(self, log: log::LogView) -> bool {
        self.after is Some ==> log.can_truncate(self.after.unwrap())
    }
}

// ---------------------------------------------------------------- following

impl Node {
    /// Follows in `term` with no leader known. A term that goes on keeps its
    /// vote; in another term none is cast yet.
    fn step_down(&mut self, term: u64, now: u64)
        requires
            old(self).wf(),
        ensures
            final(self).wf(),
            final(self)@ == old(self)@.step_down(term, now),
    {
        if term != self.current_term {
            self.current_term = term;
            self.voted_for = None;
            self.kept = false;
        }
        self.role = Role::Follower;
        self.leader = None;
        self.votes.clear();
        self.last_heard = now;
    }

    /// The bytes that keep this member's term and vote.
    fn hard_state(&self) -> (r: Vec<u8>)
        ensures
            r@ == self@.hard_state(),
    {
        HardState { current_term: self.current_term, voted_for: self.voted_for }.encode()
    }

    /// Decides on a request for a vote. A granted vote counts once it is kept,
    /// which [`Node::vote_kept`] has to be told.
    pub fn handle_request_vote(&mut self, req: &RequestVoteRequest, now: u64) -> (r: VoteStep)
        requires
            old(self).wf(),
        ensures
            final(self).wf(),
            final(self)@ == old(self)@.consider(req@, now),
            match old(self)@.grants(req@, now) {
                Some(_) => r is Persist && r->Persist_0@ == final(self)@.hard_state(),
                None => r is Reply && r->Reply_0 == (RequestVoteResponse {
                    term: final(self)@.current_term,
                    vote_granted: false,
                }),
            },
    {
        if req.term < self.current_term {
            return VoteStep::Reply(
                RequestVoteResponse { term: self.current_term, vote_granted: false },
            );
        }
        if req.term > self.current_term {
            self.step_down(req.term, now);
        }
        let candidate = match ids::parse_id(req.candidate_id.as_str()) {
            Some(candidate) => candidate,
            None => {
                return VoteStep::Reply(
                    RequestVoteResponse { term: self.current_term, vote_granted: false },
                );
            },
        };
        let free_to_vote = match self.voted_for {
            None => true,
            Some(voted_for) => voted_for == candidate,
        };
        let last_term = self.log.last_term();
        let log_current = req.last_log_term > last_term || (req.last_log_term == last_term
            && req.last_log_index >= self.log.last_index());
        if free_to_vote && log_current {
            self.voted_for = Some(candidate);
            self.kept = false;
            VoteStep::Persist(self.hard_state())
        } else {
            VoteStep::Reply(RequestVoteResponse { term: self.current_term, vote_granted: false })
        }
    }

    /// Answers a request for a vote that was granted, once it is known whether
    /// the vote was kept. A vote that could not be kept is refused.
    pub fn vote_kept(&mut self, kept: bool, now: u64) -> (r: RequestVoteResponse)
        requires
            old(self).wf(),
        ensures
            final(self).wf(),
            final(self)@ == (if kept {
                NodeView { kept: true, last_heard: now, ..old(self)@ }
            } else {
                old(self)@
            }),
            r == (RequestVoteResponse { term: old(self)@.current_term, vote_granted: kept }),
    {
        if kept {
            self.kept = true;
            self.last_heard = now;
        }
        RequestVoteResponse { term: self.current_term, vote_granted: kept }
    }

    /// The answer to a leader whose request does not follow on the log, or whose
    /// entries could not be written.
    pub fn refuse(&self) -> (r: AppendEntriesResponse)
        ensures
            r == (AppendEntriesResponse {
                term: self@.current_term,
                success: false,
                match_index: 0,
            }),
    {
        AppendEntriesResponse { term: self.current_term, success: false, match_index: 0 }
    }

    /// Decides on a request from a leader: what it brings for the log, or the
    /// answer that refuses it. A term that is not kept yet has to be kept first,
    /// whatever the decision, which [`Node::term_kept`] has to be told. What the
    /// request brings is taken in step by step. The log is cut to
    /// [`Node::cut_to`], which [`Node::truncated`] has to be told;
    /// [`Node::incoming_write`] is written, which [`Node::accepted`] has to be
    /// told. Where the term cannot be kept or the log not be cut, the leader gets
    /// no answer: it would take a refusal for a sign that the logs part earlier.
    /// Where the entries cannot be written, [`Node::refuse`] is the answer.
    pub fn handle_append_entries(&mut self, req: &AppendEntriesRequest, now: u64) -> (r: Heard)
        requires
            old(self).wf(),
        ensures
            final(self).wf(),
            final(self)@ == old(self)@.meet_leader(req@, now),
            r.keep is Some <==> old(self)@.owes_keeping(req@, now),
            r.keep is Some ==> r.keep.unwrap()@ == final(self)@.hard_state(),
            r.decision is Ok <==> old(self)@.admits(req@),
            r.decision is Ok ==> r.decision->Ok_0@ == IncomingView::of(old(self)@.log, req@)
                && r.decision->Ok_0@.fits(final(self)@.log),
            r.decision is Err ==> r.decision->Err_0 == (AppendEntriesResponse {
                term: final(self)@.current_term,
                success: false,
                match_index: 0,
            }),
    {
        if req.term < self.current_term {
            return Heard { keep: None, decision: Err(self.refuse()) };
        }
        if req.term > self.current_term {
            self.step_down(req.term, now);
        }
        self.role = Role::Follower;
        self.leader = ids::parse_id(req.leader_id.as_str());
        self.last_heard = now;
        let keep = if self.kept {
            None
        } else {
            Some(self.hard_state())
        };
        Heard { keep, decision: self.decide(req) }
    }

    /// Whether a leader's entries follow on the log, and what they mean for it.
    fn decide(&self, req: &AppendEntriesRequest) -> (r: Result<Incoming, AppendEntriesResponse>)
        ensures
            r is Ok <==> self@.log.term_at(req.prev_log_index) == Some(req.prev_log_term)
                && protocol::readable(req@.entries),
            r is Ok ==> r->Ok_0@ == IncomingView::of(self@.log, req@) && r->Ok_0@.fits(self@.log),
            r is Err ==> r->Err_0 == (AppendEntriesResponse {
                term: self@.current_term,
                success: false,
                match_index: 0,
            }),
    {
        match self.log.term_at(req.prev_log_index) {
            Some(term) => {
                if term != req.prev_log_term {
                    return Err(self.refuse());
                }
            },
            None => {
                return Err(self.refuse());
            },
        }
        match read_all(&req.entries) {
            Some(entries) => Ok(self.incoming(entries, req.leader_commit)),
            None => Err(self.refuse()),
        }
    }

    /// Notes that the term and the vote handed out last have been kept.
    pub fn term_kept(&mut self)
        requires
            old(self).wf(),
        ensures
            final(self).wf(),
            final(self)@ == (NodeView { kept: true, ..old(self)@ }),
    {
        self.kept = true;
    }

    /// Works out what a leader's entries mean for the log.
    fn incoming(&self, entries: Vec<LogEntry>, leader_commit: u64) -> (r: Incoming)
        ensures
            r@ == (IncomingView {
                after: self@.log.conflict(log::entry_views(entries@)),
                fresh: self@.log.fresh(log::entry_views(entries@)),
                leader_commit,
            }),
            r@.fits(self@.log),
    {
        let ghost views = log::entry_views(entries@);
        let mut after: Option<u64> = None;
        let mut i: usize = 0;
        loop
            invariant_except_break
                views == log::entry_views(entries@),
                i <= entries@.len(),
                after is None,
                self@.log.first_new(views, 0) == self@.log.first_new(views, i as int),
            ensures
                views == log::entry_views(entries@),
                i <= entries@.len(),
                i == self@.log.first_new(views, 0),
                after == self@.log.conflict(views),
                after is Some ==> self@.log.can_truncate(after.unwrap()),
            decreases entries@.len() - i,
        {
            if i >= entries.len() {
                break;
            }
            assert(views[i as int] == entries@[i as int]@);
            match self.log.term_at(entries[i].index) {
                Some(term) => {
                    if term != entries[i].term {
                        after = Some(entries[i].index.wrapping_sub(1));
                        break;
                    }
                },
                None => {
                    break;
                },
            }
            i = i + 1;
        }
        let mut entries = entries;
        let fresh = entries.split_off(i);
        assert(log::entry_views(fresh@) =~= views.skip(i as int));
        Incoming { after, fresh, leader_commit }
    }
}

/// Parts the pending proposals into those that wait for no index beyond `index`
/// and those that do.
fn split_waiters(waiters: &Vec<(u64, u64)>, index: u64) -> (r: (Vec<(u64, u64)>, Vec<(u64, u64)>))
    ensures
        r.0@ == waiters@.filter(protocol::waits_within(index)),
        r.1@ == waiters@.filter(protocol::waits_beyond(index)),
{
    let mut within: Vec<(u64, u64)> = Vec::new();
    let mut beyond: Vec<(u64, u64)> = Vec::new();
    let mut i: usize = 0;
    proof {
        reveal(Seq::filter);
        assert(waiters@.take(0) =~= Seq::empty());
    }
    while i < waiters.len()
        invariant
            i <= waiters@.len(),
            within@ == waiters@.take(i as int).filter(protocol::waits_within(index)),
            beyond@ == waiters@.take(i as int).filter(protocol::waits_beyond(index)),
        decreases waiters@.len() - i,
    {
        let waiter = waiters[i];
        proof {
            reveal(Seq::filter);
            assert(waiters@.take(i + 1).drop_last() =~= waiters@.take(i as int));
        }
        if waiter.0 <= index {
            within.push(waiter);
        } else {
            beyond.push(waiter);
        }
        i = i + 1;
    }
    assert(waiters@.take(i as int) =~= waiters@);
    (within, beyond)
}

/// The tickets of pending proposals.
fn tickets_of(waiters: &Vec<(u64, u64)>) -> (r: Vec<u64>)
    ensures
        r@ == protocol::tickets(waiters@),
{
    let mut tickets: Vec<u64> = Vec::new();
    let mut i: usize = 0;
    while i < waiters.len()
        invariant
            i <= waiters@.len(),
            tickets@ == protocol::tickets(waiters@).take(i as int),
        decreases waiters@.len() - i,
    {
        tickets.push(waiters[i].1);
        i = i + 1;
        assert(tickets@ =~= protocol::tickets(waiters@).take(i as int));
    }
    assert(tickets@ =~= protocol::tickets(waiters@));
    tickets
}

/// Reads entries from their binary forms, none if one of them is not an entry.
fn read_all(parts: &Vec<Vec<u8>>) -> (r: Option<Vec<LogEntry>>)
    ensures
        match r {
            Some(entries) => protocol::readable(protocol::contents(parts@)) && log::entry_views(
                entries@,
            ) == protocol::read(protocol::contents(parts@)),
            None => !protocol::readable(protocol::contents(parts@)),
        },
{
    let ghost bytes = protocol::contents(parts@);
    let mut entries: Vec<LogEntry> = Vec::new();
    let mut i: usize = 0;
    while i < parts.len()
        invariant
            bytes == protocol::contents(parts@),
            i <= parts@.len(),
            entries@.len() == i,
            forall|j: int|
                0 <= j < i ==> log::read_entry(#[trigger] bytes[j]) == Some(entries@[j]@),
        decreases parts@.len() - i,
    {
        assert(bytes[i as int] == parts@[i as int]@);
        match log::decode_entry(parts[i].as_slice()) {
            Ok(entry) => {
                entries.push(entry);
            },
            Err(_) => {
                return None;
            },
        }
        i = i + 1;
    }
    assert(log::entry_views(entries@) =~= protocol::read(bytes));
    Some(entries)
}

impl Node {
    /// The length that the log's file has to be cut to before the entries can
    /// follow, or `None` where it stays as it is.
    pub fn cut_to(&self, incoming: &Incoming) -> (r: Option<u64>)
        requires
            self.wf(),
            incoming@.fits(self@.log),
        ensures
            r == (match incoming@.after {
                Some(index) => self@.log.cut(index),
                None => None,
            }),
    {
        match incoming.after {
            Some(index) => self.log.truncate_after(index),
            None => None,
        }
    }

    /// Cuts the log, once its file has been cut. The tickets of the proposals
    /// that were in what is gone: they are lost.
    pub fn truncated(&mut self, incoming: &Incoming) -> (r: Vec<u64>)
        requires
            old(self).wf(),
            incoming@.fits(old(self)@.log),
        ensures
            final(self).wf(),
            final(self)@ == old(self)@.cut_after(incoming@.after),
            r@ == old(self)@.given_up(incoming@.after),
    {
        if let Some(index) = incoming.after {
            if self.log.truncate_after(index).is_some() {
                self.log.truncated(index);
                let (within, beyond) = split_waiters(&self.waiters, index);
                self.waiters = within;
                return tickets_of(&beyond);
            }
        }
        Vec::new()
    }

    /// What has to be written for the entries to be in the log.
    pub fn incoming_write(&self, incoming: &Incoming) -> (r: Append)
        ensures
            r@ == self@.log.plan(incoming@.fresh),
    {
        self.log.append(incoming.fresh.as_slice())
    }

    /// Takes in the entries, once they have been written, and applies what is
    /// committed. The answer to the leader and the tickets of the proposals
    /// that are done.
    pub fn accepted(&mut self, incoming: Incoming, write: Append) -> (r: (
        AppendEntriesResponse,
        Vec<u64>,
    ))
        requires
            old(self).wf(),
            write@.offsets.len() == write@.entries.len(),
        ensures
            final(self).wf(),
            ({
                let committed = old(self)@.stored(write@).commit_to(incoming@.leader_commit);
                &&& final(self)@ == committed.settle()
                &&& r.1@ == committed.settled()
                &&& r.0 == (AppendEntriesResponse {
                    term: committed.current_term,
                    success: true,
                    match_index: committed.log.last_index(),
                })
            }),
    {
        self.log.appended(write);
        if incoming.leader_commit > self.commit_index {
            let last_index = self.log.last_index();
            self.commit_index = if incoming.leader_commit < last_index {
                incoming.leader_commit
            } else {
                last_index
            };
        }
        let match_index = self.log.last_index();
        let term = self.current_term;
        let done = self.apply_committed();
        (AppendEntriesResponse { term, success: true, match_index }, done)
    }

    // --------------------------------------------------------------- applying

    /// Applies every committed entry and hands out the tickets of the proposals
    /// that are done.
    fn apply_committed(&mut self) -> (r: Vec<u64>)
        requires
            old(self).wf(),
        ensures
            final(self).wf(),
            final(self)@ == old(self)@.settle(),
            r@ == old(self)@.settled(),
    {
        let mut most: usize = self.log.len();
        while most > 0
            invariant_except_break
                self.wf(),
                old(self)@.drained() == self@.drain(most as nat),
            ensures
                self.wf(),
                old(self)@.drained() == self@,
            decreases most,
        {
            if self.last_applied >= self.commit_index {
                break;
            }
            match self.log.entry(self.last_applied + 1) {
                Some(entry) => {
                    let index = entry.index;
                    if let EntryPayload::Queue(record) = &entry.payload {
                        self.state.apply(record);
                    }
                    self.last_applied = index;
                },
                None => {
                    break;
                },
            }
            most = most - 1;
        }
        self.release()
    }

    /// Lets go of the proposals whose entry is applied and hands out their
    /// tickets.
    fn release(&mut self) -> (r: Vec<u64>)
        requires
            old(self).wf(),
        ensures
            final(self).wf(),
            final(self)@ == (NodeView {
                waiters: old(self)@.waiters.filter(
                    protocol::waits_beyond(old(self)@.last_applied),
                ),
                ..old(self)@
            }),
            r@ == protocol::tickets(
                old(self)@.waiters.filter(protocol::waits_within(old(self)@.last_applied)),
            ),
    {
        let (within, beyond) = split_waiters(&self.waiters, self.last_applied);
        self.waiters = beyond;
        tickets_of(&within)
    }
}

// --------------------------------------------------------------------- leading

impl Node {
    /// Commits what a majority holds, provided the last of it is of this term.
    fn advance_commit(&mut self)
        requires
            old(self).wf(),
        ensures
            final(self).wf(),
            final(self)@ == old(self)@.advance(),
    {
        if self.role != Role::Leader {
            return;
        }
        let mut positions: Vec<u64> = Vec::new();
        let mut i: usize = 0;
        while i < self.peers.len()
            invariant
                i <= self.peers@.len(),
                positions@ == self@.positions().take(i as int),
            decreases self.peers@.len() - i,
        {
            let at: u64 = match self.match_index.get(&self.peers[i]) {
                Some(at) => *at,
                None => 0,
            };
            positions.push(at);
            i = i + 1;
            assert(positions@ =~= self@.positions().take(i as int));
        }
        positions.push(self.log.last_index());
        assert(positions@ =~= self@.positions());
        let candidate = quorum::find_shared(&positions, self.quorum);
        if candidate > self.commit_index {
            if let Some(term) = self.log.term_at(candidate) {
                if term == self.current_term {
                    self.commit_index = candidate;
                }
            }
        }
    }
}

/// What an election calls for next.
#[derive(Debug)]
pub enum ElectionStep {
    Nothing,
    /// The term has changed; these bytes keep it.
    Persist(Vec<u8>),
    /// Every peer is to be asked for its vote.
    Request(RequestVoteRequest),
    /// The election is won; the entry that opens the term is to be written, and
    /// [`Node::led`] told what became of it.
    Lead(Append),
}

/// What a peer's answer leads to.
#[derive(Debug)]
pub struct Progress {
    /// The term has changed; these bytes keep it.
    pub hard_state: Option<Vec<u8>>,
    /// The tickets of the proposals that are done.
    pub done: Vec<u64>,
}

impl Node {
    /// Works out what has to be written for a record to be proposed; only a
    /// leader proposes. [`Node::proposed`] has to be told once it is written.
    pub fn propose(&self, record: Record) -> (r: Result<Append, ProposeError>)
        requires
            self@.role == Role::Leader ==> self@.log.last_index() < u64::MAX,
        ensures
            self@.role == Role::Leader ==> r is Ok && r->Ok_0@ == self@.log.plan(
                seq![self@.proposal(record@)],
            ),
            self@.role != Role::Leader ==> r is Err && r->Err_0 == ProposeError::NotLeader(
                self@.leader,
            ),
    {
        if self.role != Role::Leader {
            return Err(ProposeError::NotLeader(self.leader));
        }
        let entry = LogEntry {
            term: self.current_term,
            index: self.log.last_index() + 1,
            payload: EntryPayload::Queue(record),
        };
        Ok(self.plan_one(entry))
    }

    /// What has to be written for one entry to be appended.
    fn plan_one(&self, entry: LogEntry) -> (r: Append)
        ensures
            r@ == self@.log.plan(seq![entry@]),
    {
        let mut entries: Vec<LogEntry> = Vec::new();
        entries.push(entry);
        assert(log::entry_views(entries@) =~= seq![entry@]);
        self.log.append(entries.as_slice())
    }

    /// Takes in a proposal that has been written, under a ticket, and commits
    /// what can be committed. The tickets of the proposals that are done.
    pub fn proposed(&mut self, write: Append, ticket: u64) -> (r: Vec<u64>)
        requires
            old(self).wf(),
            write@.offsets.len() == write@.entries.len(),
        ensures
            final(self).wf(),
            final(self)@ == old(self)@.stored(write@).wait(ticket).advance().settle(),
            r@ == old(self)@.stored(write@).wait(ticket).advance().settled(),
    {
        self.log.appended(write);
        self.waiters.push((self.log.last_index(), ticket));
        self.advance_commit();
        self.apply_committed()
    }

    /// Campaigns in the next term, waiting for a leader for a random time. The
    /// bytes that keep the new term; once they are kept,
    /// [`Node::campaign_kept`] goes on.
    pub fn start_election(&mut self, now: u64) -> (r: Vec<u8>)
        requires
            old(self).wf(),
            old(self)@.current_term < u64::MAX,
        ensures
            final(self).wf(),
            final(self)@ == old(self)@.campaign(final(self)@.election_timeout, now),
            election_timeout_in_range(final(self)@.election_timeout),
            exists|draw: Draw|
                final(self)@.election_timeout == #[trigger] draw.number() * 1_000_000
                    && draw.is_from(ELECTION_TIMEOUT_MIN_MS, ELECTION_TIMEOUT_MAX_MS),
            r@ == final(self)@.hard_state(),
    {
        self.campaign(random_election_timeout(), now)
    }

    /// Campaigns in the next term, waiting for a leader for `election_timeout`.
    pub fn campaign(&mut self, election_timeout: u64, now: u64) -> (r: Vec<u8>)
        requires
            old(self).wf(),
            old(self)@.current_term < u64::MAX,
        ensures
            final(self).wf(),
            final(self)@ == old(self)@.campaign(election_timeout, now),
            r@ == final(self)@.hard_state(),
    {
        self.current_term = self.current_term + 1;
        self.role = Role::Candidate;
        self.voted_for = Some(self.id);
        self.kept = false;
        self.leader = None;
        self.votes.clear();
        self.votes.insert(self.id);
        self.last_heard = now;
        self.election_timeout = election_timeout;
        assert(self.votes@ =~= set![self.id]);
        self.hard_state()
    }

    /// Goes on with a campaign whose term has been kept: a member without peers
    /// leads at once, any other asks them for their votes.
    pub fn campaign_kept(&mut self, now: u64) -> (r: ElectionStep)
        requires
            old(self).wf(),
            old(self)@.peers.len() == 0 && old(self)@.role != Role::Leader
                ==> old(self)@.log.last_index() < u64::MAX && now >= HEARTBEAT,
        ensures
            final(self).wf(),
            old(self)@.peers.len() > 0 ==> {
                &&& final(self)@ == (NodeView { kept: true, ..old(self)@ })
                &&& r is Request
                &&& r->Request_0@ == old(self)@.vote_request()
            },
            old(self)@.peers.len() == 0 && old(self)@.role != Role::Leader ==> {
                &&& final(self)@ == (NodeView { kept: true, ..old(self)@ }).lead(now)
                &&& r is Lead
                &&& r->Lead_0@ == old(self)@.log.plan(seq![old(self)@.opening()])
            },
            old(self)@.peers.len() == 0 && old(self)@.role == Role::Leader ==> final(self)@ == (
            NodeView { kept: true, ..old(self)@ }) && r is Nothing,
    {
        self.kept = true;
        if self.peers.len() == 0 {
            let term = self.current_term;
            return match self.become_leader(term, now) {
                Some(write) => ElectionStep::Lead(write),
                None => ElectionStep::Nothing,
            };
        }
        ElectionStep::Request(
            RequestVoteRequest {
                term: self.current_term,
                candidate_id: ids::id_to_text(self.id),
                last_log_index: self.log.last_index(),
                last_log_term: self.log.last_term(),
            },
        )
    }

    /// Hears a peer's answer to a request for a vote of `term`.
    pub fn on_vote(
        &mut self,
        peer: NodeId,
        term: u64,
        resp: RequestVoteResponse,
        now: u64,
    ) -> (r: ElectionStep)
        requires
            old(self).wf(),
            old(self)@.wins(peer, term, resp) ==> old(self)@.log.last_index() < u64::MAX && now
                >= HEARTBEAT,
        ensures
            final(self).wf(),
            ({
                let heard = old(self)@.hear_vote(peer, term, resp, now);
                if resp.term > old(self)@.current_term {
                    &&& final(self)@ == heard
                    &&& r is Persist
                    &&& r->Persist_0@ == heard.hard_state()
                } else if old(self)@.wins(peer, term, resp) {
                    &&& final(self)@ == heard.lead(now)
                    &&& r is Lead
                    &&& r->Lead_0@ == heard.log.plan(seq![heard.opening()])
                } else {
                    &&& final(self)@ == heard
                    &&& r is Nothing
                }
            }),
    {
        if resp.term > self.current_term {
            self.step_down(resp.term, now);
            return ElectionStep::Persist(self.hard_state());
        }
        if self.role != Role::Candidate || self.current_term != term {
            return ElectionStep::Nothing;
        }
        if !resp.vote_granted {
            return ElectionStep::Nothing;
        }
        self.votes.insert(peer);
        if self.votes.len() >= self.quorum {
            match self.become_leader(term, now) {
                Some(write) => ElectionStep::Lead(write),
                None => ElectionStep::Nothing,
            }
        } else {
            ElectionStep::Nothing
        }
    }

    /// Leads in `term`, if it is the current one and this member does not lead
    /// yet. What has to be written to open the term.
    fn become_leader(&mut self, term: u64, now: u64) -> (r: Option<Append>)
        requires
            old(self).wf(),
            old(self)@.current_term == term && old(self)@.role != Role::Leader
                ==> old(self)@.log.last_index() < u64::MAX && now >= HEARTBEAT,
        ensures
            final(self).wf(),
            if old(self)@.current_term != term || old(self)@.role == Role::Leader {
                final(self)@ == old(self)@ && r is None
            } else {
                &&& final(self)@ == old(self)@.lead(now)
                &&& r is Some
                &&& r.unwrap()@ == old(self)@.log.plan(seq![old(self)@.opening()])
            },
    {
        if self.current_term != term || self.role == Role::Leader {
            return None;
        }
        self.role = Role::Leader;
        self.leader = Some(self.id);
        self.last_heartbeat_sent = now - HEARTBEAT;
        let next: u64 = self.log.last_index() + 1;
        let mut i: usize = 0;
        let ghost before = old(self)@;
        proof {
            assert(before.peers.take(0) =~= Seq::empty());
        }
        while i < self.peers.len()
            invariant
                before == old(self)@,
                self.wf(),
                i <= self.peers@.len(),
                next == before.log.last_index() + 1,
                self@ == (NodeView {
                    next_index: protocol::with_all(
                        before.next_index,
                        before.peers.take(i as int),
                        next,
                    ),
                    match_index: protocol::with_all(
                        before.match_index,
                        before.peers.take(i as int),
                        0,
                    ),
                    last_response: protocol::with_all(
                        before.last_response,
                        before.peers.take(i as int),
                        now,
                    ),
                    role: Role::Leader,
                    leader: Some(before.id),
                    last_heartbeat_sent: (now - HEARTBEAT) as u64,
                    ..before
                }),
            decreases self.peers@.len() - i,
        {
            let peer = self.peers[i];
            self.next_index.insert(peer, next);
            self.match_index.insert(peer, 0);
            self.last_response.insert(peer, now);
            assert(before.peers.take(i + 1).drop_last() =~= before.peers.take(i as int));
            i = i + 1;
        }
        assert(before.peers.take(i as int) =~= before.peers);
        let entry = LogEntry { term, index: next, payload: EntryPayload::Noop };
        Some(self.plan_one(entry))
    }

    /// Takes in the entry that opens a leader's term once it has been written,
    /// and commits what can be committed. Where it could not be written, the
    /// leader stands down: without an entry of its own term it has nothing to
    /// bring its peers in step with. The tickets of the proposals that are done.
    pub fn led(&mut self, written: Option<Append>) -> (r: Vec<u64>)
        requires
            old(self).wf(),
            written is Some ==> written.unwrap()@.offsets.len() == written.unwrap()@.entries.len(),
        ensures
            final(self).wf(),
            match written {
                Some(write) => {
                    let opened = old(self)@.stored(write@);
                    final(self)@ == opened.advance().settle() && r@ == opened.advance().settled()
                },
                None => {
                    &&& final(self)@ == old(self)@.step_down(
                        old(self)@.current_term,
                        old(self)@.last_heard,
                    )
                    &&& r@.len() == 0
                },
            },
    {
        match written {
            Some(write) => {
                self.log.appended(write);
                self.advance_commit();
                self.apply_committed()
            },
            None => {
                self.step_down(self.current_term, self.last_heard);
                Vec::new()
            },
        }
    }

    /// Hears a peer's answer to a request of `term`.
    pub fn on_append_response(
        &mut self,
        peer: NodeId,
        term: u64,
        resp: AppendEntriesResponse,
        now: u64,
    ) -> (r: Progress)
        requires
            old(self).wf(),
            resp.success && resp.term <= term && old(self)@.current_term == term
                && old(self)@.role == Role::Leader ==> resp.match_index < u64::MAX,
        ensures
            final(self).wf(),
            ({
                let heard = old(self)@.hear(peer, term, resp, now);
                if resp.term > old(self)@.current_term {
                    &&& final(self)@ == heard
                    &&& r.hard_state is Some
                    &&& r.hard_state.unwrap()@ == heard.hard_state()
                    &&& r.done@.len() == 0
                } else if old(self)@.role != Role::Leader || old(self)@.current_term != term {
                    &&& final(self)@ == heard
                    &&& r.hard_state is None
                    &&& r.done@.len() == 0
                } else {
                    &&& final(self)@ == heard.advance().settle()
                    &&& r.hard_state is None
                    &&& r.done@ == heard.advance().settled()
                }
            }),
    {
        self.last_response.insert(peer, now);
        if resp.term > self.current_term {
            self.step_down(resp.term, now);
            return Progress { hard_state: Some(self.hard_state()), done: Vec::new() };
        }
        if self.role != Role::Leader || self.current_term != term {
            return Progress { hard_state: None, done: Vec::new() };
        }
        if resp.success {
            self.match_index.insert(peer, resp.match_index);
            self.next_index.insert(peer, resp.match_index + 1);
        } else {
            let next: u64 = match self.next_index.get(&peer) {
                Some(next) => *next,
                None => 1,
            };
            let back: u64 = if next > 2 {
                next - 1
            } else {
                1
            };
            self.next_index.insert(peer, back);
        }
        self.advance_commit();
        let done = self.apply_committed();
        Progress { hard_state: None, done }
    }

    /// Notes that a request to a peer has been answered or has failed, so that
    /// the next one may go out.
    pub fn request_done(&mut self, peer: NodeId)
        requires
            old(self).wf(),
        ensures
            final(self).wf(),
            final(self)@ == (NodeView {
                inflight: old(self)@.inflight.remove(peer),
                ..old(self)@
            }),
    {
        self.inflight.remove(&peer);
    }
}

// ---------------------------------------------------------------------- rounds

/// What a round calls for.
#[derive(Debug)]
pub enum Action {
    Nothing,
    /// It is time to campaign.
    Campaign,
    /// Requests to send, each to its peer.
    Replicate(Vec<(NodeId, AppendEntriesRequest)>),
}

/// The outcome of a round.
#[derive(Debug)]
pub struct Round {
    /// The tickets of the proposals that are lost with the leadership.
    pub lost: Vec<u64>,
    pub action: Action,
}

/// Whether the requests are the ones that a node owes its recipients, in order.
pub open spec fn owed(
    node: NodeView,
    recipients: Seq<u128>,
    requests: Seq<(NodeId, AppendEntriesRequest)>,
) -> bool {
    &&& requests.len() == recipients.len()
    &&& forall|i: int|
        0 <= i < requests.len() ==> {
            &&& (#[trigger] requests[i]).0 == recipients[i]
            &&& node.request_for(recipients[i]) == Some(requests[i].1@)
        }
}

impl Node {
    /// One round of the protocol. A leader that has lost contact with the
    /// majority stands down; whoever does not lead gives its proposals up; then
    /// it is time to campaign, to replicate, or neither.
    pub fn run(&mut self, now: u64) -> (r: Round)
        requires
            old(self).wf(),
        ensures
            final(self).wf(),
            ({
                let round = old(self)@.round(now);
                if round.role == Role::Leader {
                    &&& final(self)@ == round.replicate()
                    &&& r.lost@.len() == 0
                    &&& r.action is Replicate
                    &&& owed(round, round.recipients(), r.action->Replicate_0@)
                } else {
                    &&& final(self)@ == round
                    &&& r.lost@ == protocol::tickets(old(self)@.waiters)
                    &&& r.action == (if round.due(now) {
                        Action::Campaign
                    } else {
                        Action::Nothing
                    })
                }
            }),
    {
        self.step_down_if_quorum_lost(now);
        if self.role != Role::Leader {
            let lost = self.fail_pending_proposals();
            let action = if now.saturating_sub(self.last_heard) > self.election_timeout {
                Action::Campaign
            } else {
                Action::Nothing
            };
            return Round { lost, action };
        }
        if now.saturating_sub(self.last_heartbeat_sent) >= HEARTBEAT {
            self.last_heartbeat_sent = now;
        }
        Round { lost: Vec::new(), action: Action::Replicate(self.replicate_to_peers()) }
    }

    /// Stands down in the current term if a majority has not answered within
    /// the window.
    fn step_down_if_quorum_lost(&mut self, now: u64)
        requires
            old(self).wf(),
        ensures
            final(self).wf(),
            final(self)@ == old(self)@.check_quorum(now),
    {
        if self.peers.len() == 0 {
            return;
        }
        if self.role != Role::Leader {
            return;
        }
        let ghost in_touch = self@.in_touch(now);
        let mut reachable: usize = 0;
        let mut i: usize = 0;
        proof {
            assert(self.peers@.take(0) =~= Seq::empty());
        }
        while i < self.peers.len()
            invariant
                in_touch == self@.in_touch(now),
                reachable <= i <= self.peers@.len(),
                reachable == quorum::count(self.peers@.take(i as int), in_touch),
            decreases self.peers@.len() - i,
        {
            assert(self.peers@.take(i + 1).drop_last() =~= self.peers@.take(i as int));
            if let Some(seen) = self.last_response.get(&self.peers[i]) {
                if now.saturating_sub(*seen) < CONTACT_WINDOW {
                    reachable = reachable + 1;
                }
            }
            i = i + 1;
        }
        assert(self.peers@.take(i as int) =~= self.peers@);
        if reachable < self.quorum - 1 {
            let term = self.current_term;
            self.step_down(term, now);
        }
    }

    /// Gives every pending proposal up and hands out their tickets.
    fn fail_pending_proposals(&mut self) -> (r: Vec<u64>)
        requires
            old(self).wf(),
        ensures
            final(self).wf(),
            final(self)@ == (NodeView { waiters: Seq::empty(), ..old(self)@ }),
            r@ == protocol::tickets(old(self)@.waiters),
    {
        let lost = tickets_of(&self.waiters);
        self.waiters = Vec::new();
        lost
    }

    /// The request that brings a peer up to date, where the log reaches back to
    /// the entry before it.
    fn request_for(&self, peer: NodeId) -> (r: Option<AppendEntriesRequest>)
        ensures
            match r {
                Some(req) => self@.request_for(peer) == Some(req@),
                None => self@.request_for(peer) is None,
            },
    {
        let next: u64 = match self.next_index.get(&peer) {
            Some(next) => if *next > 1 {
                *next
            } else {
                1
            },
            None => 1,
        };
        let prev_log_index: u64 = next - 1;
        let prev_log_term = match self.log.term_at(prev_log_index) {
            Some(term) => term,
            None => {
                return None;
            },
        };
        let batch = self.log.entries_from(next, MAX_ENTRIES_PER_RPC);
        let ghost views = log::entry_views(batch@);
        let mut entries: Vec<Vec<u8>> = Vec::new();
        let mut i: usize = 0;
        while i < batch.len()
            invariant
                views == log::entry_views(batch@),
                i <= batch@.len(),
                entries@.len() == i,
                forall|j: int|
                    0 <= j < i ==> #[trigger] entries@[j]@ == log::entry_bytes(views[j]),
            decreases batch@.len() - i,
        {
            entries.push(log::encode_entry(&batch[i]));
            i = i + 1;
        }
        assert(protocol::contents(entries@) =~= protocol::written(views));
        Some(
            AppendEntriesRequest {
                term: self.current_term,
                leader_id: ids::id_to_text(self.id),
                prev_log_index,
                prev_log_term,
                entries,
                leader_commit: self.commit_index,
            },
        )
    }

    /// Makes a request for every peer that none is under way to.
    fn replicate_to_peers(&mut self) -> (r: Vec<(NodeId, AppendEntriesRequest)>)
        requires
            old(self).wf(),
        ensures
            final(self).wf(),
            final(self)@ == old(self)@.replicate(),
            owed(old(self)@, old(self)@.recipients(), r@),
    {
        let mut requests: Vec<(NodeId, AppendEntriesRequest)> = Vec::new();
        let ghost before = self@;
        if self.role != Role::Leader {
            assert(before.inflight.union(before.recipients().to_set()) =~= before.inflight);
            return requests;
        }
        let mut i: usize = 0;
        assert(before.inflight.union(before.addressed(0).to_set()) =~= before.inflight);
        while i < self.peers.len()
            invariant
                self.wf(),
                before == old(self)@,
                before.role == Role::Leader,
                i <= self.peers@.len(),
                self@ == (NodeView {
                    inflight: before.inflight.union(before.addressed(i as int).to_set()),
                    ..before
                }),
                owed(before, before.addressed(i as int), requests@),
            decreases self.peers@.len() - i,
        {
            let peer = self.peers[i];
            let ghost sent = before.addressed(i as int);
            if !self.inflight.contains(&peer) {
                if let Some(req) = self.request_for(peer) {
                    assert(self@.request_for(peer) == before.request_for(peer));
                    self.inflight.insert(peer);
                    requests.push((peer, req));
                    assert(before.addressed(i + 1) == sent.push(peer));
                    assert(self.inflight@ =~= before.inflight.union(sent.push(peer).to_set())) by {
                        sent.lemma_push_to_set_commute(peer);
                    }
                }
            }
            i = i + 1;
        }
        requests
    }

    // -------------------------------------------------------------- looking on

    pub fn id(&self) -> (r: NodeId)
        ensures
            r == self@.id,
    {
        self.id
    }

    pub fn cluster_id(&self) -> (r: u128)
        ensures
            r == self@.cluster_id,
    {
        self.cluster_id
    }

    /// The other members.
    pub fn peers(&self) -> (r: &Vec<NodeId>)
        ensures
            r@ == self@.peers,
    {
        &self.peers
    }

    /// The queue that the applied part of the log amounts to.
    pub fn state(&self) -> (r: &QueueState)
        requires
            self.wf(),
        ensures
            r@ == self@.state,
            r.wf(),
    {
        &self.state
    }

    pub fn role(&self) -> (r: Role)
        ensures
            r == self@.role,
    {
        self.role
    }

    pub fn term(&self) -> (r: u64)
        ensures
            r == self@.current_term,
    {
        self.current_term
    }

    /// Who leads, as far as this member knows.
    pub fn leader(&self) -> (r: Option<NodeId>)
        ensures
            r == self@.leader,
    {
        self.leader
    }

    pub fn is_leader(&self) -> (r: bool)
        ensures
            r == (self@.role == Role::Leader),
    {
        self.role == Role::Leader
    }

    pub fn last_index(&self) -> (r: u64)
        ensures
            r == self@.log.last_index(),
    {
        self.log.last_index()
    }

    pub fn commit_index(&self) -> (r: u64)
        ensures
            r == self@.commit_index,
    {
        self.commit_index
    }

    /// The length of the log's file, as far as it holds whole frames.
    pub fn log_bytes(&self) -> (r: u64)
        ensures
            r == self@.log.bytes,
    {
        self.log.byte_len()
    }
}

} // verus!
