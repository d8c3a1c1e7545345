//! A whole cluster: its members, what they have told each other so far, and
//! what they go through.
use crate::ids;
use crate::log::EntryView;
use crate::protocol;
use crate::protocol::{
    AppendEntriesResponse, AppendRequestView, NodeView, RequestVoteResponse, Role,
    VoteRequestView,
};
use crate::quorum;
use crate::state::QueueView;
use vstd::prelude::*;

verus! {

/// A vote that was kept: the term it was cast in, who cast it, and for whom.
pub struct Ballot {
    pub term: u64,
    pub voter: u128,
    pub candidate: u128,
}

/// A member held a leader's log up to an index, and said so in that term.
pub struct Ack {
    pub term: u64,
    pub member: u128,
    pub index: int,
}

/// The members of a cluster, and what has happened so far.
pub struct Cluster {
    pub nodes: Map<u128, NodeView>,
    /// The term and the vote that each member would have after a restart.
    pub kept: Map<u128, (u64, Option<u128>)>,
    pub ballots: Set<Ballot>,
    /// The log that each candidate campaigned with in a term.
    pub runs: Map<(u64, u128), Seq<EntryView>>,
    /// The log of each term's leader, as far as it got.
    pub histories: Map<u64, Seq<EntryView>>,
    pub leaders: Map<u64, u128>,
    /// Who voted for each term's leader.
    pub backers: Map<u64, Set<u128>>,
    pub acks: Set<Ack>,
    /// The terms and the indices up to which their leaders have committed.
    pub commits: Set<(u64, int)>,
    /// The terms and members that held no entry in the term that its leader did
    /// not hold.
    pub aligned: Set<(u64, u128)>,
    /// The terms, members and indices at which a member refused to have the
    /// leader's log continued.
    pub refusals: Set<(u64, u128, int)>,
}

/// How far a leader's request got.
pub enum Outcome {
    /// It was refused.
    Refused,
    /// It met a term that could not be kept.
    Unkept,
    /// The log could not be cut.
    Uncut,
    /// The log was cut, but the entries could not be written.
    Cut,
    Taken,
}

/// What a member goes through.
pub enum Step {
    /// It campaigns in the next term, and keeps its vote for itself or fails to.
    Campaign { election_timeout: u64, now: u64, kept: bool },
    /// It decides on a request for its vote, and keeps a vote it grants or fails
    /// to.
    Consider { ask: VoteRequestView, now: u64, kept: bool },
    /// It hears a peer's answer to a request for a vote of `term`. Once a majority
    /// has granted it, it leads and writes the entry that opens its term, or
    /// fails to and stands down.
    HearVote { peer: u128, term: u64, answer: RequestVoteResponse, now: u64, opened: bool },
    /// It leads a cluster that it is the only member of, and writes the entry
    /// that opens its term, or fails to and stands down.
    LeadAlone { now: u64, opened: bool },
    /// It leads and has written an entry of its term at the end of its log.
    Append { entry: EntryView },
    /// It receives a leader's request.
    Receive { req: AppendRequestView, now: u64, outcome: Outcome },
    /// It hears a peer's answer to a request of `term`.
    HearAppend { peer: u128, term: u64, resp: AppendEntriesResponse, now: u64 },
    /// It leads and commits what a majority holds.
    Advance,
    /// It keeps its term and its vote.
    Keep,
    /// It goes through a round, in which a leader that has lost contact with the
    /// majority stands down.
    Round { now: u64 },
    /// It starts anew from the term, the vote and the log that it kept. A write
    /// that it was in the middle of was done or was not.
    Restart { election_timeout: u64, now: u64 },
    /// It goes through anything else that leads to `after`.
    Other { after: NodeView },
}

/// Whether a change touches none of what the members agree on.
pub open spec fn quiet(before: NodeView, after: NodeView) -> bool {
    &&& after.id == before.id
    &&& after.peers == before.peers
    &&& after.role == before.role
    &&& after.current_term == before.current_term
    &&& after.voted_for == before.voted_for
    &&& after.kept ==> before.kept
    &&& after.log == before.log
    &&& after.commit_index == before.commit_index
    &&& after.next_index == before.next_index
    &&& after.match_index == before.match_index
    &&& after.votes == before.votes
}

/// Whether two logs hold the same entries up to `n`.
pub open spec fn same_up_to(a: Seq<EntryView>, b: Seq<EntryView>, n: int) -> bool {
    &&& 0 <= n <= a.len()
    &&& n <= b.len()
    &&& a.take(n) == b.take(n)
}

/// Whether a log is the first part of another.
pub open spec fn prefix(a: Seq<EntryView>, b: Seq<EntryView>) -> bool {
    same_up_to(a, b, a.len() as int)
}

/// The term of the last entry, 0 for none.
pub open spec fn last_term(entries: Seq<EntryView>) -> u64 {
    if entries.len() == 0 {
        0
    } else {
        entries.last().term
    }
}

/// The term of the entry at an index, 0 for index 0.
pub open spec fn term_of(entries: Seq<EntryView>, index: int) -> u64 {
    if index == 0 {
        0
    } else {
        entries[index - 1].term
    }
}

impl Cluster {
    pub open spec fn log_of(self, m: u128) -> Seq<EntryView> {
        self.nodes[m].log.entries
    }

    /// How many members make a majority.
    pub open spec fn needed(self) -> nat {
        quorum::majority((self.nodes.dom().len() - 1) as nat)
    }

    /// Whether some members are a majority.
    pub open spec fn is_quorum(self, q: Set<u128>) -> bool {
        q.subset_of(self.nodes.dom()) && q.len() >= self.needed()
    }

    // ---------------------------------------------------------- what is heard

    /// Whether a request for a vote is one that its candidate sent out, having
    /// kept its own vote.
    pub open spec fn sent_vote(self, req: VoteRequestView) -> bool {
        match ids::id_of_text(req.candidate_id) {
            None => false,
            Some(c) => {
                &&& self.ballots.contains(Ballot { term: req.term, voter: c, candidate: c })
                &&& self.runs.contains_key((req.term, c))
                &&& req.last_log_term == last_term(self.runs[(req.term, c)])
                &&& req.last_log_index == self.runs[(req.term, c)].len()
            },
        }
    }

    /// Whether `index` is within what the leader of `term` knew as committed.
    pub open spec fn known_committed(self, entries: Seq<EntryView>, term: u64, index: int) -> bool {
        index == 0 || exists|t: u64, i: int|
            t <= term && index <= i && #[trigger] self.commits.contains((t, i)) && same_up_to(
                entries,
                self.histories[t],
                index,
            )
    }

    /// Whether the leader of a term has grounds to continue a member's log after
    /// an index: there its own log ended when it won the term, or the member
    /// has refused the index after it, or holds nothing but the leader's log.
    pub open spec fn grounded(self, t: u64, p: u128, k: int) -> bool {
        &&& 0 <= k <= self.histories[t].len()
        &&& k == self.runs[(t, self.leaders[t])].len() || self.refusals.contains((t, p, k + 1))
            || self.aligned.contains((t, p))
    }

    /// Whether a request is one that the leader of its term sent out to a
    /// member.
    pub open spec fn sent_append(self, m: u128, req: AppendRequestView) -> bool {
        let history = self.histories[req.term];
        let prev = req.prev_log_index as int;
        let n = req.entries.len() as int;
        &&& self.histories.contains_key(req.term)
        &&& self.leaders[req.term] != m
        &&& prev + n <= history.len()
        &&& req.prev_log_term == term_of(history, prev)
        &&& protocol::readable(req.entries)
        &&& protocol::read(req.entries) == history.subrange(prev, prev + n)
        &&& self.known_committed(history, req.term, req.leader_commit as int)
        &&& self.grounded(req.term, m, prev)
        &&& n > 0 || self.aligned.contains((req.term, m))
    }

    // ------------------------------------------------------------------ steps

    /// A member once a leader's request got as far as `outcome`.
    pub open spec fn received(
        node: NodeView,
        req: AppendRequestView,
        now: u64,
        outcome: Outcome,
    ) -> NodeView {
        let met = node.meet_leader(req, now);
        let kept = if req.term >= node.current_term {
            NodeView { kept: true, ..met }
        } else {
            met
        };
        let entries = protocol::read(req.entries);
        match outcome {
            Outcome::Unkept => met,
            Outcome::Refused => kept,
            Outcome::Uncut => kept,
            Outcome::Cut => kept.cut_after(kept.log.conflict(entries)),
            Outcome::Taken => kept.with_entries(entries).commit_to(req.leader_commit),
        }
    }

    /// Whether a peer's answer to a leader's request of `term` is on record. A
    /// peer that could not keep the term or cut its log gives no answer. An
    /// answer is heard before the next request to the peer is made: a refusal
    /// is one of the index that the leader tried to go on from.
    pub open spec fn answered(
        self,
        m: u128,
        peer: u128,
        term: u64,
        resp: AppendEntriesResponse,
    ) -> bool {
        let node = self.nodes[m];
        if resp.success {
            self.acks.contains(Ack { term, member: peer, index: resp.match_index as int })
        } else {
            node.role == Role::Leader && node.current_term == term && resp.term <= term ==> {
                ||| self.refusals.contains((term, peer, node.next_for(peer) - 1))
                ||| self.aligned.contains((term, peer))
            }
        }
    }

    /// Whether member `m` can go through a step now. Nothing that it hears is
    /// made up, but messages may come late, twice, or not at all, and storage may
    /// fail at any time.
    pub open spec fn possible(self, m: u128, step: Step) -> bool {
        let node = self.nodes[m];
        &&& self.nodes.contains_key(m)
        &&& match step {
            Step::Campaign { .. } => node.current_term < u64::MAX,
            Step::Consider { ask, .. } => self.sent_vote(ask),
            Step::HearVote { peer, term, answer, .. } => {
                &&& answer.vote_granted ==> self.ballots.contains(
                    Ballot { term, voter: peer, candidate: m },
                )
                &&& node.wins(peer, term, answer) ==> node.log.entries.len() < u64::MAX
            },
            Step::LeadAlone { .. } => {
                &&& node.peers.len() == 0
                &&& node.role == Role::Candidate
                &&& node.votes == set![m]
                &&& self.ballots.contains(
                    Ballot { term: node.current_term, voter: m, candidate: m },
                )
                &&& node.log.entries.len() < u64::MAX
            },
            Step::Append { entry } => self.can_append(m, entry),
            Step::Receive { req, now, outcome } => {
                &&& self.sent_append(m, req)
                &&& match outcome {
                    Outcome::Refused => !node.admits(req),
                    Outcome::Unkept => node.owes_keeping(req, now),
                    Outcome::Uncut => node.admits(req),
                    Outcome::Cut => node.admits(req) && node.log.fresh(
                        protocol::read(req.entries),
                    ).len() > 0,
                    Outcome::Taken => node.admits(req),
                }
            },
            Step::HearAppend { peer, term, resp, .. } => self.answered(m, peer, term, resp),
            Step::Other { after } => quiet(node, after),
            _ => true,
        }
    }

    /// Whether a leader can have written an entry of its term at the end of its
    /// log.
    pub open spec fn can_append(self, m: u128, entry: EntryView) -> bool {
        let node = self.nodes[m];
        &&& self.nodes.contains_key(m)
        &&& node.role == Role::Leader
        &&& node.log.entries.len() < u64::MAX
        &&& entry.term == node.current_term
        &&& entry.index == node.log.entries.len() + 1
    }

    /// The cluster with a member's state replaced.
    pub open spec fn with_node(self, m: u128, node: NodeView) -> Cluster {
        Cluster { nodes: self.nodes.insert(m, node), ..self }
    }

    /// The cluster with a member's state replaced, and its term and vote kept or
    /// not.
    pub open spec fn moved(self, m: u128, node: NodeView, keep: bool) -> Cluster {
        if keep {
            Cluster {
                nodes: self.nodes.insert(m, NodeView { kept: true, ..node }),
                kept: self.kept.insert(m, (node.current_term, node.voted_for)),
                ..self
            }
        } else {
            self.with_node(m, node)
        }
    }

    /// The cluster with member `m` leading in its current term, before the entry
    /// that opens the term is written.
    pub open spec fn with_leader(self, m: u128, now: u64) -> Cluster {
        let node = self.nodes[m];
        let t = node.current_term;
        Cluster {
            nodes: self.nodes.insert(m, node.lead(now)),
            histories: self.histories.insert(t, node.log.entries),
            leaders: self.leaders.insert(t, m),
            backers: self.backers.insert(t, node.votes),
            acks: self.acks.insert(
                Ack { term: t, member: m, index: node.log.entries.len() as int },
            ),
            aligned: self.aligned.insert((t, m)),
            ..self
        }
    }

    /// The cluster with an entry at the end of leader `m`'s log.
    pub open spec fn with_entry(self, m: u128, entry: EntryView) -> Cluster {
        let node = self.nodes[m];
        let t = node.current_term;
        Cluster {
            histories: self.histories.insert(t, self.histories[t].push(entry)),
            acks: self.acks.insert(
                Ack { term: t, member: m, index: node.log.entries.len() as int + 1 },
            ),
            ..self.with_node(m, node.stored(node.log.plan(seq![entry])))
        }
    }

    /// The cluster with member `m` leading in its current term and the entry that
    /// opens the term written, or with the member standing down again.
    pub open spec fn with_opening(self, m: u128, now: u64, opened: bool) -> Cluster {
        let leading = self.with_leader(m, now);
        let node = leading.nodes[m];
        if opened {
            leading.with_entry(m, self.nodes[m].opening())
        } else {
            leading.with_node(m, node.step_down(node.current_term, node.last_heard))
        }
    }

    /// The cluster after member `m` went through a step.
    pub open spec fn after(self, m: u128, step: Step) -> Cluster {
        let node = self.nodes[m];
        match step {
            Step::Campaign { election_timeout, now, kept } => {
                let next = node.campaign(election_timeout, now);
                let moved = self.moved(m, next, kept);
                if kept {
                    Cluster {
                        ballots: self.ballots.insert(
                            Ballot { term: next.current_term, voter: m, candidate: m },
                        ),
                        runs: self.runs.insert((next.current_term, m), next.log.entries),
                        ..moved
                    }
                } else {
                    moved
                }
            },
            Step::Consider { ask, now, kept } => {
                let next = node.consider(ask, now);
                match node.grants(ask, now) {
                    Some(candidate) => if kept {
                        Cluster {
                            ballots: self.ballots.insert(
                                Ballot { term: ask.term, voter: m, candidate },
                            ),
                            ..self.moved(m, next, true)
                        }
                    } else {
                        self.with_node(m, next)
                    },
                    None => self.with_node(m, next),
                }
            },
            Step::HearVote { peer, term, answer, now, opened } => {
                let next = node.hear_vote(peer, term, answer, now);
                let moved = self.with_node(m, next);
                if node.wins(peer, term, answer) {
                    moved.with_opening(m, now, opened)
                } else {
                    moved
                }
            },
            Step::LeadAlone { now, opened } => self.with_opening(m, now, opened),
            Step::Append { entry } => self.with_entry(m, entry),
            Step::Receive { req, now, outcome } => {
                let next = Self::received(node, req, now, outcome);
                let t = req.term;
                let keeps = node.owes_keeping(req, now) && !(outcome is Unkept);
                let moved = self.moved(m, next, keeps);
                match outcome {
                    Outcome::Refused => if t >= node.current_term {
                        Cluster {
                            refusals: self.refusals.insert((t, m, req.prev_log_index as int)),
                            ..moved
                        }
                    } else {
                        moved
                    },
                    Outcome::Unkept => moved,
                    Outcome::Uncut => moved,
                    Outcome::Cut => Cluster { aligned: self.aligned.insert((t, m)), ..moved },
                    Outcome::Taken => Cluster {
                        acks: self.acks.insert(
                            Ack { term: t, member: m, index: next.log.last_index() as int },
                        ),
                        aligned: self.aligned.insert((t, m)),
                        ..moved
                    },
                }
            },
            Step::HearAppend { peer, term, resp, now } => self.with_node(
                m,
                node.hear(peer, term, resp, now),
            ),
            Step::Advance => {
                let next = node.advance();
                let moved = self.with_node(m, next);
                if next.commit_index != node.commit_index {
                    Cluster {
                        commits: self.commits.insert(
                            (node.current_term, next.commit_index as int),
                        ),
                        ..moved
                    }
                } else {
                    moved
                }
            },
            Step::Keep => self.moved(m, node, true),
            Step::Round { now } => self.with_node(m, node.round(now)),
            Step::Restart { election_timeout, now } => self.with_node(
                m,
                NodeView::restored(
                    m,
                    node.cluster_id,
                    node.peers,
                    QueueView::empty(),
                    self.kept[m].0,
                    self.kept[m].1,
                    node.log,
                    election_timeout,
                    now,
                ),
            ),
            Step::Other { after } => self.with_node(m, after),
        }
    }

    /// Whether members can go through some steps one after another.
    pub open spec fn can_go_through(self, steps: Seq<(u128, Step)>) -> bool
        decreases steps.len(),
    {
        steps.len() == 0 || (self.can_go_through(steps.drop_last()) && self.after_all(
            steps.drop_last(),
        ).possible(steps.last().0, steps.last().1))
    }

    /// The cluster after its members went through some steps one after another.
    pub open spec fn after_all(self, steps: Seq<(u128, Step)>) -> Cluster
        decreases steps.len(),
    {
        if steps.len() == 0 {
            self
        } else {
            self.after_all(steps.drop_last()).after(steps.last().0, steps.last().1)
        }
    }

    // ------------------------------------------------------------- invariants

    /// The members are who they say, and each counts all the others as peers.
    pub open spec fn composed(self) -> bool {
        &&& self.nodes.dom().finite()
        &&& forall|m: u128| #[trigger]
            self.nodes.contains_key(m) ==> {
                &&& self.nodes[m].id == m
                &&& self.nodes[m].peers.no_duplicates()
                &&& self.nodes[m].peers.to_set() == self.nodes.dom().remove(m)
            }
    }

    /// The votes are the members' own, kept, one for each member in a term, and
    /// for candidates that campaigned.
    pub open spec fn ballots_in_order(self) -> bool {
        &&& forall|b: Ballot| #[trigger]
            self.ballots.contains(b) ==> {
                &&& self.nodes.contains_key(b.voter)
                &&& b.term == self.nodes[b.voter].current_term ==> self.nodes[b.voter].voted_for
                    == Some(b.candidate)
                &&& b.term <= self.kept[b.voter].0
                &&& b.term == self.kept[b.voter].0 ==> self.kept[b.voter].1 == Some(b.candidate)
                &&& self.ballots.contains(
                    Ballot { term: b.term, voter: b.candidate, candidate: b.candidate },
                )
                &&& self.runs.contains_key((b.term, b.candidate))
            }
        &&& forall|a: Ballot, b: Ballot| #[trigger]
            self.ballots.contains(a) && #[trigger] self.ballots.contains(b) && a.term == b.term
                && a.voter == b.voter ==> a.candidate == b.candidate
        &&& forall|m: u128| #[trigger]
            self.nodes.contains_key(m) ==> {
                &&& self.kept[m].0 <= self.nodes[m].current_term
                &&& self.nodes[m].kept ==> self.kept[m] == (
                    self.nodes[m].current_term,
                    self.nodes[m].voted_for,
                )
            }
    }

    /// Whoever campaigns or leads counts votes that were cast for it, and
    /// campaigns with the log it has.
    pub open spec fn counts_in_order(self) -> bool {
        &&& forall|m: u128, v: u128|
            #![trigger self.nodes[m].votes.contains(v)]
            self.nodes.contains_key(m) && self.nodes[m].role != Role::Follower
                && self.nodes[m].votes.contains(v) && v != m ==> self.ballots.contains(
                Ballot { term: self.nodes[m].current_term, voter: v, candidate: m },
            )
        &&& forall|m: u128| #[trigger]
            self.nodes.contains_key(m) && self.nodes[m].role == Role::Candidate
                && self.ballots.contains(
                Ballot { term: self.nodes[m].current_term, voter: m, candidate: m },
            ) ==> self.runs[(self.nodes[m].current_term, m)] == self.log_of(m)
        &&& forall|t: u64, c: u128| #[trigger]
            self.runs.contains_key((t, c)) ==> self.nodes.contains_key(c) && t <= self.kept[c].0
    }

    /// Each term's leader campaigned in it, won it by a majority, and added
    /// entries of its own term alone.
    pub open spec fn leaders_in_order(self) -> bool {
        &&& forall|t: u64| #[trigger]
            self.histories.contains_key(t) ==> {
                let m = self.leaders[t];
                &&& self.nodes.contains_key(m)
                &&& self.is_quorum(self.backers[t])
                &&& self.runs.contains_key((t, m))
                &&& self.nodes[m].current_term == t ==> self.nodes[m].role != Role::Candidate
                &&& t <= self.kept[m].0
                &&& same_up_to(
                    self.histories[t],
                    self.runs[(t, m)],
                    self.runs[(t, m)].len() as int,
                )
            }
        &&& forall|t: u64, v: u128|
            #![trigger self.backers[t].contains(v)]
            self.histories.contains_key(t) && self.backers[t].contains(v) ==> self.ballots.contains(
                Ballot { term: t, voter: v, candidate: self.leaders[t] },
            )
        &&& forall|m: u128| #[trigger]
            self.nodes.contains_key(m) && self.nodes[m].role == Role::Leader ==> {
                let t = self.nodes[m].current_term;
                &&& self.histories.contains_key(t)
                &&& self.leaders[t] == m
                &&& self.histories[t] == self.log_of(m)
                &&& self.acks.contains(
                    Ack { term: t, member: m, index: self.log_of(m).len() as int },
                )
            }
    }

    /// Whether a log is made of leaders' logs: up to an entry of a term it is
    /// the log of that term's leader.
    pub open spec fn canonical(self, entries: Seq<EntryView>) -> bool {
        &&& entries.len() <= u64::MAX
        &&& forall|i: int|
            0 <= i < entries.len() ==> {
                let t = (#[trigger] entries[i]).term;
                &&& entries[i].index == i + 1
                &&& self.histories.contains_key(t)
                &&& same_up_to(entries, self.histories[t], i + 1)
            }
    }

    pub open spec fn logs_in_order(self) -> bool {
        &&& forall|m: u128| #[trigger]
            self.nodes.contains_key(m) ==> self.canonical(self.log_of(m))
        &&& forall|t: u64| #[trigger]
            self.histories.contains_key(t) ==> self.canonical(self.histories[t])
        &&& forall|t: u64, c: u128| #[trigger]
            self.runs.contains_key((t, c)) ==> self.canonical(self.runs[(t, c)])
        &&& forall|m: u128, i: int|
            #![trigger self.log_of(m)[i]]
            self.nodes.contains_key(m) && 0 <= i < self.log_of(m).len() ==> self.log_of(m)[i].term
                <= self.kept[m].0
        &&& forall|t: u64, i: int|
            #![trigger self.histories[t][i]]
            self.histories.contains_key(t) && 0 <= i < self.histories[t].len()
                ==> self.histories[t][i].term <= t
        &&& forall|t: u64, c: u128, i: int|
            #![trigger self.runs[(t, c)][i]]
            self.runs.contains_key((t, c)) && 0 <= i < self.runs[(t, c)].len() ==> self.runs[(
                t,
                c,
            )][i].term < t
    }

    /// Whether a member has said in a term that it holds the leader's log up to
    /// an index.
    pub open spec fn acked(self, t: u64, v: u128, i: int) -> bool {
        exists|k: int| k >= i && #[trigger] self.acks.contains(Ack { term: t, member: v, index: k })
    }

    /// Whether the entry at an index of a term's history is one of that term.
    pub open spec fn own_entry(self, t: u64, i: int) -> bool {
        &&& self.histories.contains_key(t)
        &&& 1 <= i <= self.histories[t].len()
        &&& self.histories[t][i - 1].term == t
    }

    /// Whether each of the members holds an entry or may still come to do so in
    /// its term.
    pub open spec fn supports(self, q: Set<u128>, t: u64, i: int) -> bool {
        &&& self.is_quorum(q)
        &&& forall|v: u128| #[trigger]
            q.contains(v) ==> self.acked(t, v, i) || self.kept[v].0 <= t
    }

    /// Whether an entry may still be or have been committed in its term.
    pub open spec fn choosable(self, t: u64, i: int) -> bool {
        self.own_entry(t, i) && exists|q: Set<u128>| #[trigger] self.supports(q, t, i)
    }

    /// What members have said they hold is there, and what may be committed
    /// stays: with those who said they hold it, with the candidates these voted
    /// for later, and with later leaders.
    pub open spec fn acks_in_order(self) -> bool {
        &&& forall|a: Ack| #[trigger]
            self.acks.contains(a) ==> {
                &&& self.histories.contains_key(a.term)
                &&& 0 <= a.index <= self.histories[a.term].len()
                &&& self.nodes.contains_key(a.member)
                &&& a.term <= self.kept[a.member].0
            }
        &&& forall|t: u64, i: int, v: u128| #[trigger]
            self.acked(t, v, i) && #[trigger] self.choosable(t, i) ==> same_up_to(
                self.log_of(v),
                self.histories[t],
                i,
            )
        &&& forall|t: u64, i: int, b: Ballot| #[trigger]
            self.choosable(t, i) && #[trigger] self.ballots.contains(b) && t < b.term
                && self.acked(t, b.voter, i) ==> same_up_to(
                self.runs[(b.term, b.candidate)],
                self.histories[t],
                i,
            )
        &&& forall|t: u64, i: int, later: u64| #[trigger]
            self.choosable(t, i) && #[trigger] self.histories.contains_key(later) && t < later
                ==> same_up_to(self.histories[later], self.histories[t], i)
    }

    /// Whether a majority has said that it holds an entry.
    pub open spec fn chosen(self, t: u64, i: int) -> bool {
        self.own_entry(t, i) && exists|q: Set<u128>| #[trigger] self.is_quorum(q) && (forall|
            v: u128,
        | #[trigger] q.contains(v) ==> self.acked(t, v, i))
    }

    /// What is committed is held by a majority; leaders count what was said.
    pub open spec fn commits_in_order(self) -> bool {
        &&& forall|t: u64, i: int| #[trigger] self.commits.contains((t, i)) ==> self.chosen(t, i)
        &&& forall|m: u128| #[trigger]
            self.nodes.contains_key(m) ==> self.known_committed(
                self.log_of(m),
                self.nodes[m].current_term,
                self.nodes[m].commit_index as int,
            )
        &&& forall|m: u128, p: u128|
            #![trigger self.nodes[m].match_index[p]]
            self.nodes.contains_key(m) && self.nodes[m].role == Role::Leader
                && self.nodes[m].peers.contains(p) && self.nodes[m].match_index.contains_key(p)
                && self.nodes[m].match_index[p] > 0 ==> self.acks.contains(
                Ack {
                    term: self.nodes[m].current_term,
                    member: p,
                    index: self.nodes[m].match_index[p] as int,
                },
            )
    }

    /// Members that hold nothing but a leader's log do so while its term lasts,
    /// and are all those that have an entry of the term or said that they hold
    /// some of it. Where a member refused, it holds another log. Leaders go on
    /// from their logs with an entry of their terms, and with their peers from
    /// where they have grounds to.
    pub open spec fn exchanges_in_order(self) -> bool {
        &&& forall|t: u64, v: u128| #[trigger]
            self.aligned.contains((t, v)) ==> {
                &&& self.histories.contains_key(t)
                &&& self.nodes.contains_key(v)
                &&& t <= self.kept[v].0
                &&& self.kept[v].0 == t ==> prefix(self.log_of(v), self.histories[t])
            }
        &&& forall|v: u128, i: int|
            #![trigger self.log_of(v)[i]]
            self.nodes.contains_key(v) && 0 <= i < self.log_of(v).len() && self.log_of(v)[i].term
                == self.kept[v].0 ==> self.aligned.contains((self.kept[v].0, v))
        &&& forall|t: u64, v: u128, k: int| #[trigger]
            self.refusals.contains((t, v, k)) ==> {
                &&& self.histories.contains_key(t)
                &&& 1 <= k <= self.histories[t].len()
                &&& self.nodes.contains_key(v)
                &&& t <= self.kept[v].0
                &&& self.kept[v].0 == t ==> self.aligned.contains((t, v)) || !same_up_to(
                    self.log_of(v),
                    self.histories[t],
                    k,
                )
            }
        &&& forall|a: Ack| #[trigger]
            self.acks.contains(a) ==> self.aligned.contains((a.term, a.member))
        &&& forall|t: u64| #[trigger]
            self.histories.contains_key(t) ==> {
                let n = self.runs[(t, self.leaders[t])].len() as int;
                n < self.histories[t].len() ==> self.histories[t][n].term == t
            }
        &&& forall|m: u128, p: u128|
            #![trigger self.nodes[m].next_for(p)]
            self.nodes.contains_key(m) && self.nodes[m].role == Role::Leader
                && self.nodes[m].peers.contains(p) ==> self.grounded(
                self.nodes[m].current_term,
                p,
                self.nodes[m].next_for(p) - 1,
            )
    }

    /// What holds of votes, terms, logs and commits.
    pub open spec fn ordered(self) -> bool {
        &&& self.composed()
        &&& self.ballots_in_order()
        &&& self.counts_in_order()
        &&& self.leaders_in_order()
        &&& self.logs_in_order()
        &&& self.acks_in_order()
        &&& self.commits_in_order()
    }

    /// Whoever leads has opened its term.
    pub open spec fn terms_opened(self) -> bool {
        forall|m: u128| #[trigger]
            self.nodes.contains_key(m) && self.nodes[m].role == Role::Leader ==> self.runs[(
                self.nodes[m].current_term,
                m,
            )].len() < self.log_of(m).len()
    }

    pub open spec fn inv(self) -> bool {
        self.ordered() && self.exchanges_in_order() && self.terms_opened()
    }
}

} // verus!
