//! One leader per term, whatever else goes wrong: with only the votes looked at,
//! logs may be lost, writes may fail and requests may be refused at any time.
use crate::cluster::Ballot;
use crate::ids;
use crate::log;
use crate::protocol::{
    AppendEntriesResponse, AppendRequestView, NodeView, RequestVoteResponse, Role,
    VoteRequestView,
};
use crate::quorum;
use crate::raft_laws;
use vstd::prelude::*;

verus! {

/// The members of a cluster, the votes that they have cast and kept so far, and
/// who has won which term.
pub struct Electorate {
    pub nodes: Map<u128, NodeView>,
    /// The term and the vote that each member would have after a restart.
    pub kept: Map<u128, (u64, Option<u128>)>,
    pub ballots: Set<Ballot>,
    pub winners: Map<u64, u128>,
    /// Who voted for each term's winner.
    pub backers: Map<u64, Set<u128>>,
}

/// What a member goes through.
pub enum Turn {
    /// It campaigns in the next term, and keeps its vote for itself or fails to.
    Campaign { election_timeout: u64, now: u64, kept: bool },
    /// It decides on a request for its vote, and keeps a vote it grants or fails
    /// to.
    Consider { ask: VoteRequestView, now: u64, kept: bool },
    /// It hears a peer's answer to a request for a vote of `term`, and leads
    /// once a majority has granted it.
    HearVote { peer: u128, term: u64, answer: RequestVoteResponse, now: u64 },
    /// It leads a cluster that it is the only member of.
    LeadAlone { now: u64 },
    /// It keeps its term and its vote.
    Keep,
    /// It starts anew as a follower, with the term and the vote that it kept and
    /// whatever else.
    Restart { after: NodeView },
    /// It goes through anything else that leads to `after`.
    Other { after: NodeView },
}

/// Whether a change is none to the vote of the term, or begins to follow in a
/// later term.
pub open spec fn leaves_votes(before: NodeView, after: NodeView) -> bool {
    &&& after.id == before.id
    &&& after.peers == before.peers
    &&& after.current_term >= before.current_term
    &&& after.kept ==> before.kept && after.current_term == before.current_term
    &&& after.current_term == before.current_term ==> {
        &&& after.voted_for == before.voted_for
        &&& after.role == Role::Follower || (after.role == before.role && after.votes
            == before.votes)
    }
    &&& after.current_term > before.current_term ==> after.role == Role::Follower
}

impl Electorate {
    /// Whether some members are a majority.
    pub open spec fn is_quorum(self, q: Set<u128>) -> bool {
        q.subset_of(self.nodes.dom()) && q.len() >= quorum::majority(
            (self.nodes.dom().len() - 1) as nat,
        )
    }

    /// Whether member `m` can go through a turn now. Nothing that it hears is made
    /// up: a candidate that asks has kept its own vote, and a vote that is
    /// granted was cast and kept.
    pub open spec fn possible(self, m: u128, turn: Turn) -> bool {
        let node = self.nodes[m];
        &&& self.nodes.contains_key(m)
        &&& match turn {
            Turn::Campaign { .. } => node.current_term < u64::MAX,
            Turn::Consider { ask, .. } => match ids::id_of_text(ask.candidate_id) {
                Some(c) => self.ballots.contains(
                    Ballot { term: ask.term, voter: c, candidate: c },
                ),
                None => true,
            },
            Turn::HearVote { peer, term, answer, .. } => answer.vote_granted
                ==> self.ballots.contains(Ballot { term, voter: peer, candidate: m }),
            Turn::LeadAlone { .. } => {
                &&& node.peers.len() == 0
                &&& node.role == Role::Candidate
                &&& node.votes == set![m]
                &&& self.ballots.contains(
                    Ballot { term: node.current_term, voter: m, candidate: m },
                )
            },
            Turn::Keep => true,
            Turn::Restart { after } => {
                &&& after.id == m
                &&& after.peers == node.peers
                &&& after.role == Role::Follower
                &&& (after.current_term, after.voted_for) == self.kept[m]
            },
            Turn::Other { after } => leaves_votes(node, after),
        }
    }

    /// The electorate with a member's state replaced, and its term and vote kept
    /// or not.
    pub open spec fn moved(self, m: u128, node: NodeView, keep: bool) -> Electorate {
        if keep {
            Electorate {
                nodes: self.nodes.insert(m, NodeView { kept: true, ..node }),
                kept: self.kept.insert(m, (node.current_term, node.voted_for)),
                ..self
            }
        } else {
            Electorate { nodes: self.nodes.insert(m, node), ..self }
        }
    }

    /// The electorate with a vote cast and kept.
    pub open spec fn with_ballot(self, ballot: Ballot) -> Electorate {
        Electorate { ballots: self.ballots.insert(ballot), ..self }
    }

    /// The electorate with member `m` leading in its current term.
    pub open spec fn with_winner(self, m: u128, now: u64) -> Electorate {
        let node = self.nodes[m];
        Electorate {
            nodes: self.nodes.insert(m, node.lead(now)),
            winners: self.winners.insert(node.current_term, m),
            backers: self.backers.insert(node.current_term, node.votes),
            ..self
        }
    }

    /// The electorate after member `m` went through a turn.
    pub open spec fn after(self, m: u128, turn: Turn) -> Electorate {
        let node = self.nodes[m];
        match turn {
            Turn::Campaign { election_timeout, now, kept } => {
                let next = node.campaign(election_timeout, now);
                let cast = Ballot { term: next.current_term, voter: m, candidate: m };
                if kept {
                    self.moved(m, next, true).with_ballot(cast)
                } else {
                    self.moved(m, next, false)
                }
            },
            Turn::Consider { ask, now, kept } => {
                let next = node.consider(ask, now);
                match node.grants(ask, now) {
                    Some(candidate) => if kept {
                        self.moved(m, next, true).with_ballot(
                            Ballot { term: ask.term, voter: m, candidate },
                        )
                    } else {
                        self.moved(m, next, false)
                    },
                    None => self.moved(m, next, false),
                }
            },
            Turn::HearVote { peer, term, answer, now } => {
                let heard = self.moved(m, node.hear_vote(peer, term, answer, now), false);
                if node.wins(peer, term, answer) {
                    heard.with_winner(m, now)
                } else {
                    heard
                }
            },
            Turn::LeadAlone { now } => self.with_winner(m, now),
            Turn::Keep => self.moved(m, node, true),
            Turn::Restart { after } => self.moved(m, NodeView { kept: true, ..after }, false),
            Turn::Other { after } => self.moved(m, after, false),
        }
    }

    /// Whether members can go through some turns one after another.
    pub open spec fn can_go_through(self, turns: Seq<(u128, Turn)>) -> bool
        decreases turns.len(),
    {
        turns.len() == 0 || (self.can_go_through(turns.drop_last()) && self.after_all(
            turns.drop_last(),
        ).possible(turns.last().0, turns.last().1))
    }

    /// The electorate after its members went through some turns one after
    /// another.
    pub open spec fn after_all(self, turns: Seq<(u128, Turn)>) -> Electorate
        decreases turns.len(),
    {
        if turns.len() == 0 {
            self
        } else {
            self.after_all(turns.drop_last()).after(turns.last().0, turns.last().1)
        }
    }

    /// The members are who they say, and each counts all the others as peers.
    pub open spec fn composed(self) -> bool {
        &&& self.nodes.dom().finite()
        &&& forall|m: u128| #[trigger]
            self.nodes.contains_key(m) ==> self.nodes[m].id == m && self.nodes[m].peers.len() + 1
                == self.nodes.dom().len()
    }

    /// The votes are the members' own, kept, and one for each member in a term.
    pub open spec fn ballots_in_order(self) -> bool {
        &&& forall|b: Ballot| #[trigger]
            self.ballots.contains(b) ==> {
                &&& self.nodes.contains_key(b.voter)
                &&& b.term == self.nodes[b.voter].current_term ==> self.nodes[b.voter].voted_for
                    == Some(b.candidate)
                &&& b.term <= self.kept[b.voter].0
                &&& b.term == self.kept[b.voter].0 ==> self.kept[b.voter].1 == Some(b.candidate)
                &&& self.ballots.contains(
                    Ballot { term: b.term, voter: b.candidate, candidate: b.candidate },
                )
            }
        &&& forall|a: Ballot, b: Ballot| #[trigger]
            self.ballots.contains(a) && #[trigger] self.ballots.contains(b) && a.term == b.term
                && a.voter == b.voter ==> a.candidate == b.candidate
        &&& forall|m: u128| #[trigger]
            self.nodes.contains_key(m) ==> {
                &&& self.kept[m].0 <= self.nodes[m].current_term
                &&& self.nodes[m].kept ==> self.kept[m] == (
                    self.nodes[m].current_term,
                    self.nodes[m].voted_for,
                )
            }
    }

    /// Whoever campaigns or leads counts votes that were cast for it, and whoever
    /// leads has won its term.
    pub open spec fn counts_in_order(self) -> bool {
        &&& forall|m: u128, v: u128|
            #![trigger self.nodes[m].votes.contains(v)]
            self.nodes.contains_key(m) && self.nodes[m].role != Role::Follower
                && self.nodes[m].votes.contains(v) && v != m ==> self.ballots.contains(
                Ballot { term: self.nodes[m].current_term, voter: v, candidate: m },
            )
        &&& forall|m: u128| #[trigger]
            self.nodes.contains_key(m) && self.nodes[m].role == Role::Leader
                ==> self.winners.contains_key(self.nodes[m].current_term)
                && self.winners[self.nodes[m].current_term] == m
        &&& forall|t: u64| #[trigger]
            self.winners.contains_key(t) ==> self.is_quorum(self.backers[t])
        &&& forall|t: u64, v: u128|
            #![trigger self.backers[t].contains(v)]
            self.winners.contains_key(t) && self.backers[t].contains(v) ==> self.ballots.contains(
                Ballot { term: t, voter: v, candidate: self.winners[t] },
            )
    }

    pub open spec fn inv(self) -> bool {
        &&& self.composed()
        &&& self.ballots_in_order()
        &&& self.counts_in_order()
    }
}

/// Whether a member may move on to another state: its term goes back no further
/// than to what it kept, and then it follows; a vote that was kept stands, and
/// what it counts was cast.
pub open spec fn moves(e: Electorate, m: u128, next: NodeView, keep: bool) -> bool {
    let node = e.nodes[m];
    let t = next.current_term;
    &&& e.nodes.contains_key(m)
    &&& next.id == m
    &&& next.peers == node.peers
    &&& t >= e.kept[m].0
    &&& next.kept && !keep ==> e.kept[m] == (t, next.voted_for)
    &&& forall|b: Ballot| #[trigger]
        e.ballots.contains(b) && b.voter == m && b.term == t ==> next.voted_for == Some(b.candidate)
    &&& next.role != Role::Follower ==> forall|v: u128| #[trigger]
        next.votes.contains(v) && v != m ==> e.ballots.contains(
            Ballot { term: t, voter: v, candidate: m },
        )
    &&& next.role == Role::Leader ==> node.role == Role::Leader && t == node.current_term
}

proof fn lemma_move(e: Electorate, m: u128, next: NodeView, keep: bool)
    requires
        e.inv(),
        moves(e, m, next, keep),
    ensures
        e.moved(m, next, keep).inv(),
{
    let f = e.moved(m, next, keep);
    assert(f.nodes.dom() =~= e.nodes.dom());
    assert forall|n: u128, v: u128|
        #![trigger f.nodes[n].votes.contains(v)]
        f.nodes.contains_key(n) && f.nodes[n].role != Role::Follower && f.nodes[n].votes.contains(v)
            && v != n implies f.ballots.contains(
        Ballot { term: f.nodes[n].current_term, voter: v, candidate: n },
    ) by {
        if n == m {
            assert(next.votes.contains(v));
        } else {
            assert(e.nodes[n].votes.contains(v));
        }
    }
    assert forall|t: u64| #[trigger] f.winners.contains_key(t) implies f.is_quorum(f.backers[t]) by {
        assert(e.is_quorum(e.backers[t]));
    }
    assert forall|t: u64, v: u128|
        #![trigger f.backers[t].contains(v)]
        f.winners.contains_key(t) && f.backers[t].contains(v) implies f.ballots.contains(
        Ballot { term: t, voter: v, candidate: f.winners[t] },
    ) by {
        assert(e.backers[t].contains(v));
    }
}

/// Recording a vote that a member has cast and kept keeps order.
proof fn lemma_cast(e: Electorate, m: u128, candidate: u128)
    requires
        e.inv(),
        e.nodes.contains_key(m),
        e.nodes[m].voted_for == Some(candidate),
        e.kept[m] == (e.nodes[m].current_term, Some(candidate)),
        candidate == m || e.ballots.contains(
            Ballot { term: e.nodes[m].current_term, voter: candidate, candidate },
        ),
    ensures
        e.with_ballot(Ballot { term: e.nodes[m].current_term, voter: m, candidate }).inv(),
{
    let f = e.with_ballot(Ballot { term: e.nodes[m].current_term, voter: m, candidate });
    assert forall|n: u128, v: u128|
        #![trigger f.nodes[n].votes.contains(v)]
        f.nodes.contains_key(n) && f.nodes[n].role != Role::Follower && f.nodes[n].votes.contains(v)
            && v != n implies f.ballots.contains(
        Ballot { term: f.nodes[n].current_term, voter: v, candidate: n },
    ) by {
        assert(e.nodes[n].votes.contains(v));
    }
    assert forall|t: u64| #[trigger] f.winners.contains_key(t) implies f.is_quorum(f.backers[t]) by {
        assert(e.is_quorum(e.backers[t]));
    }
    assert forall|t: u64, v: u128|
        #![trigger f.backers[t].contains(v)]
        f.winners.contains_key(t) && f.backers[t].contains(v) implies f.ballots.contains(
        Ballot { term: t, voter: v, candidate: f.winners[t] },
    ) by {
        assert(e.backers[t].contains(v));
    }
}

/// Whether a candidate has the votes of a majority, its own among them.
pub open spec fn elected(e: Electorate, m: u128) -> bool {
    let node = e.nodes[m];
    &&& e.nodes.contains_key(m)
    &&& node.role == Role::Candidate
    &&& e.is_quorum(node.votes)
    &&& e.ballots.contains(Ballot { term: node.current_term, voter: m, candidate: m })
}

proof fn lemma_win(e: Electorate, m: u128, now: u64)
    requires
        e.inv(),
        elected(e, m),
    ensures
        e.with_winner(m, now).inv(),
        e.winners.contains_key(e.nodes[m].current_term) ==> e.winners[e.nodes[m].current_term] == m,
{
    let f = e.with_winner(m, now);
    let t0 = e.nodes[m].current_term;
    let members = e.nodes.dom();
    assert(f.nodes.dom() =~= members);
    assert(members.contains(m));
    vstd::set_lib::lemma_set_empty_equivalency_len(members);
    assert forall|v: u128| #[trigger] e.nodes[m].votes.contains(v) implies e.ballots.contains(
        Ballot { term: t0, voter: v, candidate: m },
    ) by {}
    if e.winners.contains_key(t0) {
        assert(e.is_quorum(e.backers[t0]));
        raft_laws::law_two_majorities_meet(
            members,
            (members.len() - 1) as nat,
            e.nodes[m].votes,
            e.backers[t0],
        );
        let v = choose|v: u128| e.nodes[m].votes.contains(v) && e.backers[t0].contains(v);
        assert(e.nodes[m].votes.contains(v));
        assert(e.backers[t0].contains(v));
        assert(e.ballots.contains(Ballot { term: t0, voter: v, candidate: e.winners[t0] }));
        assert(e.ballots.contains(Ballot { term: t0, voter: v, candidate: m }));
    }
    assert forall|n: u128, v: u128|
        #![trigger f.nodes[n].votes.contains(v)]
        f.nodes.contains_key(n) && f.nodes[n].role != Role::Follower && f.nodes[n].votes.contains(v)
            && v != n implies f.ballots.contains(
        Ballot { term: f.nodes[n].current_term, voter: v, candidate: n },
    ) by {
        assert(e.nodes[n].votes.contains(v));
    }
    assert forall|t: u64| #[trigger] f.winners.contains_key(t) implies f.is_quorum(f.backers[t]) by {
        if t != t0 {
            assert(e.is_quorum(e.backers[t]));
        }
    }
    assert forall|t: u64, v: u128|
        #![trigger f.backers[t].contains(v)]
        f.winners.contains_key(t) && f.backers[t].contains(v) implies f.ballots.contains(
        Ballot { term: t, voter: v, candidate: f.winners[t] },
    ) by {
        if t == t0 {
            assert(e.nodes[m].votes.contains(v));
        } else {
            assert(e.backers[t].contains(v));
        }
    }
}

proof fn lemma_hear(
    e: Electorate,
    m: u128,
    peer: u128,
    term: u64,
    answer: RequestVoteResponse,
    now: u64,
)
    requires
        e.inv(),
        e.possible(m, Turn::HearVote { peer, term, answer, now }),
    ensures
        ({
            let heard = e.moved(m, e.nodes[m].hear_vote(peer, term, answer, now), false);
            &&& heard.inv()
            &&& e.nodes[m].wins(peer, term, answer) ==> elected(heard, m)
        }),
{
    let node = e.nodes[m];
    let next = node.hear_vote(peer, term, answer, now);
    assert(moves(e, m, next, false)) by {
        assert forall|v: u128| #[trigger]
            next.votes.contains(v) && v != m && next.role
                != Role::Follower implies e.ballots.contains(
            Ballot { term: next.current_term, voter: v, candidate: m },
        ) by {
            if v != peer {
                assert(e.nodes[m].votes.contains(v));
            } else if node.votes.contains(peer) {
                assert(e.nodes[m].votes.contains(v));
            }
        }
    }
    lemma_move(e, m, next, false);
    let heard = e.moved(m, next, false);
    if node.wins(peer, term, answer) {
        assert(e.ballots.contains(Ballot { term, voter: peer, candidate: m }));
        assert(heard.nodes.dom() =~= e.nodes.dom());
        assert(heard.is_quorum(next.votes)) by {
            assert forall|v: u128| #[trigger]
                next.votes.contains(v) implies heard.nodes.dom().contains(v) by {
                if v != m {
                    assert(heard.nodes[m].votes.contains(v));
                }
            }
        }
    }
}

/// Whatever a member goes through, the votes stay in order, and a term that was
/// won stays won by the same member.
pub proof fn law_turns_keep_the_votes_in_order(e: Electorate, m: u128, turn: Turn)
    requires
        e.inv(),
        e.possible(m, turn),
    ensures
        e.after(m, turn).inv(),
        forall|t: u64| #[trigger]
            e.winners.contains_key(t) ==> e.after(m, turn).winners.contains_key(t) && e.after(
                m,
                turn,
            ).winners[t] == e.winners[t],
{
    let node = e.nodes[m];
    assert forall|v: u128| #[trigger] node.votes.contains(v) && v != m && node.role
        != Role::Follower implies e.ballots.contains(
        Ballot { term: node.current_term, voter: v, candidate: m },
    ) by {
        assert(e.nodes[m].votes.contains(v));
    }
    match turn {
        Turn::Campaign { election_timeout, now, kept } => {
            let next = node.campaign(election_timeout, now);
            assert(moves(e, m, next, kept));
            lemma_move(e, m, next, kept);
            if kept {
                lemma_cast(e.moved(m, next, true), m, m);
            }
        },
        Turn::Consider { ask, now, kept } => {
            let next = node.consider(ask, now);
            match node.grants(ask, now) {
                Some(candidate) => {
                    assert(moves(e, m, next, kept));
                    lemma_move(e, m, next, kept);
                    if kept {
                        lemma_cast(e.moved(m, next, true), m, candidate);
                    }
                },
                None => {
                    assert(moves(e, m, next, false));
                    lemma_move(e, m, next, false);
                },
            }
        },
        Turn::HearVote { peer, term, answer, now } => {
            lemma_hear(e, m, peer, term, answer, now);
            if node.wins(peer, term, answer) {
                lemma_win(
                    e.moved(m, node.hear_vote(peer, term, answer, now), false),
                    m,
                    now,
                );
            }
        },
        Turn::LeadAlone { now } => {
            assert(e.is_quorum(node.votes));
            lemma_win(e, m, now);
        },
        Turn::Keep => {
            assert(moves(e, m, node, true));
            lemma_move(e, m, node, true);
        },
        Turn::Restart { after } => {
            let next = NodeView { kept: true, ..after };
            assert(moves(e, m, next, false));
            lemma_move(e, m, next, false);
        },
        Turn::Other { after } => {
            assert(moves(e, m, after, false));
            lemma_move(e, m, after, false);
        },
    }
}

/// Members that have just started for the first time, with no vote cast yet, are
/// in order.
pub proof fn law_fresh_electorate_is_in_order(e: Electorate)
    requires
        e.composed(),
        forall|m: u128| #[trigger]
            e.nodes.contains_key(m) ==> {
                &&& e.nodes[m].role == Role::Follower
                &&& e.nodes[m].current_term == 0
                &&& e.nodes[m].voted_for is None
                &&& e.kept[m] == (0u64, None::<u128>)
            },
        e.ballots == Set::<Ballot>::empty(),
        e.winners == Map::<u64, u128>::empty(),
    ensures
        e.inv(),
{
}

proof fn lemma_turns(e: Electorate, turns: Seq<(u128, Turn)>)
    requires
        e.inv(),
        e.can_go_through(turns),
    ensures
        e.after_all(turns).inv(),
        forall|t: u64| #[trigger]
            e.winners.contains_key(t) ==> e.after_all(turns).winners.contains_key(t)
                && e.after_all(turns).winners[t] == e.winners[t],
    decreases turns.len(),
{
    if turns.len() > 0 {
        let before = turns.drop_last();
        lemma_turns(e, before);
        let f = e.after_all(before);
        law_turns_keep_the_votes_in_order(f, turns.last().0, turns.last().1);
        assert forall|t: u64| #[trigger] e.winners.contains_key(t) implies e.after_all(
            turns,
        ).winners.contains_key(t) && e.after_all(turns).winners[t] == e.winners[t] by {
            assert(f.winners.contains_key(t));
        }
    }
}

/// No term ever has two leaders: a member that leads in a term at one moment and
/// a member that leads in it at the same or any later moment are the same,
/// whatever all members go through in between, restarts and failures of storage
/// among it.
pub proof fn law_a_term_has_one_leader(
    e: Electorate,
    turns: Seq<(u128, Turn)>,
    a: u128,
    b: u128,
)
    requires
        e.inv(),
        e.can_go_through(turns),
        e.nodes.contains_key(a),
        e.nodes[a].role == Role::Leader,
        e.after_all(turns).nodes.contains_key(b),
        e.after_all(turns).nodes[b].role == Role::Leader,
        e.after_all(turns).nodes[b].current_term == e.nodes[a].current_term,
    ensures
        a == b,
{
    lemma_turns(e, turns);
    assert(e.winners.contains_key(e.nodes[a].current_term));
}

/// Everything else that a member goes through leaves the votes of a term as they
/// are: requests from leaders, however far they get, their answers, writing,
/// committing, applying, standing down in the term, and rounds.
pub proof fn law_everything_else_leaves_votes(
    node: NodeView,
    append: AppendRequestView,
    peer: u128,
    term: u64,
    resp: AppendEntriesResponse,
    write: log::AppendView,
    after: Option<u64>,
    ticket: u64,
    now: u64,
)
    ensures
        leaves_votes(node, node.meet_leader(append, now)),
        leaves_votes(node, node.cut_after(after)),
        leaves_votes(node, node.stored(write)),
        leaves_votes(node, node.commit_to(append.leader_commit)),
        leaves_votes(node, node.hear(peer, term, resp, now)),
        leaves_votes(node, node.advance()),
        leaves_votes(node, node.settle()),
        leaves_votes(node, node.wait(ticket)),
        leaves_votes(node, node.replicate()),
        leaves_votes(node, node.round(now)),
        leaves_votes(node, node.step_down(node.current_term, now)),
        leaves_votes(node, NodeView { last_heard: now, ..node }),
        leaves_votes(node, NodeView { inflight: node.inflight.remove(peer), ..node }),
{
    raft_laws::lemma_drain_frame(node, node.log.entries.len());
}

} // verus!
