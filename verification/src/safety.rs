//! What a cluster never does, whatever its members go through: have two leaders
//! in one term, hold different entries in one place of one term, or lose or
//! contradict what it has committed.
use crate::cluster::{Ack, Ballot, Cluster, Outcome, Step};
use crate::cluster;
use crate::ids;
use crate::log::{EntryView, LogView};
use crate::proposal_laws;
use crate::protocol;
use crate::protocol::{AppendRequestView, NodeView, RequestVoteResponse, Role, VoteRequestView};
use crate::quorum;
use crate::raft_laws;
use crate::state::QueueView;
use vstd::prelude::*;
use vstd::set_lib::*;

verus! {

// -------------------------------------------------------------- small lemmas

/// Two majorities of a cluster have a member in common.
proof fn lemma_quorums_meet(c: Cluster, a: Set<u128>, b: Set<u128>) -> (v: u128)
    requires
        c.composed(),
        c.is_quorum(a),
        c.is_quorum(b),
        c.nodes.dom().len() > 0,
    ensures
        a.contains(v),
        b.contains(v),
        c.nodes.contains_key(v),
{
    let members = c.nodes.dom();
    raft_laws::law_two_majorities_meet(members, (members.len() - 1) as nat, a, b);
    choose|v: u128| a.contains(v) && b.contains(v)
}

/// A member makes the cluster no empty one.
proof fn lemma_not_empty(c: Cluster, m: u128)
    requires
        c.composed(),
        c.nodes.contains_key(m),
    ensures
        c.nodes.dom().len() > 0,
        c.nodes[m].peers.len() + 1 == c.nodes.dom().len(),
        c.nodes[m].quorum() == c.needed(),
{
    let members = c.nodes.dom();
    assert(members.contains(m));
    lemma_set_empty_equivalency_len(members);
    c.nodes[m].peers.unique_seq_to_set();
    assert(members.remove(m).len() == members.len() - 1);
}

proof fn lemma_same_shorter(a: Seq<EntryView>, b: Seq<EntryView>, n: int, k: int)
    requires
        cluster::same_up_to(a, b, n),
        0 <= k <= n,
    ensures
        cluster::same_up_to(a, b, k),
        forall|i: int| 0 <= i < n ==> #[trigger] a[i] == b[i],
{
    assert forall|i: int| 0 <= i < n implies #[trigger] a[i] == b[i] by {
        assert(a.take(n)[i] == b.take(n)[i]);
    }
    assert(a.take(k) =~= b.take(k));
}

proof fn lemma_same_from_elements(a: Seq<EntryView>, b: Seq<EntryView>, n: int)
    requires
        0 <= n <= a.len(),
        n <= b.len(),
        forall|i: int| 0 <= i < n ==> #[trigger] a[i] == b[i],
    ensures
        cluster::same_up_to(a, b, n),
{
    assert(a.take(n) =~= b.take(n));
}

// --------------------------------------------------------------------- moves

/// Where a change from one cluster to another leaves what members have said and
/// takes no term back, what may be committed afterwards may be before.
proof fn lemma_choosable_shrinks(c: Cluster, d: Cluster, t: u64, i: int)
    requires
        d.nodes.dom() == c.nodes.dom(),
        d.histories == c.histories,
        d.acks == c.acks,
        forall|v: u128| #[trigger]
            c.nodes.contains_key(v) ==> c.kept[v].0 <= d.kept[v].0,
        d.choosable(t, i),
    ensures
        c.choosable(t, i),
{
    let q = choose|q: Set<u128>| #[trigger] d.supports(q, t, i);
    assert forall|v: u128| #[trigger] q.contains(v) implies c.acked(t, v, i)
        || c.kept[v].0 <= t by {
        assert(c.nodes.contains_key(v));
        if d.acked(t, v, i) {
            let k = choose|k: int|
                k >= i && #[trigger] d.acks.contains(Ack { term: t, member: v, index: k });
            assert(c.acks.contains(Ack { term: t, member: v, index: k }));
        }
    }
    assert(c.supports(q, t, i));
}

/// Whether a member may move on to another state that has the same log: its term
/// goes back no further than to what it kept, and then it follows; a vote that
/// was kept stands, what it counts was cast or said, and its commit point stays
/// or is forgotten.
pub open spec fn moves(c: Cluster, m: u128, next: NodeView) -> bool {
    let node = c.nodes[m];
    let t = next.current_term;
    &&& c.nodes.contains_key(m)
    &&& next.id == m
    &&& next.peers == node.peers
    &&& next.log == node.log
    &&& t >= c.kept[m].0
    &&& t >= node.current_term || (next.role == Role::Follower && next.commit_index == 0)
    &&& forall|b: Ballot| #[trigger]
        c.ballots.contains(b) && b.voter == m && b.term == t ==> next.voted_for == Some(b.candidate)
    &&& next.commit_index == node.commit_index || next.commit_index == 0
    &&& next.role != Role::Follower ==> forall|v: u128| #[trigger]
        next.votes.contains(v) && v != m ==> c.ballots.contains(
            Ballot { term: t, voter: v, candidate: m },
        )
    &&& next.role == Role::Candidate ==> t > node.current_term || node.role == Role::Candidate
    &&& next.role == Role::Leader ==> {
        &&& node.role == Role::Leader
        &&& t == node.current_term
        &&& forall|p: u128| #[trigger]
            next.match_index.contains_key(p) && next.peers.contains(p) && next.match_index[p] > 0
                ==> c.acks.contains(
                Ack { term: t, member: p, index: next.match_index[p] as int },
            )
    }
}

/// Whether a state claims to be kept only where it is, or is kept now.
pub open spec fn claims(c: Cluster, m: u128, next: NodeView, keep: bool) -> bool {
    next.kept && !keep ==> c.kept[m] == (next.current_term, next.voted_for)
}

proof fn lemma_move(c: Cluster, m: u128, next: NodeView, keep: bool)
    requires
        c.ordered(),
        moves(c, m, next),
        claims(c, m, next, keep),
    ensures
        c.moved(m, next, keep).ordered(),
{
    let d = c.moved(m, next, keep);
    let done = d.nodes[m];
    assert(moves(c, m, done));
    assert(d.nodes =~= c.nodes.insert(m, done));
    assert(d.nodes.dom() =~= c.nodes.dom());
    assert(d.composed());
    assert(d.ballots_in_order());
    assert(d.counts_in_order()) by {
        assert forall|n: u128, v: u128|
            #![trigger d.nodes[n].votes.contains(v)]
            d.nodes.contains_key(n) && d.nodes[n].role != Role::Follower
                && d.nodes[n].votes.contains(v) && v != n implies d.ballots.contains(
            Ballot { term: d.nodes[n].current_term, voter: v, candidate: n },
        ) by {
            if n != m {
                assert(c.nodes[n].votes.contains(v));
            }
        }
    }
    assert(d.leaders_in_order()) by {
        assert forall|t: u64, v: u128|
            #![trigger d.backers[t].contains(v)]
            d.histories.contains_key(t) && d.backers[t].contains(v) implies d.ballots.contains(
            Ballot { term: t, voter: v, candidate: d.leaders[t] },
        ) by {
            assert(c.backers[t].contains(v));
        }
        assert forall|t: u64| #[trigger] d.histories.contains_key(t) implies d.is_quorum(
            d.backers[t],
        ) by {
            assert(c.is_quorum(c.backers[t]));
        }
    }
    lemma_move_logs(c, d, m);
    lemma_move_acks(c, d, m);
    lemma_move_commits(c, d, m, done);
}

proof fn lemma_move_logs(c: Cluster, d: Cluster, m: u128)
    requires
        c.logs_in_order(),
        c.nodes.contains_key(m),
        d.nodes.dom() == c.nodes.dom(),
        d.histories == c.histories,
        d.runs == c.runs,
        forall|v: u128| #[trigger]
            c.nodes.contains_key(v) ==> c.log_of(v) == d.log_of(v) && c.kept[v].0 <= d.kept[v].0,
    ensures
        d.logs_in_order(),
{
    assert forall|n: u128| #[trigger] d.nodes.contains_key(n) implies d.canonical(
        d.log_of(n),
    ) by {
        assert(c.nodes.contains_key(n));
        assert(c.canonical(c.log_of(n)));
    }
    assert forall|t: u64| #[trigger] d.histories.contains_key(t) implies d.canonical(
        d.histories[t],
    ) by {
        assert(c.canonical(c.histories[t]));
    }
    assert forall|t: u64, k: u128| #[trigger] d.runs.contains_key((t, k)) implies d.canonical(
        d.runs[(t, k)],
    ) by {
        assert(c.canonical(c.runs[(t, k)]));
    }
    assert forall|n: u128, i: int|
        #![trigger d.log_of(n)[i]]
        d.nodes.contains_key(n) && 0 <= i < d.log_of(n).len() implies d.log_of(n)[i].term
        <= d.kept[n].0 by {
        assert(c.nodes.contains_key(n));
        assert(c.log_of(n)[i] == d.log_of(n)[i]);
    }
}

proof fn lemma_move_acks(c: Cluster, d: Cluster, m: u128)
    requires
        c.acks_in_order(),
        d.nodes.dom() == c.nodes.dom(),
        d.histories == c.histories,
        d.runs == c.runs,
        d.acks == c.acks,
        d.ballots == c.ballots,
        forall|v: u128| #[trigger]
            c.nodes.contains_key(v) ==> c.log_of(v) == d.log_of(v) && c.kept[v].0 <= d.kept[v].0,
    ensures
        d.acks_in_order(),
{
    assert forall|t: u64, i: int, v: u128| #[trigger]
        d.acked(t, v, i) && #[trigger] d.choosable(t, i) implies cluster::same_up_to(
        d.log_of(v),
        d.histories[t],
        i,
    ) by {
        lemma_choosable_shrinks(c, d, t, i);
        assert(c.acked(t, v, i));
        let k = choose|k: int|
            k >= i && #[trigger] c.acks.contains(Ack { term: t, member: v, index: k });
        assert(c.nodes.contains_key(v));
    }
    assert forall|t: u64, i: int, b: Ballot| #[trigger]
        d.choosable(t, i) && #[trigger] d.ballots.contains(b) && t < b.term && d.acked(
            t,
            b.voter,
            i,
        ) implies cluster::same_up_to(d.runs[(b.term, b.candidate)], d.histories[t], i) by {
        lemma_choosable_shrinks(c, d, t, i);
        assert(c.acked(t, b.voter, i));
    }
    assert forall|t: u64, i: int, later: u64| #[trigger]
        d.choosable(t, i) && #[trigger] d.histories.contains_key(later) && t
            < later implies cluster::same_up_to(d.histories[later], d.histories[t], i) by {
        lemma_choosable_shrinks(c, d, t, i);
    }
}

proof fn lemma_known_committed_same(
    c: Cluster,
    d: Cluster,
    entries: Seq<EntryView>,
    term: u64,
    later: u64,
    index: int,
)
    requires
        d.histories == c.histories,
        c.commits.subset_of(d.commits),
        term <= later,
        c.known_committed(entries, term, index),
    ensures
        d.known_committed(entries, later, index),
{
    if index != 0 {
        let (t, i) = choose|t: u64, i: int|
            t <= term && index <= i && #[trigger] c.commits.contains((t, i)) && cluster::same_up_to(
                entries,
                c.histories[t],
                index,
            );
        assert(d.commits.contains((t, i)));
    }
}

proof fn lemma_chosen_same(c: Cluster, d: Cluster, t: u64, i: int)
    requires
        d.nodes.dom() == c.nodes.dom(),
        d.histories == c.histories,
        c.acks.subset_of(d.acks),
        c.chosen(t, i),
    ensures
        d.chosen(t, i),
{
    let q = choose|q: Set<u128>| #[trigger]
        c.is_quorum(q) && (forall|v: u128| #[trigger] q.contains(v) ==> c.acked(t, v, i));
    assert(d.is_quorum(q));
    assert forall|v: u128| #[trigger] q.contains(v) implies d.acked(t, v, i) by {
        let k = choose|k: int|
            k >= i && #[trigger] c.acks.contains(Ack { term: t, member: v, index: k });
        assert(d.acks.contains(Ack { term: t, member: v, index: k }));
    }
}

proof fn lemma_move_commits(c: Cluster, d: Cluster, m: u128, next: NodeView)
    requires
        c.commits_in_order(),
        moves(c, m, next),
        d.nodes == c.nodes.insert(m, next),
        d.histories == c.histories,
        d.acks == c.acks,
        d.commits == c.commits,
    ensures
        d.commits_in_order(),
{
    assert(d.nodes.dom() =~= c.nodes.dom());
    assert forall|t: u64, i: int| #[trigger] d.commits.contains((t, i)) implies d.chosen(t, i) by {
        assert(c.commits.contains((t, i)));
        lemma_chosen_same(c, d, t, i);
    }
    assert forall|n: u128| #[trigger] d.nodes.contains_key(n) implies d.known_committed(
        d.log_of(n),
        d.nodes[n].current_term,
        d.nodes[n].commit_index as int,
    ) by {
        assert(c.nodes.contains_key(n));
        if d.nodes[n].commit_index != 0 {
            assert(c.nodes[n].current_term <= d.nodes[n].current_term);
            lemma_known_committed_same(
                c,
                d,
                c.log_of(n),
                c.nodes[n].current_term,
                d.nodes[n].current_term,
                c.nodes[n].commit_index as int,
            );
        }
    }
    assert forall|n: u128, p: u128|
        #![trigger d.nodes[n].match_index[p]]
        d.nodes.contains_key(n) && d.nodes[n].role == Role::Leader && d.nodes[n].peers.contains(p)
            && d.nodes[n].match_index.contains_key(p) && d.nodes[n].match_index[p]
            > 0 implies d.acks.contains(
        Ack {
            term: d.nodes[n].current_term,
            member: p,
            index: d.nodes[n].match_index[p] as int,
        },
    ) by {
        if n != m {
            assert(c.nodes[n].match_index[p] == d.nodes[n].match_index[p]);
        }
    }
}

// ------------------------------------------------------------------- voting

/// Recording the log that a member campaigns with keeps order.
proof fn lemma_add_run(c: Cluster, m: u128)
    requires
        c.ordered(),
        c.nodes.contains_key(m),
        !c.runs.contains_key((c.nodes[m].current_term, m)),
        forall|i: int|
            0 <= i < c.log_of(m).len() ==> (#[trigger] c.log_of(m)[i]).term
                < c.nodes[m].current_term,
        c.kept[m].0 == c.nodes[m].current_term,
    ensures
        (Cluster { runs: c.runs.insert((c.nodes[m].current_term, m), c.log_of(m)), ..c }).ordered(),
{
    let key = (c.nodes[m].current_term, m);
    let d = Cluster { runs: c.runs.insert(key, c.log_of(m)), ..c };
    assert(d.composed());
    assert(d.ballots_in_order());
    assert(d.counts_in_order()) by {
        assert forall|n: u128, v: u128|
            #![trigger d.nodes[n].votes.contains(v)]
            d.nodes.contains_key(n) && d.nodes[n].role != Role::Follower
                && d.nodes[n].votes.contains(v) && v != n implies d.ballots.contains(
            Ballot { term: d.nodes[n].current_term, voter: v, candidate: n },
        ) by {
            assert(c.nodes[n].votes.contains(v));
        }
    }
    assert(d.leaders_in_order()) by {
        assert forall|t: u64, v: u128|
            #![trigger d.backers[t].contains(v)]
            d.histories.contains_key(t) && d.backers[t].contains(v) implies d.ballots.contains(
            Ballot { term: t, voter: v, candidate: d.leaders[t] },
        ) by {
            assert(c.backers[t].contains(v));
        }
        assert forall|t: u64| #[trigger] d.histories.contains_key(t) implies d.is_quorum(
            d.backers[t],
        ) && (t, d.leaders[t]) != key by {
            assert(c.is_quorum(c.backers[t]));
            assert(c.runs.contains_key((t, c.leaders[t])));
        }
    }
    assert(d.logs_in_order()) by {
        assert forall|n: u128| #[trigger] d.nodes.contains_key(n) implies d.canonical(
            d.log_of(n),
        ) by {
            assert(c.canonical(c.log_of(n)));
        }
        assert forall|t: u64| #[trigger] d.histories.contains_key(t) implies d.canonical(
            d.histories[t],
        ) by {
            assert(c.canonical(c.histories[t]));
        }
        assert forall|t: u64, k: u128| #[trigger] d.runs.contains_key((t, k)) implies d.canonical(
            d.runs[(t, k)],
        ) by {
            if (t, k) == key {
                assert(c.canonical(c.log_of(m)));
            } else {
                assert(c.runs.contains_key((t, k)));
                assert(c.canonical(c.runs[(t, k)]));
            }
        }
        assert forall|n: u128, i: int|
            #![trigger d.log_of(n)[i]]
            d.nodes.contains_key(n) && 0 <= i < d.log_of(n).len() implies d.log_of(n)[i].term
            <= d.kept[n].0 by {
            assert(c.log_of(n)[i] == d.log_of(n)[i]);
        }
        assert forall|t: u64, k: u128, i: int|
            #![trigger d.runs[(t, k)][i]]
            d.runs.contains_key((t, k)) && 0 <= i < d.runs[(t, k)].len() implies d.runs[(
            t,
            k,
        )][i].term < t by {
            if (t, k) == key {
                assert(c.log_of(m)[i].term < t);
            } else {
                assert(c.runs.contains_key((t, k)));
                assert(c.runs[(t, k)][i].term < t);
            }
        }
    }
    assert(d.acks_in_order()) by {
        assert forall|t: u64, i: int, v: u128| #[trigger]
            d.acked(t, v, i) && #[trigger] d.choosable(t, i) implies cluster::same_up_to(
            d.log_of(v),
            d.histories[t],
            i,
        ) by {
            lemma_choosable_shrinks(c, d, t, i);
            assert(c.acked(t, v, i));
        }
        assert forall|t: u64, i: int, b: Ballot| #[trigger]
            d.choosable(t, i) && #[trigger] d.ballots.contains(b) && t < b.term && d.acked(
                t,
                b.voter,
                i,
            ) implies cluster::same_up_to(d.runs[(b.term, b.candidate)], d.histories[t], i) by {
            lemma_choosable_shrinks(c, d, t, i);
            assert(c.acked(t, b.voter, i));
            assert(c.ballots.contains(b));
            assert(c.runs.contains_key((b.term, b.candidate)));
        }
        assert forall|t: u64, i: int, later: u64| #[trigger]
            d.choosable(t, i) && #[trigger] d.histories.contains_key(later) && t
                < later implies cluster::same_up_to(d.histories[later], d.histories[t], i) by {
            lemma_choosable_shrinks(c, d, t, i);
        }
    }
    lemma_standing(c, m);
    assert(c.nodes.insert(m, c.nodes[m]) =~= c.nodes);
    lemma_move_commits(c, d, m, c.nodes[m]);
}

/// Recording a vote that a member has cast and kept keeps order, provided that
/// the candidate's log has what may be committed and the voter said it holds.
proof fn lemma_add_ballot(c: Cluster, m: u128, candidate: u128)
    requires
        c.ordered(),
        c.nodes.contains_key(m),
        c.nodes[m].voted_for == Some(candidate),
        c.kept[m] == (c.nodes[m].current_term, Some(candidate)),
        c.runs.contains_key((c.nodes[m].current_term, candidate)),
        candidate == m || c.ballots.contains(
            Ballot { term: c.nodes[m].current_term, voter: candidate, candidate },
        ),
        candidate == m && c.nodes[m].role == Role::Candidate ==> c.runs[(
            c.nodes[m].current_term,
            m,
        )] == c.log_of(m),
        forall|t: u64, i: int| #[trigger]
            c.choosable(t, i) && t < c.nodes[m].current_term && c.acked(t, m, i)
                ==> cluster::same_up_to(
                c.runs[(c.nodes[m].current_term, candidate)],
                c.histories[t],
                i,
            ),
    ensures
        (Cluster {
            ballots: c.ballots.insert(
                Ballot { term: c.nodes[m].current_term, voter: m, candidate },
            ),
            ..c
        }).ordered(),
{
    let cast = Ballot { term: c.nodes[m].current_term, voter: m, candidate };
    let d = Cluster { ballots: c.ballots.insert(cast), ..c };
    assert(d.composed());
    assert(d.ballots_in_order());
    assert(d.counts_in_order()) by {
        assert forall|n: u128, v: u128|
            #![trigger d.nodes[n].votes.contains(v)]
            d.nodes.contains_key(n) && d.nodes[n].role != Role::Follower
                && d.nodes[n].votes.contains(v) && v != n implies d.ballots.contains(
            Ballot { term: d.nodes[n].current_term, voter: v, candidate: n },
        ) by {
            assert(c.nodes[n].votes.contains(v));
        }
    }
    assert(d.leaders_in_order()) by {
        assert forall|t: u64, v: u128|
            #![trigger d.backers[t].contains(v)]
            d.histories.contains_key(t) && d.backers[t].contains(v) implies d.ballots.contains(
            Ballot { term: t, voter: v, candidate: d.leaders[t] },
        ) by {
            assert(c.backers[t].contains(v));
        }
        assert forall|t: u64| #[trigger] d.histories.contains_key(t) implies d.is_quorum(
            d.backers[t],
        ) by {
            assert(c.is_quorum(c.backers[t]));
        }
    }
    lemma_move_logs(c, d, m);
    assert(d.acks_in_order()) by {
        assert forall|t: u64, i: int, v: u128| #[trigger]
            d.acked(t, v, i) && #[trigger] d.choosable(t, i) implies cluster::same_up_to(
            d.log_of(v),
            d.histories[t],
            i,
        ) by {
            lemma_choosable_shrinks(c, d, t, i);
            assert(c.acked(t, v, i));
        }
        assert forall|t: u64, i: int, b: Ballot| #[trigger]
            d.choosable(t, i) && #[trigger] d.ballots.contains(b) && t < b.term && d.acked(
                t,
                b.voter,
                i,
            ) implies cluster::same_up_to(d.runs[(b.term, b.candidate)], d.histories[t], i) by {
            lemma_choosable_shrinks(c, d, t, i);
            assert(c.acked(t, b.voter, i));
            if b != cast {
                assert(c.ballots.contains(b));
            }
        }
        assert forall|t: u64, i: int, later: u64| #[trigger]
            d.choosable(t, i) && #[trigger] d.histories.contains_key(later) && t
                < later implies cluster::same_up_to(d.histories[later], d.histories[t], i) by {
            lemma_choosable_shrinks(c, d, t, i);
        }
    }
    lemma_standing(c, m);
    assert(c.nodes.insert(m, c.nodes[m]) =~= c.nodes);
    lemma_move_commits(c, d, m, c.nodes[m]);
}

/// Standing still is a move.
proof fn lemma_standing(c: Cluster, m: u128)
    requires
        c.ordered(),
        c.nodes.contains_key(m),
    ensures
        moves(c, m, c.nodes[m]),
        claims(c, m, c.nodes[m], false),
{
    let node = c.nodes[m];
    assert forall|v: u128| #[trigger] node.votes.contains(v) && v != m && node.role
        != Role::Follower implies c.ballots.contains(
        Ballot { term: node.current_term, voter: v, candidate: m },
    ) by {
        assert(c.nodes[m].votes.contains(v));
    }
    assert forall|p: u128| #[trigger] node.match_index.contains_key(p) && node.role == Role::Leader
        && node.peers.contains(p) && node.match_index[p] > 0 implies c.acks.contains(
        Ack { term: node.current_term, member: p, index: node.match_index[p] as int },
    ) by {
        assert(c.nodes[m].match_index[p] > 0);
    }
}

/// A candidate whose log is no less current than a voter's has everything that
/// may be committed and that the voter said it holds.
proof fn lemma_current_log_has_what_may_be_committed(
    c: Cluster,
    m: u128,
    run: Seq<EntryView>,
    t: u64,
    i: int,
)
    requires
        c.ordered(),
        c.nodes.contains_key(m),
        c.canonical(run),
        c.choosable(t, i),
        c.acked(t, m, i),
        c.nodes[m].log_current(cluster::last_term(run), run.len() as u64),
    ensures
        cluster::same_up_to(run, c.histories[t], i),
{
    let own = c.log_of(m);
    let history = c.histories[t];
    assert(cluster::same_up_to(own, history, i));
    assert(c.canonical(own));
    lemma_same_shorter(own, history, i, i);
    assert(own[i - 1] == history[i - 1]);
    let mine = own.last().term;
    // All of the voter's log is the log of the leader that its last entry is of.
    assert(own[own.len() - 1].index == own.len());
    assert(cluster::same_up_to(own, c.histories[mine], own.len() as int));
    lemma_same_shorter(own, c.histories[mine], own.len() as int, i);
    assert(c.histories[mine][i - 1] == own[i - 1]);
    assert(c.histories[mine][i - 1].term <= mine);
    assert(c.nodes[m].log.last_index() == own.len());
    assert(run.len() > 0);
    let theirs = run.last().term;
    assert(run[run.len() - 1].index == run.len());
    assert(cluster::same_up_to(run, c.histories[theirs], run.len() as int));
    if theirs == mine {
        lemma_same_shorter(run, c.histories[mine], run.len() as int, i);
        assert forall|k: int| 0 <= k < i implies #[trigger] run[k] == history[k] by {
            assert(run[k] == c.histories[mine][k]);
            assert(own[k] == c.histories[mine][k]);
            assert(own[k] == history[k]);
        }
        lemma_same_from_elements(run, history, i);
    } else {
        let later = c.histories[theirs];
        assert(c.histories.contains_key(theirs));
        assert(t < theirs);
        assert(cluster::same_up_to(later, history, i));
        lemma_same_shorter(later, history, i, i);
        lemma_same_shorter(run, later, run.len() as int, run.len() as int);
        let end = run.len() - 1;
        assert(run[end] == later[end]);
        if end < i {
            assert(later[end] == history[end]);
            assert(history[end].term <= t);
        }
        assert forall|k: int| 0 <= k < i implies #[trigger] run[k] == history[k] by {
            assert(run[k] == later[k]);
            assert(later[k] == history[k]);
        }
        lemma_same_from_elements(run, history, i);
    }
}

proof fn lemma_campaign(c: Cluster, m: u128, election_timeout: u64, now: u64, kept: bool)
    requires
        c.ordered(),
        c.possible(m, Step::Campaign { election_timeout, now, kept }),
    ensures
        c.after(m, Step::Campaign { election_timeout, now, kept }).ordered(),
{
    let node = c.nodes[m];
    let next = node.campaign(election_timeout, now);
    let after = c.after(m, Step::Campaign { election_timeout, now, kept });
    assert(moves(c, m, next));
    lemma_move(c, m, next, kept);
    let d = c.moved(m, next, kept);
    if kept {
        assert(d.log_of(m) == c.log_of(m));
        assert forall|i: int| 0 <= i < d.log_of(m).len() implies (#[trigger] d.log_of(m)[i]).term
            < d.nodes[m].current_term by {
            assert(c.log_of(m)[i].term <= c.kept[m].0);
        }
        lemma_add_run(d, m);
        let e = Cluster { runs: d.runs.insert((next.current_term, m), d.log_of(m)), ..d };
        assert forall|t: u64, i: int| #[trigger] e.choosable(t, i) && t < e.nodes[m].current_term
            && e.acked(t, m, i) implies cluster::same_up_to(
            e.runs[(next.current_term, m)],
            e.histories[t],
            i,
        ) by {
            assert(e.log_of(m) == d.log_of(m));
        }
        lemma_add_ballot(e, m, m);
        assert(after.runs =~= e.runs);
        assert(after =~= Cluster {
            ballots: e.ballots.insert(
                Ballot { term: next.current_term, voter: m, candidate: m },
            ),
            ..e
        });
    } else {
        assert(after == d);
    }
}

proof fn lemma_consider(c: Cluster, m: u128, ask: VoteRequestView, now: u64, kept: bool)
    requires
        c.ordered(),
        c.possible(m, Step::Consider { ask, now, kept }),
    ensures
        c.after(m, Step::Consider { ask, now, kept }).ordered(),
{
    let node = c.nodes[m];
    let next = node.consider(ask, now);
    lemma_standing(c, m);
    assert(moves(c, m, next));
    match node.grants(ask, now) {
        Some(candidate) => {
            lemma_move(c, m, next, kept);
            let d = c.moved(m, next, kept);
            if kept {
                let run = c.runs[(ask.term, candidate)];
                assert(d.canonical(run)) by {
                    assert(d.runs.contains_key((ask.term, candidate)));
                }
                assert(d.nodes[m].log == node.log);
                assert forall|t: u64, i: int| #[trigger]
                    d.choosable(t, i) && t < d.nodes[m].current_term && d.acked(
                        t,
                        m,
                        i,
                    ) implies cluster::same_up_to(
                    d.runs[(ask.term, candidate)],
                    d.histories[t],
                    i,
                ) by {
                    lemma_current_log_has_what_may_be_committed(d, m, run, t, i);
                }
                if candidate == m && d.nodes[m].role == Role::Candidate {
                    assert(c.ballots.contains(
                        Ballot { term: ask.term, voter: m, candidate: m },
                    ));
                    assert(ask.term <= node.current_term);
                }
                lemma_add_ballot(d, m, candidate);
            }
        },
        None => {
            lemma_move(c, m, next, false);
        },
    }
}

// ------------------------------------------------------------------- leading

/// A log made of leaders' logs stays one when more leaders' logs come to be
/// known or a known one grows.
proof fn lemma_canonical_grows(c: Cluster, d: Cluster, entries: Seq<EntryView>)
    requires
        c.canonical(entries),
        forall|t: u64| #[trigger]
            c.histories.contains_key(t) ==> d.histories.contains_key(t) && cluster::same_up_to(
                d.histories[t],
                c.histories[t],
                c.histories[t].len() as int,
            ),
    ensures
        d.canonical(entries),
{
    assert forall|i: int| 0 <= i < entries.len() implies {
        let t = (#[trigger] entries[i]).term;
        &&& entries[i].index == i + 1
        &&& d.histories.contains_key(t)
        &&& cluster::same_up_to(entries, d.histories[t], i + 1)
    } by {
        let t = entries[i].term;
        assert(c.histories.contains_key(t));
        lemma_same_shorter(d.histories[t], c.histories[t], c.histories[t].len() as int, i + 1);
    }
}

/// Peers start with nothing known of them.
proof fn lemma_with_all(m: Map<u128, u64>, peers: Seq<u128>, value: u64, p: u128)
    requires
        peers.contains(p),
    ensures
        protocol::with_all(m, peers, value).contains_key(p),
        protocol::with_all(m, peers, value)[p] == value,
    decreases peers.len(),
{
    if peers.last() != p {
        let i = peers.index_of(p);
        assert(peers.drop_last()[i] == p);
        lemma_with_all(m, peers.drop_last(), value, p);
    }
}

/// Whether a candidate has the votes of a majority, its own among them.
pub open spec fn elected(c: Cluster, m: u128) -> bool {
    let node = c.nodes[m];
    &&& c.nodes.contains_key(m)
    &&& node.role == Role::Candidate
    &&& c.is_quorum(node.votes)
    &&& c.ballots.contains(Ballot { term: node.current_term, voter: m, candidate: m })
}

/// A term that is being won has no leader yet.
proof fn lemma_no_leader_yet(c: Cluster, m: u128)
    requires
        c.ordered(),
        elected(c, m),
    ensures
        !c.histories.contains_key(c.nodes[m].current_term),
{
    let t = c.nodes[m].current_term;
    if c.histories.contains_key(t) {
        lemma_not_empty(c, m);
        let v = lemma_quorums_meet(c, c.nodes[m].votes, c.backers[t]);
        assert(c.nodes[m].votes.contains(v));
        assert(c.backers[t].contains(v));
        assert(c.ballots.contains(Ballot { term: t, voter: v, candidate: m }));
        assert(c.ballots.contains(Ballot { term: t, voter: v, candidate: c.leaders[t] }));
    }
}

proof fn lemma_lead(c: Cluster, m: u128, now: u64)
    requires
        c.ordered(),
        elected(c, m),
    ensures
        c.with_leader(m, now).ordered(),
{
    let node = c.nodes[m];
    let next = node.lead(now);
    let t0 = node.current_term;
    let d = c.with_leader(m, now);
    lemma_no_leader_yet(c, m);
    lemma_not_empty(c, m);
    assert(d.nodes.dom() =~= c.nodes.dom());
    assert(c.runs[(t0, m)] == c.log_of(m));
    assert(d.log_of(m) == c.log_of(m));
    assert(d.composed());
    assert(d.ballots_in_order());
    assert(d.counts_in_order()) by {
        assert forall|n: u128, v: u128|
            #![trigger d.nodes[n].votes.contains(v)]
            d.nodes.contains_key(n) && d.nodes[n].role != Role::Follower
                && d.nodes[n].votes.contains(v) && v != n implies d.ballots.contains(
            Ballot { term: d.nodes[n].current_term, voter: v, candidate: n },
        ) by {
            assert(c.nodes[n].votes.contains(v));
        }
    }
    assert(d.leaders_in_order()) by {
        assert forall|t: u64, v: u128|
            #![trigger d.backers[t].contains(v)]
            d.histories.contains_key(t) && d.backers[t].contains(v) implies d.ballots.contains(
            Ballot { term: t, voter: v, candidate: d.leaders[t] },
        ) by {
            if t == t0 {
                assert(c.nodes[m].votes.contains(v));
            } else {
                assert(c.histories.contains_key(t));
                assert(c.backers[t].contains(v));
            }
        }
        assert forall|t: u64| #[trigger] d.histories.contains_key(t) implies {
            let n = d.leaders[t];
            &&& d.nodes.contains_key(n)
            &&& d.is_quorum(d.backers[t])
            &&& d.runs.contains_key((t, n))
            &&& d.nodes[n].current_term == t ==> d.nodes[n].role != Role::Candidate
            &&& t <= d.kept[n].0
            &&& cluster::same_up_to(
                d.histories[t],
                d.runs[(t, n)],
                d.runs[(t, n)].len() as int,
            )
        } by {
            if t != t0 {
                assert(c.histories.contains_key(t));
                assert(c.is_quorum(c.backers[t]));
            }
        }
    }
    lemma_lead_logs(c, d, m, now);
    lemma_lead_acks(c, d, m, now);
    lemma_lead_commits(c, d, m, now);
}

proof fn lemma_lead_logs(c: Cluster, d: Cluster, m: u128, now: u64)
    requires
        c.ordered(),
        elected(c, m),
        d == c.with_leader(m, now),
        !c.histories.contains_key(c.nodes[m].current_term),
        c.runs[(c.nodes[m].current_term, m)] == c.log_of(m),
    ensures
        d.logs_in_order(),
{
    let t0 = c.nodes[m].current_term;
    assert forall|t: u64| #[trigger] c.histories.contains_key(t) implies d.histories.contains_key(t)
        && cluster::same_up_to(
        d.histories[t],
        c.histories[t],
        c.histories[t].len() as int,
    ) by {}
    assert forall|n: u128| #[trigger] d.nodes.contains_key(n) implies d.canonical(
        d.log_of(n),
    ) by {
        assert(c.nodes.contains_key(n));
        assert(c.canonical(c.log_of(n)));
        lemma_canonical_grows(c, d, c.log_of(n));
    }
    assert forall|t: u64| #[trigger] d.histories.contains_key(t) implies d.canonical(
        d.histories[t],
    ) by {
        if t == t0 {
            assert(c.canonical(c.log_of(m)));
        } else {
            assert(c.histories.contains_key(t));
            assert(c.canonical(c.histories[t]));
        }
        lemma_canonical_grows(c, d, d.histories[t]);
    }
    assert forall|t: u64, k: u128| #[trigger] d.runs.contains_key((t, k)) implies d.canonical(
        d.runs[(t, k)],
    ) by {
        assert(c.runs.contains_key((t, k)));
        lemma_canonical_grows(c, d, c.runs[(t, k)]);
    }
    assert forall|n: u128, i: int|
        #![trigger d.log_of(n)[i]]
        d.nodes.contains_key(n) && 0 <= i < d.log_of(n).len() implies d.log_of(n)[i].term
        <= d.kept[n].0 by {
        assert(c.nodes.contains_key(n));
        assert(c.log_of(n)[i] == d.log_of(n)[i]);
    }
    assert forall|t: u64, i: int|
        #![trigger d.histories[t][i]]
        d.histories.contains_key(t) && 0 <= i < d.histories[t].len() implies d.histories[t][i].term
        <= t by {
        if t == t0 {
            assert(c.runs.contains_key((t0, m)));
            assert(c.runs[(t0, m)][i].term < t0);
        } else {
            assert(c.histories.contains_key(t));
            assert(c.histories[t][i].term <= t);
        }
    }
    assert forall|t: u64, k: u128, i: int|
        #![trigger d.runs[(t, k)][i]]
        d.runs.contains_key((t, k)) && 0 <= i < d.runs[(t, k)].len() implies d.runs[(t, k)][i].term
        < t by {
        assert(c.runs[(t, k)][i].term < t);
    }
}

/// Nothing of its own term is in a leader's log when it begins to lead.
proof fn lemma_lead_has_no_own_entry(c: Cluster, d: Cluster, m: u128, now: u64, i: int)
    requires
        c.ordered(),
        elected(c, m),
        d == c.with_leader(m, now),
        c.runs[(c.nodes[m].current_term, m)] == c.log_of(m),
    ensures
        !d.own_entry(c.nodes[m].current_term, i),
{
    let t0 = c.nodes[m].current_term;
    if d.own_entry(t0, i) {
        assert(c.runs.contains_key((t0, m)));
        assert(c.runs[(t0, m)][i - 1].term < t0);
    }
}

/// What may be committed in another term may be so as before.
proof fn lemma_lead_choosable(c: Cluster, d: Cluster, m: u128, now: u64, t: u64, i: int)
    requires
        c.ordered(),
        elected(c, m),
        d == c.with_leader(m, now),
        d.choosable(t, i),
        t != c.nodes[m].current_term,
    ensures
        c.choosable(t, i),
{
    assert(d.nodes.dom() =~= c.nodes.dom());
    let q = choose|q: Set<u128>| #[trigger] d.supports(q, t, i);
    assert(c.is_quorum(q));
    assert forall|v: u128| #[trigger] q.contains(v) implies c.acked(t, v, i)
        || c.kept[v].0 <= t by {
        if d.acked(t, v, i) {
            let k = choose|k: int|
                k >= i && #[trigger] d.acks.contains(Ack { term: t, member: v, index: k });
            assert(c.acks.contains(Ack { term: t, member: v, index: k }));
        }
    }
    assert(c.supports(q, t, i));
}

proof fn lemma_lead_acks(c: Cluster, d: Cluster, m: u128, now: u64)
    requires
        c.ordered(),
        elected(c, m),
        d == c.with_leader(m, now),
        !c.histories.contains_key(c.nodes[m].current_term),
        c.runs[(c.nodes[m].current_term, m)] == c.log_of(m),
    ensures
        d.acks_in_order(),
{
    let t0 = c.nodes[m].current_term;
    lemma_not_empty(c, m);
    assert forall|t: u64, i: int, v: u128| #[trigger]
        d.acked(t, v, i) && #[trigger] d.choosable(t, i) implies cluster::same_up_to(
        d.log_of(v),
        d.histories[t],
        i,
    ) by {
        if t == t0 {
            lemma_lead_has_no_own_entry(c, d, m, now, i);
        } else {
            lemma_lead_choosable(c, d, m, now, t, i);
            let k = choose|k: int|
                k >= i && #[trigger] d.acks.contains(Ack { term: t, member: v, index: k });
            assert(c.acks.contains(Ack { term: t, member: v, index: k }));
            assert(c.acked(t, v, i));
        }
    }
    assert forall|t: u64, i: int, b: Ballot| #[trigger]
        d.choosable(t, i) && #[trigger] d.ballots.contains(b) && t < b.term && d.acked(
            t,
            b.voter,
            i,
        ) implies cluster::same_up_to(d.runs[(b.term, b.candidate)], d.histories[t], i) by {
        if t == t0 {
            lemma_lead_has_no_own_entry(c, d, m, now, i);
        } else {
            lemma_lead_choosable(c, d, m, now, t, i);
            let k = choose|k: int|
                k >= i && #[trigger] d.acks.contains(Ack { term: t, member: b.voter, index: k });
            assert(c.acks.contains(Ack { term: t, member: b.voter, index: k }));
            assert(c.acked(t, b.voter, i));
        }
    }
    assert forall|t: u64, i: int, later: u64| #[trigger]
        d.choosable(t, i) && #[trigger] d.histories.contains_key(later) && t
            < later implies cluster::same_up_to(d.histories[later], d.histories[t], i) by {
        if t == t0 {
            lemma_lead_has_no_own_entry(c, d, m, now, i);
        } else {
            lemma_lead_choosable(c, d, m, now, t, i);
            if later == t0 {
                // One of those who may commit it has voted for the new leader,
                // so it holds the entry, and the new leader has it.
                let q = choose|q: Set<u128>| #[trigger] c.supports(q, t, i);
                let v = lemma_quorums_meet(c, q, c.nodes[m].votes);
                assert(c.nodes[m].votes.contains(v));
                let b = Ballot { term: t0, voter: v, candidate: m };
                assert(c.ballots.contains(b));
                assert(c.acked(t, v, i));
            } else {
                assert(c.histories.contains_key(later));
            }
        }
    }
}

proof fn lemma_lead_commits(c: Cluster, d: Cluster, m: u128, now: u64)
    requires
        c.ordered(),
        elected(c, m),
        d == c.with_leader(m, now),
        !c.histories.contains_key(c.nodes[m].current_term),
    ensures
        d.commits_in_order(),
{
    let t0 = c.nodes[m].current_term;
    assert(d.nodes.dom() =~= c.nodes.dom());
    assert forall|t: u64, i: int| #[trigger] d.commits.contains((t, i)) implies d.chosen(t, i) by {
        assert(c.chosen(t, i));
        let q = choose|q: Set<u128>| #[trigger]
            c.is_quorum(q) && (forall|v: u128| #[trigger] q.contains(v) ==> c.acked(t, v, i));
        assert(d.is_quorum(q));
        assert forall|v: u128| #[trigger] q.contains(v) implies d.acked(t, v, i) by {
            let k = choose|k: int|
                k >= i && #[trigger] c.acks.contains(Ack { term: t, member: v, index: k });
            assert(d.acks.contains(Ack { term: t, member: v, index: k }));
        }
    }
    assert forall|n: u128| #[trigger] d.nodes.contains_key(n) implies d.known_committed(
        d.log_of(n),
        d.nodes[n].current_term,
        d.nodes[n].commit_index as int,
    ) by {
        assert(c.nodes.contains_key(n));
        let index = c.nodes[n].commit_index as int;
        if index != 0 {
            let (t, i) = choose|t: u64, i: int|
                t <= c.nodes[n].current_term && index <= i && #[trigger] c.commits.contains((t, i))
                    && cluster::same_up_to(c.log_of(n), c.histories[t], index);
            assert(c.chosen(t, i));
            assert(d.commits.contains((t, i)));
        }
    }
    assert forall|n: u128, p: u128|
        #![trigger d.nodes[n].match_index[p]]
        d.nodes.contains_key(n) && d.nodes[n].role == Role::Leader && d.nodes[n].peers.contains(p)
            && d.nodes[n].match_index.contains_key(p) && d.nodes[n].match_index[p]
            > 0 implies d.acks.contains(
        Ack {
            term: d.nodes[n].current_term,
            member: p,
            index: d.nodes[n].match_index[p] as int,
        },
    ) by {
        if n == m {
            lemma_with_all(c.nodes[m].match_index, c.nodes[m].peers, 0, p);
        } else {
            assert(c.nodes[n].match_index[p] == d.nodes[n].match_index[p]);
        }
    }
}

/// A vote that is heard of counts, and where it completes a majority the
/// candidate is elected.
proof fn lemma_heard(
    c: Cluster,
    m: u128,
    peer: u128,
    term: u64,
    answer: RequestVoteResponse,
    now: u64,
    opened: bool,
)
    requires
        c.ordered(),
        c.possible(m, Step::HearVote { peer, term, answer, now, opened }),
    ensures
        ({
            let d = c.with_node(m, c.nodes[m].hear_vote(peer, term, answer, now));
            &&& d.ordered()
            &&& c.nodes[m].wins(peer, term, answer) ==> elected(d, m)
        }),
{
    let node = c.nodes[m];
    let next = node.hear_vote(peer, term, answer, now);
    lemma_standing(c, m);
    assert(moves(c, m, next)) by {
        assert forall|v: u128| #[trigger]
            next.votes.contains(v) && v != m && next.role
                != Role::Follower implies c.ballots.contains(
            Ballot { term: next.current_term, voter: v, candidate: m },
        ) by {
            if v != peer {
                assert(node.votes.contains(v));
            }
        }
    }
    lemma_move(c, m, next, false);
    let d = c.with_node(m, next);
    if node.wins(peer, term, answer) {
        lemma_not_empty(c, m);
        assert(d.nodes.dom() =~= c.nodes.dom());
        assert(d.ballots.contains(Ballot { term, voter: peer, candidate: m }));
        assert(d.is_quorum(next.votes)) by {
            assert forall|v: u128| #[trigger]
                next.votes.contains(v) implies d.nodes.dom().contains(v) by {
                if v != m {
                    assert(d.nodes[m].votes.contains(v));
                }
            }
        }
    }
}

proof fn lemma_hear_vote(c: Cluster, m: u128, step: Step)
    requires
        c.ordered(),
        step is HearVote,
        c.possible(m, step),
    ensures
        c.after(m, step).ordered(),
{
    if let Step::HearVote { peer, term, answer, now, opened } = step {
        lemma_heard(c, m, peer, term, answer, now, opened);
        if c.nodes[m].wins(peer, term, answer) {
            let d = c.with_node(m, c.nodes[m].hear_vote(peer, term, answer, now));
            lemma_open(d, m, now, opened);
        }
    }
}

/// Leading keeps order, with the entry that opens the term written or not.
proof fn lemma_open(c: Cluster, m: u128, now: u64, opened: bool)
    requires
        c.ordered(),
        elected(c, m),
        c.log_of(m).len() < u64::MAX,
    ensures
        c.with_leader(m, now).ordered(),
        c.with_leader(m, now).can_append(m, c.nodes[m].opening()),
        c.with_opening(m, now, opened).ordered(),
{
    lemma_lead(c, m, now);
    let d = c.with_leader(m, now);
    let own = c.log_of(m);
    assert(c.canonical(own));
    assert(own.len() > 0 ==> own[own.len() - 1].index == own.len());
    if opened {
        lemma_append(d, m, c.nodes[m].opening());
    } else {
        lemma_standing(d, m);
        lemma_move(d, m, c.with_opening(m, now, false).nodes[m], false);
    }
}

// ----------------------------------------------------------------- appending

/// What may be committed after a leader appended may be so before, but for the
/// new entry.
proof fn lemma_append_choosable(c: Cluster, d: Cluster, m: u128, entry: EntryView, t: u64, i: int)
    requires
        c.ordered(),
        c.can_append(m, entry),
        d == c.with_entry(m, entry),
        d.choosable(t, i),
        t != c.nodes[m].current_term || i <= c.log_of(m).len(),
    ensures
        c.choosable(t, i),
        forall|v: u128| #[trigger] d.acked(t, v, i) ==> c.acked(t, v, i),
{
    assert(d.nodes.dom() =~= c.nodes.dom());
    let t0 = c.nodes[m].current_term;
    let len = c.log_of(m).len() as int;
    assert(c.nodes.contains_key(m) && c.nodes[m].role == Role::Leader);
    assert forall|v: u128| #[trigger] d.acked(t, v, i) implies c.acked(t, v, i) by {
        let k = choose|k: int|
            k >= i && #[trigger] d.acks.contains(Ack { term: t, member: v, index: k });
        if c.acks.contains(Ack { term: t, member: v, index: k }) {
        } else {
            assert(t == t0 && v == m);
            assert(c.acks.contains(Ack { term: t0, member: m, index: len }));
        }
    }
    let q = choose|q: Set<u128>| #[trigger] d.supports(q, t, i);
    assert(c.is_quorum(q));
    assert forall|v: u128| #[trigger] q.contains(v) implies c.acked(t, v, i)
        || c.kept[v].0 <= t by {
        if d.acked(t, v, i) {
        }
    }
    assert(c.supports(q, t, i));
    if t == t0 {
        assert(d.histories[t][i - 1] == c.histories[t][i - 1]);
    }
}

/// The new entry of a leader may be committed only while no later leader is
/// there, and nobody else has said that it holds it.
proof fn lemma_append_new(c: Cluster, d: Cluster, m: u128, entry: EntryView, v: u128)
    requires
        c.ordered(),
        c.can_append(m, entry),
        d == c.with_entry(m, entry),
        d.acked(c.nodes[m].current_term, v, c.log_of(m).len() as int + 1),
    ensures
        v == m,
{
    let t0 = c.nodes[m].current_term;
    let i = c.log_of(m).len() as int + 1;
    let k = choose|k: int|
        k >= i && #[trigger] d.acks.contains(Ack { term: t0, member: v, index: k });
    if c.acks.contains(Ack { term: t0, member: v, index: k }) {
        assert(c.histories[t0] == c.log_of(m));
    }
}

proof fn lemma_append_new_later(
    c: Cluster,
    d: Cluster,
    m: u128,
    entry: EntryView,
    later: u64,
)
    requires
        c.ordered(),
        c.can_append(m, entry),
        d == c.with_entry(m, entry),
        d.choosable(c.nodes[m].current_term, c.log_of(m).len() as int + 1),
        d.histories.contains_key(later),
    ensures
        later <= c.nodes[m].current_term,
{
    let t0 = c.nodes[m].current_term;
    let i = c.log_of(m).len() as int + 1;
    assert(d.nodes.dom() =~= c.nodes.dom());
    if later > t0 {
        lemma_not_empty(c, m);
        assert(c.histories.contains_key(later));
        let q = choose|q: Set<u128>| #[trigger] d.supports(q, t0, i);
        assert(c.is_quorum(q));
        let v = lemma_quorums_meet(c, q, c.backers[later]);
        assert(c.backers[later].contains(v));
        let b = Ballot { term: later, voter: v, candidate: c.leaders[later] };
        assert(c.ballots.contains(b));
        assert(q.contains(v));
        if d.acked(t0, v, i) {
            lemma_append_new(c, d, m, entry, v);
        }
    }
}

proof fn lemma_append(c: Cluster, m: u128, entry: EntryView)
    requires
        c.ordered(),
        c.can_append(m, entry),
    ensures
        c.with_entry(m, entry).ordered(),
{
    let d = c.with_entry(m, entry);
    let t0 = c.nodes[m].current_term;
    let old_log = c.log_of(m);
    let len = old_log.len() as int;
    assert(d.nodes.dom() =~= c.nodes.dom());
    assert(c.nodes.contains_key(m) && c.nodes[m].role == Role::Leader);
    assert(c.histories[t0] == old_log);
    assert(d.log_of(m) =~= old_log.push(entry));
    assert(d.histories[t0] =~= old_log.push(entry));
    assert forall|t: u64| #[trigger] c.histories.contains_key(t) implies d.histories.contains_key(t)
        && cluster::same_up_to(
        d.histories[t],
        c.histories[t],
        c.histories[t].len() as int,
    ) by {
        assert(d.histories[t].take(c.histories[t].len() as int) =~= c.histories[t]);
        assert(c.histories[t].take(c.histories[t].len() as int) =~= c.histories[t]);
    }
    assert(d.composed());
    assert(d.ballots_in_order());
    assert(d.counts_in_order()) by {
        assert forall|n: u128, v: u128|
            #![trigger d.nodes[n].votes.contains(v)]
            d.nodes.contains_key(n) && d.nodes[n].role != Role::Follower
                && d.nodes[n].votes.contains(v) && v != n implies d.ballots.contains(
            Ballot { term: d.nodes[n].current_term, voter: v, candidate: n },
        ) by {
            assert(c.nodes[n].votes.contains(v));
        }
    }
    assert(d.leaders_in_order()) by {
        assert forall|t: u64, v: u128|
            #![trigger d.backers[t].contains(v)]
            d.histories.contains_key(t) && d.backers[t].contains(v) implies d.ballots.contains(
            Ballot { term: t, voter: v, candidate: d.leaders[t] },
        ) by {
            assert(c.backers[t].contains(v));
        }
        assert forall|t: u64| #[trigger] d.histories.contains_key(t) implies d.is_quorum(
            d.backers[t],
        ) && cluster::same_up_to(
            d.histories[t],
            d.runs[(t, d.leaders[t])],
            d.runs[(t, d.leaders[t])].len() as int,
        ) by {
            assert(c.histories.contains_key(t));
            assert(c.is_quorum(c.backers[t]));
            let run = c.runs[(t, c.leaders[t])];
            let n = run.len() as int;
            lemma_same_shorter(d.histories[t], c.histories[t], c.histories[t].len() as int, n);
        }
        assert forall|n: u128| #[trigger]
            d.nodes.contains_key(n) && d.nodes[n].role == Role::Leader implies {
            let t = d.nodes[n].current_term;
            &&& d.histories.contains_key(t)
            &&& d.leaders[t] == n
            &&& d.histories[t] == d.log_of(n)
            &&& d.acks.contains(Ack { term: t, member: n, index: d.log_of(n).len() as int })
        } by {
            assert(c.nodes.contains_key(n));
        }
    }
    lemma_append_logs(c, d, m, entry);
    lemma_append_acks(c, d, m, entry);
    lemma_append_commits(c, d, m, entry);
}

proof fn lemma_append_logs(c: Cluster, d: Cluster, m: u128, entry: EntryView)
    requires
        c.ordered(),
        c.can_append(m, entry),
        d == c.with_entry(m, entry),
        forall|t: u64| #[trigger]
            c.histories.contains_key(t) ==> d.histories.contains_key(t) && cluster::same_up_to(
                d.histories[t],
                c.histories[t],
                c.histories[t].len() as int,
            ),
        d.log_of(m) == c.log_of(m).push(entry),
        d.histories[c.nodes[m].current_term] == c.log_of(m).push(entry),
    ensures
        d.logs_in_order(),
{
    let t0 = c.nodes[m].current_term;
    let old_log = c.log_of(m);
    let new_log = old_log.push(entry);
    assert(c.histories.contains_key(t0)) by {
        assert(c.nodes.contains_key(m) && c.nodes[m].role == Role::Leader);
    }
    assert(d.canonical(new_log)) by {
        assert(c.canonical(old_log));
        lemma_canonical_grows(c, d, old_log);
        assert forall|i: int| 0 <= i < new_log.len() implies {
            let t = (#[trigger] new_log[i]).term;
            &&& new_log[i].index == i + 1
            &&& d.histories.contains_key(t)
            &&& cluster::same_up_to(new_log, d.histories[t], i + 1)
        } by {
            if i < old_log.len() {
                assert(new_log[i] == old_log[i]);
                assert(new_log.take(i + 1) =~= old_log.take(i + 1));
            }
        }
    }
    assert forall|n: u128| #[trigger] d.nodes.contains_key(n) implies d.canonical(
        d.log_of(n),
    ) by {
        if n != m {
            assert(c.nodes.contains_key(n));
            assert(c.canonical(c.log_of(n)));
            lemma_canonical_grows(c, d, c.log_of(n));
        }
    }
    assert forall|t: u64| #[trigger] d.histories.contains_key(t) implies d.canonical(
        d.histories[t],
    ) by {
        if t != t0 {
            assert(c.histories.contains_key(t));
            assert(c.canonical(c.histories[t]));
            lemma_canonical_grows(c, d, c.histories[t]);
        }
    }
    assert forall|t: u64, k: u128| #[trigger] d.runs.contains_key((t, k)) implies d.canonical(
        d.runs[(t, k)],
    ) by {
        assert(c.runs.contains_key((t, k)));
        lemma_canonical_grows(c, d, c.runs[(t, k)]);
    }
    assert forall|n: u128, i: int|
        #![trigger d.log_of(n)[i]]
        d.nodes.contains_key(n) && 0 <= i < d.log_of(n).len() implies d.log_of(n)[i].term
        <= d.kept[n].0 by {
        if n != m || i < old_log.len() {
            assert(c.nodes.contains_key(n));
            assert(c.log_of(n)[i] == d.log_of(n)[i]);
        }
    }
    assert forall|t: u64, i: int|
        #![trigger d.histories[t][i]]
        d.histories.contains_key(t) && 0 <= i < d.histories[t].len() implies d.histories[t][i].term
        <= t by {
        if t != t0 || i < old_log.len() {
            assert(c.histories.contains_key(t));
            assert(c.histories[t0] == old_log);
            assert(c.histories[t][i].term <= t);
        }
    }
    assert forall|t: u64, k: u128, i: int|
        #![trigger d.runs[(t, k)][i]]
        d.runs.contains_key((t, k)) && 0 <= i < d.runs[(t, k)].len() implies d.runs[(t, k)][i].term
        < t by {
        assert(c.runs[(t, k)][i].term < t);
    }
}

proof fn lemma_append_acks(c: Cluster, d: Cluster, m: u128, entry: EntryView)
    requires
        c.ordered(),
        c.can_append(m, entry),
        d == c.with_entry(m, entry),
        forall|t: u64| #[trigger]
            c.histories.contains_key(t) ==> d.histories.contains_key(t) && cluster::same_up_to(
                d.histories[t],
                c.histories[t],
                c.histories[t].len() as int,
            ),
        d.log_of(m) == c.log_of(m).push(entry),
        d.histories[c.nodes[m].current_term] == c.log_of(m).push(entry),
    ensures
        d.acks_in_order(),
{
    let t0 = c.nodes[m].current_term;
    let len = c.log_of(m).len() as int;
    assert(c.histories.contains_key(t0) && c.histories[t0] == c.log_of(m)) by {
        assert(c.nodes.contains_key(m) && c.nodes[m].role == Role::Leader);
    }
    assert forall|a: Ack| #[trigger] d.acks.contains(a) implies {
        &&& d.histories.contains_key(a.term)
        &&& 0 <= a.index <= d.histories[a.term].len()
        &&& d.nodes.contains_key(a.member)
        &&& a.term <= d.kept[a.member].0
    } by {
        if c.acks.contains(a) {
            assert(c.histories.contains_key(a.term));
        }
    }
    assert forall|t: u64, i: int, v: u128| #[trigger]
        d.acked(t, v, i) && #[trigger] d.choosable(t, i) implies cluster::same_up_to(
        d.log_of(v),
        d.histories[t],
        i,
    ) by {
        if t == t0 && i > len {
            assert(d.own_entry(t, i));
            lemma_append_new(c, d, m, entry, v);
        } else {
            lemma_append_choosable(c, d, m, entry, t, i);
            assert(c.acked(t, v, i));
            assert(cluster::same_up_to(c.log_of(v), c.histories[t], i));
            lemma_same_shorter(d.histories[t], c.histories[t], c.histories[t].len() as int, i);
            if v == m {
                assert(d.log_of(m).take(i) =~= c.log_of(m).take(i));
            }
        }
    }
    assert forall|t: u64, i: int, b: Ballot| #[trigger]
        d.choosable(t, i) && #[trigger] d.ballots.contains(b) && t < b.term && d.acked(
            t,
            b.voter,
            i,
        ) implies cluster::same_up_to(d.runs[(b.term, b.candidate)], d.histories[t], i) by {
        if t == t0 && i > len {
            assert(d.own_entry(t, i));
            lemma_append_new(c, d, m, entry, b.voter);
            assert(c.ballots.contains(b));
        } else {
            lemma_append_choosable(c, d, m, entry, t, i);
            assert(c.acked(t, b.voter, i));
            assert(c.ballots.contains(b));
            assert(cluster::same_up_to(c.runs[(b.term, b.candidate)], c.histories[t], i));
            lemma_same_shorter(d.histories[t], c.histories[t], c.histories[t].len() as int, i);
        }
    }
    assert forall|t: u64, i: int, later: u64| #[trigger]
        d.choosable(t, i) && #[trigger] d.histories.contains_key(later) && t
            < later implies cluster::same_up_to(d.histories[later], d.histories[t], i) by {
        if t == t0 && i > len {
            assert(d.own_entry(t, i));
            lemma_append_new_later(c, d, m, entry, later);
        } else {
            lemma_append_choosable(c, d, m, entry, t, i);
            assert(c.histories.contains_key(later));
            assert(cluster::same_up_to(c.histories[later], c.histories[t], i));
            lemma_same_shorter(d.histories[t], c.histories[t], c.histories[t].len() as int, i);
            lemma_same_shorter(
                d.histories[later],
                c.histories[later],
                c.histories[later].len() as int,
                i,
            );
        }
    }
}

proof fn lemma_append_commits(c: Cluster, d: Cluster, m: u128, entry: EntryView)
    requires
        c.ordered(),
        c.can_append(m, entry),
        d == c.with_entry(m, entry),
        forall|t: u64| #[trigger]
            c.histories.contains_key(t) ==> d.histories.contains_key(t) && cluster::same_up_to(
                d.histories[t],
                c.histories[t],
                c.histories[t].len() as int,
            ),
        d.log_of(m) == c.log_of(m).push(entry),
    ensures
        d.commits_in_order(),
{
    assert(d.nodes.dom() =~= c.nodes.dom());
    assert forall|t: u64, i: int| #[trigger] d.commits.contains((t, i)) implies d.chosen(t, i) by {
        assert(c.chosen(t, i));
        lemma_same_shorter(
            d.histories[t],
            c.histories[t],
            c.histories[t].len() as int,
            i,
        );
        let q = choose|q: Set<u128>| #[trigger]
            c.is_quorum(q) && (forall|v: u128| #[trigger] q.contains(v) ==> c.acked(t, v, i));
        assert(d.is_quorum(q));
        assert forall|v: u128| #[trigger] q.contains(v) implies d.acked(t, v, i) by {
            let k = choose|k: int|
                k >= i && #[trigger] c.acks.contains(Ack { term: t, member: v, index: k });
            assert(d.acks.contains(Ack { term: t, member: v, index: k }));
        }
    }
    assert forall|n: u128| #[trigger] d.nodes.contains_key(n) implies d.known_committed(
        d.log_of(n),
        d.nodes[n].current_term,
        d.nodes[n].commit_index as int,
    ) by {
        assert(c.nodes.contains_key(n));
        let index = c.nodes[n].commit_index as int;
        if index != 0 {
            let (t, i) = choose|t: u64, i: int|
                t <= c.nodes[n].current_term && index <= i && #[trigger] c.commits.contains((t, i))
                    && cluster::same_up_to(c.log_of(n), c.histories[t], index);
            assert(c.chosen(t, i));
            assert(d.commits.contains((t, i)));
            lemma_same_shorter(
                d.histories[t],
                c.histories[t],
                c.histories[t].len() as int,
                index,
            );
            if n == m {
                assert(d.log_of(m).take(index) =~= c.log_of(m).take(index));
            }
        }
    }
    assert forall|n: u128, p: u128|
        #![trigger d.nodes[n].match_index[p]]
        d.nodes.contains_key(n) && d.nodes[n].role == Role::Leader && d.nodes[n].peers.contains(p)
            && d.nodes[n].match_index.contains_key(p) && d.nodes[n].match_index[p]
            > 0 implies d.acks.contains(
        Ack {
            term: d.nodes[n].current_term,
            member: p,
            index: d.nodes[n].match_index[p] as int,
        },
    ) by {
        assert(c.nodes[n].match_index[p] == d.nodes[n].match_index[p]);
    }
}

// ----------------------------------------------------------------- following

/// Whether a log stands for another after a leader's request: it is made of
/// leaders' logs, and agrees with the leader's as far as the other did.
pub open spec fn stands_for(
    c: Cluster,
    before: Seq<EntryView>,
    after: Seq<EntryView>,
    term: u64,
) -> bool {
    &&& c.canonical(after)
    &&& forall|k: int| 0 <= k < after.len() ==> (#[trigger] after[k]).term <= term
    &&& forall|p: int| #[trigger]
        cluster::same_up_to(before, c.histories[term], p) ==> cluster::same_up_to(
            after,
            c.histories[term],
            p,
        )
}

/// The first part of a log made of leaders' logs is one too.
proof fn lemma_canonical_part(c: Cluster, entries: Seq<EntryView>, n: int)
    requires
        c.canonical(entries),
        0 <= n <= entries.len(),
    ensures
        c.canonical(entries.take(n)),
{
    let part = entries.take(n);
    assert forall|i: int| 0 <= i < part.len() implies {
        let t = (#[trigger] part[i]).term;
        &&& part[i].index == i + 1
        &&& c.histories.contains_key(t)
        &&& cluster::same_up_to(part, c.histories[t], i + 1)
    } by {
        assert(part[i] == entries[i]);
        assert(part.take(i + 1) =~= entries.take(i + 1));
    }
}

/// Where two logs made of leaders' logs have entries of the same term, they are
/// the same up to there.
proof fn lemma_same_term_same_log(c: Cluster, a: Seq<EntryView>, b: Seq<EntryView>, i: int)
    requires
        c.canonical(a),
        c.canonical(b),
        0 <= i < a.len(),
        i < b.len(),
        a[i].term == b[i].term,
    ensures
        cluster::same_up_to(a, b, i + 1),
{
    let history = c.histories[a[i].term];
    assert(cluster::same_up_to(a, history, i + 1));
    assert(cluster::same_up_to(b, history, i + 1));
}

proof fn lemma_request_stands(c: Cluster, log: LogView, term: u64, prev: int, n: int)
    requires
        c.logs_in_order(),
        c.histories.contains_key(term),
        c.canonical(log.entries),
        forall|k: int| 0 <= k < log.entries.len() ==> (#[trigger] log.entries[k]).term <= term,
        0 <= prev,
        0 <= n,
        prev + n <= c.histories[term].len(),
        log.term_at(prev as u64) == Some(cluster::term_of(c.histories[term], prev)),
    ensures
        ({
            let entries = c.histories[term].subrange(prev, prev + n);
            &&& stands_for(c, log.entries, log.cut_for(entries).entries, term)
            &&& stands_for(c, log.entries, log.reconciled(entries).entries, term)
            &&& if cluster::same_up_to(log.entries, c.histories[term], prev + n) {
                &&& log.fresh(entries).len() == 0
                &&& log.cut_for(entries).entries == log.entries
                &&& log.reconciled(entries).entries == log.entries
            } else {
                &&& log.fresh(entries).len() > 0
                &&& cluster::prefix(log.cut_for(entries).entries, c.histories[term])
                &&& log.reconciled(entries).entries == c.histories[term].take(prev + n)
            }
        }),
{
    let history = c.histories[term];
    let entries = history.subrange(prev, prev + n);
    let own = log.entries;
    assert(c.canonical(history));
    raft_laws::lemma_first_new(log, entries, 0);
    let i = log.first_new(entries, 0);
    let cut = log.cut_for(entries).entries;
    let taken = log.reconciled(entries).entries;
    assert(prev <= own.len());
    assert(cluster::same_up_to(own, history, prev)) by {
        if prev == 0 {
            assert(own.take(0) =~= history.take(0));
        } else {
            lemma_same_term_same_log(c, own, history, prev - 1);
        }
    }
    assert(cluster::same_up_to(own, history, prev + i)) by {
        if i > 0 {
            let k = prev + i - 1;
            assert(entries[i - 1] == history[k]);
            assert(history[k].index == k + 1);
            assert(log.term_at(entries[i - 1].index) == Some(entries[i - 1].term));
            lemma_same_term_same_log(c, own, history, k);
        }
    }
    if i < n {
        assert(entries[i] == history[prev + i]);
        assert(history[prev + i].index == prev + i + 1);
        // They agree up to here and no further.
        assert forall|p: int| #[trigger] cluster::same_up_to(own, history, p) implies p <= prev
            + i by {
            if p > prev + i {
                lemma_same_shorter(own, history, p, p);
                assert(own[prev + i] == history[prev + i]);
            }
        }
        assert(own.len() > 0 ==> own[own.len() - 1].index == own.len());
        assert(log.last_index() == own.len());
        assert(cut =~= own.take(prev + i)) by {
            if log.term_at(entries[i].index) is None {
                assert(own.take(prev + i) =~= own);
            }
        }
        assert(entries.skip(i) =~= history.subrange(prev + i, prev + n));
        assert(!cluster::same_up_to(own, history, prev + n));
        assert(cut.take(cut.len() as int) =~= cut);
        assert(taken =~= history.take(prev + n)) by {
            assert(cut == history.take(prev + i));
            assert(history.take(prev + i) + history.subrange(prev + i, prev + n)
                =~= history.take(prev + n));
        }
        lemma_canonical_part(c, own, prev + i);
        lemma_canonical_part(c, history, prev + n);
        assert forall|k: int| 0 <= k < taken.len() implies (#[trigger] taken[k]).term <= term by {
            assert(taken[k] == history[k]);
            assert(c.histories[term][k].term <= term);
        }
        assert forall|k: int| 0 <= k < cut.len() implies (#[trigger] cut[k]).term <= term by {
            assert(cut[k] == own[k]);
        }
        assert forall|p: int| #[trigger] cluster::same_up_to(own, history, p) implies
            cluster::same_up_to(cut, history, p) && cluster::same_up_to(taken, history, p) by {
            assert(cut.take(p) =~= own.take(p));
            assert(taken.take(p) =~= history.take(p));
        }
    } else {
        assert(entries.skip(i) =~= Seq::empty());
        assert(cut == own);
        assert(taken =~= own);
    }
}

/// A follower whose log a leader's request has changed, with what it has said
/// about it.
proof fn lemma_take(c: Cluster, m: u128, next: NodeView, says: bool)
    requires
        c.ordered(),
        c.nodes.contains_key(m),
        c.nodes[m].role == Role::Follower,
        c.histories.contains_key(c.nodes[m].current_term),
        c.kept[m].0 == c.nodes[m].current_term,
        next == (NodeView {
            log: next.log,
            commit_index: next.commit_index,
            waiters: next.waiters,
            ..c.nodes[m]
        }),
        stands_for(c, c.log_of(m), next.log.entries, c.nodes[m].current_term),
        next.commit_index == c.nodes[m].commit_index || c.known_committed(
            next.log.entries,
            c.nodes[m].current_term,
            next.commit_index as int,
        ),
        says ==> cluster::same_up_to(
            next.log.entries,
            c.histories[c.nodes[m].current_term],
            next.log.entries.len() as int,
        ),
    ensures
        says ==> (Cluster {
            acks: c.acks.insert(
                Ack {
                    term: c.nodes[m].current_term,
                    member: m,
                    index: next.log.entries.len() as int,
                },
            ),
            ..c.with_node(m, next)
        }).ordered(),
        !says ==> c.with_node(m, next).ordered(),
{
    let t0 = c.nodes[m].current_term;
    let said = Ack { term: t0, member: m, index: next.log.entries.len() as int };
    let d = if says {
        Cluster { acks: c.acks.insert(said), ..c.with_node(m, next) }
    } else {
        c.with_node(m, next)
    };
    assert(d.nodes.dom() =~= c.nodes.dom());
    assert(d.composed());
    assert(d.ballots_in_order());
    assert(d.counts_in_order()) by {
        assert forall|n: u128, v: u128|
            #![trigger d.nodes[n].votes.contains(v)]
            d.nodes.contains_key(n) && d.nodes[n].role != Role::Follower
                && d.nodes[n].votes.contains(v) && v != n implies d.ballots.contains(
            Ballot { term: d.nodes[n].current_term, voter: v, candidate: n },
        ) by {
            assert(c.nodes[n].votes.contains(v));
        }
    }
    assert(d.leaders_in_order()) by {
        assert forall|t: u64, v: u128|
            #![trigger d.backers[t].contains(v)]
            d.histories.contains_key(t) && d.backers[t].contains(v) implies d.ballots.contains(
            Ballot { term: t, voter: v, candidate: d.leaders[t] },
        ) by {
            assert(c.backers[t].contains(v));
        }
        assert forall|t: u64| #[trigger] d.histories.contains_key(t) implies d.is_quorum(
            d.backers[t],
        ) by {
            assert(c.is_quorum(c.backers[t]));
        }
    }
    lemma_take_logs(c, d, m, next);
    lemma_take_acks(c, d, m, next, says);
    lemma_take_commits(c, d, m, next);
}

proof fn lemma_take_logs(c: Cluster, d: Cluster, m: u128, next: NodeView)
    requires
        c.logs_in_order(),
        c.nodes.contains_key(m),
        d.nodes == c.nodes.insert(m, next),
        d.histories == c.histories,
        d.runs == c.runs,
        c.kept[m].0 == c.nodes[m].current_term,
        d.kept == c.kept,
        stands_for(c, c.log_of(m), next.log.entries, c.nodes[m].current_term),
    ensures
        d.logs_in_order(),
{
    assert forall|n: u128| #[trigger] d.nodes.contains_key(n) implies d.canonical(
        d.log_of(n),
    ) by {
        if n == m {
            assert(c.canonical(next.log.entries));
        } else {
            assert(c.nodes.contains_key(n));
            assert(c.canonical(c.log_of(n)));
        }
        lemma_canonical_grows(c, d, d.log_of(n));
    }
    assert forall|t: u64| #[trigger] d.histories.contains_key(t) implies d.canonical(
        d.histories[t],
    ) by {
        assert(c.canonical(c.histories[t]));
        lemma_canonical_grows(c, d, d.histories[t]);
    }
    assert forall|t: u64, k: u128| #[trigger] d.runs.contains_key((t, k)) implies d.canonical(
        d.runs[(t, k)],
    ) by {
        assert(c.runs.contains_key((t, k)));
        lemma_canonical_grows(c, d, c.runs[(t, k)]);
    }
    assert forall|n: u128, i: int|
        #![trigger d.log_of(n)[i]]
        d.nodes.contains_key(n) && 0 <= i < d.log_of(n).len() implies d.log_of(n)[i].term
        <= d.kept[n].0 by {
        if n == m {
            assert(next.log.entries[i].term <= c.nodes[m].current_term);
        } else {
            assert(c.nodes.contains_key(n));
            assert(c.log_of(n)[i] == d.log_of(n)[i]);
        }
    }
    assert forall|t: u64, i: int|
        #![trigger d.histories[t][i]]
        d.histories.contains_key(t) && 0 <= i < d.histories[t].len() implies d.histories[t][i].term
        <= t by {
        assert(c.histories[t][i].term <= t);
    }
    assert forall|t: u64, k: u128, i: int|
        #![trigger d.runs[(t, k)][i]]
        d.runs.contains_key((t, k)) && 0 <= i < d.runs[(t, k)].len() implies d.runs[(t, k)][i].term
        < t by {
        assert(c.runs[(t, k)][i].term < t);
    }
}

/// What may be committed after a follower said what it holds may be so before:
/// it may have come to hold it all along.
proof fn lemma_take_choosable(c: Cluster, d: Cluster, m: u128, next: NodeView, t: u64, i: int)
    requires
        c.nodes.contains_key(m),
        c.kept[m].0 == c.nodes[m].current_term,
        d.kept == c.kept,
        d.nodes == c.nodes.insert(m, next),
        d.histories == c.histories,
        d.acks == c.acks || d.acks == c.acks.insert(
            Ack {
                term: c.nodes[m].current_term,
                member: m,
                index: next.log.entries.len() as int,
            },
        ),
        d.choosable(t, i),
    ensures
        c.choosable(t, i),
        forall|v: u128| #[trigger]
            d.acked(t, v, i) ==> c.acked(t, v, i) || (v == m && t == c.nodes[m].current_term && i
                <= next.log.entries.len() && d.acks != c.acks),
{
    assert(d.nodes.dom() =~= c.nodes.dom());
    assert forall|v: u128| #[trigger] d.acked(t, v, i) implies c.acked(t, v, i) || (v == m && t
        == c.nodes[m].current_term && i <= next.log.entries.len() && d.acks != c.acks) by {
        let k = choose|k: int|
            k >= i && #[trigger] d.acks.contains(Ack { term: t, member: v, index: k });
        if c.acks.contains(Ack { term: t, member: v, index: k }) {
        }
    }
    let q = choose|q: Set<u128>| #[trigger] d.supports(q, t, i);
    assert(c.is_quorum(q));
    assert forall|v: u128| #[trigger] q.contains(v) implies c.acked(t, v, i)
        || c.kept[v].0 <= t by {
        if d.acked(t, v, i) {
        }
    }
    assert(c.supports(q, t, i));
}

proof fn lemma_take_acks(c: Cluster, d: Cluster, m: u128, next: NodeView, says: bool)
    requires
        c.ordered(),
        c.nodes.contains_key(m),
        c.histories.contains_key(c.nodes[m].current_term),
        c.kept[m].0 == c.nodes[m].current_term,
        d.kept == c.kept,
        d.nodes == c.nodes.insert(m, next),
        d.histories == c.histories,
        d.runs == c.runs,
        d.ballots == c.ballots,
        says ==> d.acks == c.acks.insert(
            Ack {
                term: c.nodes[m].current_term,
                member: m,
                index: next.log.entries.len() as int,
            },
        ),
        !says ==> d.acks == c.acks,
        stands_for(c, c.log_of(m), next.log.entries, c.nodes[m].current_term),
        says ==> cluster::same_up_to(
            next.log.entries,
            c.histories[c.nodes[m].current_term],
            next.log.entries.len() as int,
        ),
    ensures
        d.acks_in_order(),
{
    let t0 = c.nodes[m].current_term;
    assert forall|t: u64, i: int, v: u128| #[trigger]
        d.acked(t, v, i) && #[trigger] d.choosable(t, i) implies cluster::same_up_to(
        d.log_of(v),
        d.histories[t],
        i,
    ) by {
        lemma_take_choosable(c, d, m, next, t, i);
        if !c.acked(t, v, i) {
            lemma_same_shorter(
                next.log.entries,
                c.histories[t0],
                next.log.entries.len() as int,
                i,
            );
        } else {
            assert(cluster::same_up_to(c.log_of(v), c.histories[t], i));
            if v == m {
                let k = choose|k: int|
                    k >= i && #[trigger] c.acks.contains(Ack { term: t, member: v, index: k });
                assert(t <= t0);
                if t < t0 {
                    assert(cluster::same_up_to(c.histories[t0], c.histories[t], i));
                }
                assert(cluster::same_up_to(c.log_of(m), c.histories[t0], i));
                assert(cluster::same_up_to(next.log.entries, c.histories[t0], i));
            }
        }
    }
    assert forall|t: u64, i: int, b: Ballot| #[trigger]
        d.choosable(t, i) && #[trigger] d.ballots.contains(b) && t < b.term && d.acked(
            t,
            b.voter,
            i,
        ) implies cluster::same_up_to(d.runs[(b.term, b.candidate)], d.histories[t], i) by {
        lemma_take_choosable(c, d, m, next, t, i);
        assert(c.ballots.contains(b));
        assert(c.acked(t, b.voter, i));
    }
    assert forall|t: u64, i: int, later: u64| #[trigger]
        d.choosable(t, i) && #[trigger] d.histories.contains_key(later) && t
            < later implies cluster::same_up_to(d.histories[later], d.histories[t], i) by {
        lemma_take_choosable(c, d, m, next, t, i);
    }
}

/// What is committed may be committed.
proof fn lemma_chosen_is_choosable(c: Cluster, t: u64, i: int)
    requires
        c.chosen(t, i),
    ensures
        c.choosable(t, i),
{
    let q = choose|q: Set<u128>| #[trigger]
        c.is_quorum(q) && (forall|v: u128| #[trigger] q.contains(v) ==> c.acked(t, v, i));
    assert(c.supports(q, t, i));
}

proof fn lemma_take_commits(c: Cluster, d: Cluster, m: u128, next: NodeView)
    requires
        c.ordered(),
        c.nodes.contains_key(m),
        c.nodes[m].role == Role::Follower,
        c.histories.contains_key(c.nodes[m].current_term),
        next == (NodeView {
            log: next.log,
            commit_index: next.commit_index,
            waiters: next.waiters,
            ..c.nodes[m]
        }),
        d.nodes == c.nodes.insert(m, next),
        d.histories == c.histories,
        c.acks.subset_of(d.acks),
        d.commits == c.commits,
        stands_for(c, c.log_of(m), next.log.entries, c.nodes[m].current_term),
        next.commit_index == c.nodes[m].commit_index || c.known_committed(
            next.log.entries,
            c.nodes[m].current_term,
            next.commit_index as int,
        ),
    ensures
        d.commits_in_order(),
{
    let t0 = c.nodes[m].current_term;
    assert(d.nodes.dom() =~= c.nodes.dom());
    assert forall|t: u64, i: int| #[trigger] d.commits.contains((t, i)) implies d.chosen(t, i) by {
        assert(c.chosen(t, i));
        lemma_chosen_same(c, d, t, i);
    }
    assert(c.known_committed(next.log.entries, t0, next.commit_index as int)) by {
        let index = c.nodes[m].commit_index as int;
        if next.commit_index == c.nodes[m].commit_index && index != 0 {
            assert(c.known_committed(c.log_of(m), t0, index));
            let (t, i) = choose|t: u64, i: int|
                t <= t0 && index <= i && #[trigger] c.commits.contains((t, i))
                    && cluster::same_up_to(c.log_of(m), c.histories[t], index);
            assert(c.chosen(t, i));
            lemma_chosen_is_choosable(c, t, i);
            if t < t0 {
                assert(cluster::same_up_to(c.histories[t0], c.histories[t], i));
                lemma_same_shorter(c.histories[t0], c.histories[t], i, index);
            }
            assert(cluster::same_up_to(c.log_of(m), c.histories[t0], index));
            assert(cluster::same_up_to(next.log.entries, c.histories[t0], index));
            assert(cluster::same_up_to(next.log.entries, c.histories[t], index));
        }
    }
    assert forall|n: u128| #[trigger] d.nodes.contains_key(n) implies d.known_committed(
        d.log_of(n),
        d.nodes[n].current_term,
        d.nodes[n].commit_index as int,
    ) by {
        assert(c.nodes.contains_key(n));
        lemma_known_committed_same(
            c,
            d,
            d.log_of(n),
            d.nodes[n].current_term,
            d.nodes[n].current_term,
            d.nodes[n].commit_index as int,
        );
    }
    assert forall|n: u128, p: u128|
        #![trigger d.nodes[n].match_index[p]]
        d.nodes.contains_key(n) && d.nodes[n].role == Role::Leader && d.nodes[n].peers.contains(p)
            && d.nodes[n].match_index.contains_key(p) && d.nodes[n].match_index[p]
            > 0 implies d.acks.contains(
        Ack {
            term: d.nodes[n].current_term,
            member: p,
            index: d.nodes[n].match_index[p] as int,
        },
    ) by {
        assert(c.nodes[n].match_index[p] == d.nodes[n].match_index[p]);
    }
}

/// A commit point that a leader knew, cut to the follower's log, is committed.
proof fn lemma_known_committed_shorter(
    c: Cluster,
    a: Seq<EntryView>,
    b: Seq<EntryView>,
    term: u64,
    index: int,
    shorter: int,
)
    requires
        c.known_committed(a, term, index),
        0 <= shorter <= index,
        cluster::same_up_to(b, a, shorter),
    ensures
        c.known_committed(b, term, shorter),
{
    if shorter != 0 {
        let (t, i) = choose|t: u64, i: int|
            t <= term && index <= i && #[trigger] c.commits.contains((t, i)) && cluster::same_up_to(
                a,
                c.histories[t],
                index,
            );
        lemma_same_shorter(a, c.histories[t], index, shorter);
        assert(cluster::same_up_to(b, c.histories[t], shorter));
        assert(c.commits.contains((t, i)));
    }
}

/// What holds of votes, terms, logs and commits does not hang on who is in step
/// or has refused.
proof fn lemma_same_record(c: Cluster, d: Cluster, m: u128)
    requires
        c.ordered(),
        c.nodes.contains_key(m),
        d == (Cluster { aligned: d.aligned, refusals: d.refusals, ..c }),
    ensures
        d.ordered(),
{
    assert(d.composed());
    assert(d.ballots_in_order());
    assert(d.counts_in_order()) by {
        assert forall|n: u128, v: u128|
            #![trigger d.nodes[n].votes.contains(v)]
            d.nodes.contains_key(n) && d.nodes[n].role != Role::Follower
                && d.nodes[n].votes.contains(v) && v != n implies d.ballots.contains(
            Ballot { term: d.nodes[n].current_term, voter: v, candidate: n },
        ) by {
            assert(c.nodes[n].votes.contains(v));
        }
    }
    assert(d.leaders_in_order()) by {
        assert forall|t: u64, v: u128|
            #![trigger d.backers[t].contains(v)]
            d.histories.contains_key(t) && d.backers[t].contains(v) implies d.ballots.contains(
            Ballot { term: t, voter: v, candidate: d.leaders[t] },
        ) by {
            assert(c.backers[t].contains(v));
        }
        assert forall|t: u64| #[trigger] d.histories.contains_key(t) implies d.is_quorum(
            d.backers[t],
        ) by {
            assert(c.is_quorum(c.backers[t]));
        }
    }
    lemma_move_logs(c, d, m);
    lemma_move_acks(c, d, m);
    lemma_standing(c, m);
    assert(c.nodes.insert(m, c.nodes[m]) =~= c.nodes);
    lemma_move_commits(c, d, m, c.nodes[m]);
}

/// A follower that takes a leader's request in is in step with it then: the
/// request begins where the leader has grounds to go on from, so that a log that
/// already has all of it has nothing else.
proof fn lemma_in_step(c: Cluster, m: u128, req: AppendRequestView)
    requires
        c.ordered(),
        c.exchanges_in_order(),
        c.nodes.contains_key(m),
        c.sent_append(m, req),
        c.kept[m].0 == req.term,
        c.nodes[m].log.term_at(req.prev_log_index) == Some(req.prev_log_term),
    ensures
        ({
            let history = c.histories[req.term];
            let log = c.nodes[m].log;
            let entries = protocol::read(req.entries);
            &&& stands_for(c, log.entries, log.cut_for(entries).entries, req.term)
            &&& stands_for(c, log.entries, log.reconciled(entries).entries, req.term)
            &&& cluster::prefix(log.reconciled(entries).entries, history)
            &&& log.fresh(entries).len() > 0 ==> cluster::prefix(
                log.cut_for(entries).entries,
                history,
            )
        }),
{
    let t = req.term;
    let history = c.histories[t];
    let prev = req.prev_log_index as int;
    let n = req.entries.len() as int;
    let own = c.log_of(m);
    assert(c.canonical(own));
    assert forall|k: int| 0 <= k < own.len() implies (#[trigger] own[k]).term <= t by {
        assert(c.log_of(m)[k].term <= c.kept[m].0);
    }
    lemma_request_stands(c, c.nodes[m].log, t, prev, n);
    if cluster::same_up_to(own, history, prev + n) {
        if !c.aligned.contains((t, m)) {
            let start = c.runs[(t, c.leaders[t])].len() as int;
            if prev == start {
                lemma_same_shorter(own, history, prev + n, start + 1);
                assert(own[start] == history[start]);
                assert(c.log_of(m)[start].term == t);
            } else {
                assert(c.refusals.contains((t, m, prev + 1)));
                lemma_same_shorter(own, history, prev + n, prev + 1);
            }
        }
    } else {
        let part = history.take(prev + n);
        assert(part.take(part.len() as int) =~= history.take(part.len() as int));
    }
}

/// The cluster once a member has met a leader's request, before the request is
/// looked into: its term is kept, unless that failed.
pub open spec fn met_by(
    c: Cluster,
    m: u128,
    req: AppendRequestView,
    now: u64,
    outcome: Outcome,
) -> Cluster {
    c.moved(
        m,
        c.nodes[m].meet_leader(req, now),
        c.nodes[m].owes_keeping(req, now) && !(outcome is Unkept),
    )
}

proof fn lemma_meet(c: Cluster, m: u128, req: AppendRequestView, now: u64, outcome: Outcome)
    requires
        c.inv(),
        c.possible(m, Step::Receive { req, now, outcome }),
    ensures
        ({
            let d = met_by(c, m, req, now, outcome);
            &&& d.ordered()
            &&& d.exchanges_in_order()
            &&& d.sent_append(m, req)
            &&& !(outcome is Unkept) && req.term >= c.nodes[m].current_term ==> {
                &&& d.kept[m].0 == req.term
                &&& d.nodes[m] == (NodeView { kept: true, ..c.nodes[m].meet_leader(req, now) })
            }
        }),
{
    let node = c.nodes[m];
    let met = node.meet_leader(req, now);
    let keeps = node.owes_keeping(req, now) && !(outcome is Unkept);
    lemma_standing(c, m);
    assert(moves(c, m, met));
    assert(claims(c, m, met, keeps));
    lemma_standing_goes_on(c, m);
    lemma_move(c, m, met, keeps);
    lemma_move_exchanges(c, m, met, keeps);
    lemma_sent_stays(c, c.moved(m, met, keeps), m, req);
}

proof fn lemma_receive_refused(c: Cluster, m: u128, req: AppendRequestView, now: u64)
    requires
        c.inv(),
        c.possible(m, Step::Receive { req, now, outcome: Outcome::Refused }),
    ensures
        c.after(m, Step::Receive { req, now, outcome: Outcome::Refused }).ordered(),
        c.after(m, Step::Receive { req, now, outcome: Outcome::Refused }).exchanges_in_order(),
{
    let after = c.after(m, Step::Receive { req, now, outcome: Outcome::Refused });
    let d = met_by(c, m, req, now, Outcome::Refused);
    lemma_meet(c, m, req, now, Outcome::Refused);
    assert(after.nodes =~= d.nodes);
    if req.term >= c.nodes[m].current_term {
        assert(after == (Cluster { refusals: after.refusals, ..d }));
        lemma_same_record(d, after, m);
        lemma_refuse_exchanges(d, after, m, req);
    } else {
        assert(after == d);
    }
}

proof fn lemma_receive_cut(c: Cluster, m: u128, req: AppendRequestView, now: u64)
    requires
        c.inv(),
        c.possible(m, Step::Receive { req, now, outcome: Outcome::Cut }),
    ensures
        c.after(m, Step::Receive { req, now, outcome: Outcome::Cut }).ordered(),
        c.after(m, Step::Receive { req, now, outcome: Outcome::Cut }).exchanges_in_order(),
{
    let after = c.after(m, Step::Receive { req, now, outcome: Outcome::Cut });
    let d = met_by(c, m, req, now, Outcome::Cut);
    let next = Cluster::received(c.nodes[m], req, now, Outcome::Cut);
    lemma_meet(c, m, req, now, Outcome::Cut);
    lemma_in_step(d, m, req);
    lemma_take(d, m, next, false);
    let e = d.with_node(m, next);
    assert(after.nodes =~= e.nodes);
    assert(after.kept =~= e.kept);
    assert(after == (Cluster { aligned: after.aligned, ..e }));
    lemma_same_record(e, after, m);
    lemma_take_exchanges(d, after, m, next);
}

proof fn lemma_receive_taken(c: Cluster, m: u128, req: AppendRequestView, now: u64)
    requires
        c.inv(),
        c.possible(m, Step::Receive { req, now, outcome: Outcome::Taken }),
    ensures
        c.after(m, Step::Receive { req, now, outcome: Outcome::Taken }).ordered(),
        c.after(m, Step::Receive { req, now, outcome: Outcome::Taken }).exchanges_in_order(),
{
    let after = c.after(m, Step::Receive { req, now, outcome: Outcome::Taken });
    let d = met_by(c, m, req, now, Outcome::Taken);
    let met = c.nodes[m].meet_leader(req, now);
    let next = Cluster::received(c.nodes[m], req, now, Outcome::Taken);
    let t = req.term;
    lemma_meet(c, m, req, now, Outcome::Taken);
    lemma_in_step(d, m, req);
    let history = d.histories[t];
    let taken = next.log.entries;
    assert(d.canonical(taken));
    assert(taken.len() > 0 ==> taken[taken.len() - 1].index == taken.len());
    assert(next.log.last_index() == taken.len());
    if next.commit_index != met.commit_index {
        lemma_same_shorter(taken, history, taken.len() as int, next.commit_index as int);
        lemma_known_committed_shorter(
            d,
            history,
            taken,
            t,
            req.leader_commit as int,
            next.commit_index as int,
        );
    }
    lemma_take(d, m, next, true);
    let e = Cluster {
        acks: d.acks.insert(Ack { term: t, member: m, index: taken.len() as int }),
        ..d.with_node(m, next)
    };
    assert(after.nodes =~= e.nodes);
    assert(after.kept =~= e.kept);
    assert(after == (Cluster { aligned: after.aligned, ..e }));
    lemma_same_record(e, after, m);
    lemma_take_exchanges(d, after, m, next);
}

proof fn lemma_receive(c: Cluster, m: u128, req: AppendRequestView, now: u64, outcome: Outcome)
    requires
        c.inv(),
        c.possible(m, Step::Receive { req, now, outcome }),
    ensures
        c.after(m, Step::Receive { req, now, outcome }).ordered(),
        c.after(m, Step::Receive { req, now, outcome }).exchanges_in_order(),
{
    match outcome {
        Outcome::Refused => lemma_receive_refused(c, m, req, now),
        Outcome::Cut => lemma_receive_cut(c, m, req, now),
        Outcome::Taken => lemma_receive_taken(c, m, req, now),
        _ => {
            lemma_meet(c, m, req, now, outcome);
            let after = c.after(m, Step::Receive { req, now, outcome });
            assert(after.nodes =~= met_by(c, m, req, now, outcome).nodes);
        },
    }
}

/// What a leader sent out stays so while members only move on.
proof fn lemma_sent_stays(c: Cluster, d: Cluster, m: u128, req: AppendRequestView)
    requires
        c.sent_append(m, req),
        d.histories == c.histories,
        d.leaders == c.leaders,
        d.runs == c.runs,
        d.commits == c.commits,
        d.refusals == c.refusals,
        d.aligned == c.aligned,
    ensures
        d.sent_append(m, req),
{
    lemma_known_committed_same(
        c,
        d,
        c.histories[req.term],
        req.term,
        req.term,
        req.leader_commit as int,
    );
}

// ---------------------------------------------------------------- committing

/// Those of a leader's first `n` peers that it knows to hold its log up to `x`.
pub proof fn lemma_holders(node: NodeView, n: int, x: u64) -> (q: Set<u128>)
    requires
        node.peers.no_duplicates(),
        0 <= n <= node.peers.len(),
        x > 0,
    ensures
        q.finite(),
        q.len() == quorum::reached(node.positions().take(n), x),
        forall|p: u128| #[trigger]
            q.contains(p) ==> {
                &&& exists|k: int| 0 <= k < n && #[trigger] node.peers[k] == p
                &&& node.match_index.contains_key(p)
                &&& node.match_index[p] >= x
            },
    decreases n,
{
    if n == 0 {
        assert(node.positions().take(0) =~= Seq::empty());
        Set::empty()
    } else {
        let before = lemma_holders(node, n - 1, x);
        assert(node.positions().take(n).drop_last() =~= node.positions().take(n - 1));
        let p = node.peers[n - 1];
        assert(node.positions().take(n).last() == node.positions()[n - 1]);
        if node.positions()[n - 1] >= x {
            assert(!before.contains(p)) by {
                if before.contains(p) {
                    let k = choose|k: int| 0 <= k < n - 1 && #[trigger] node.peers[k] == p;
                    assert(node.peers[k] == node.peers[n - 1]);
                }
            }
            let q = before.insert(p);
            assert forall|other: u128| #[trigger] q.contains(other) implies {
                &&& exists|k: int| 0 <= k < n && #[trigger] node.peers[k] == other
                &&& node.match_index.contains_key(other)
                &&& node.match_index[other] >= x
            } by {
                if other == p {
                    assert(node.peers[n - 1] == other);
                } else {
                    assert(before.contains(other));
                    let k = choose|k: int| 0 <= k < n - 1 && #[trigger] node.peers[k] == other;
                    assert(node.peers[k] == other);
                }
            }
            q
        } else {
            before
        }
    }
}

proof fn lemma_advance(c: Cluster, m: u128)
    requires
        c.ordered(),
        c.possible(m, Step::Advance),
    ensures
        c.after(m, Step::Advance).ordered(),
{
    let node = c.nodes[m];
    let next = node.advance();
    let d = c.after(m, Step::Advance);
    let t0 = node.current_term;
    if next.commit_index == node.commit_index {
        lemma_standing(c, m);
        assert(next == node);
        lemma_move(c, m, next, false);
    } else {
        let x = next.commit_index;
        raft_laws::law_commit_needs_a_majority(node);
        lemma_not_empty(c, m);
        let own = c.log_of(m);
        assert(c.canonical(own));
        assert(own.len() > 0 ==> own[own.len() - 1].index == own.len());
        assert(node.log.last_index() == own.len());
        let last = node.peers.len() as int;
        let holders = lemma_holders(node, last, x);
        assert(node.positions().take(last) =~= node.positions().drop_last());
        assert(!holders.contains(m)) by {
            if holders.contains(m) {
                let k = choose|k: int| 0 <= k < last && #[trigger] node.peers[k] == m;
                assert(node.peers.to_set().contains(m));
            }
        }
        assert(x <= own.len());
        let q = holders.insert(m);
        assert(q.len() == quorum::reached(node.positions(), x));
        assert(c.is_quorum(q)) by {
            assert forall|v: u128| #[trigger] q.contains(v) implies c.nodes.dom().contains(v) by {
                if v != m {
                    let k = choose|k: int| 0 <= k < last && #[trigger] node.peers[k] == v;
                    assert(node.peers.to_set().contains(v));
                }
            }
        }
        assert forall|v: u128| #[trigger] q.contains(v) implies c.acked(t0, v, x as int) by {
            if v == m {
                assert(c.acks.contains(
                    Ack { term: t0, member: m, index: own.len() as int },
                ));
            } else {
                let k = choose|k: int| 0 <= k < last && #[trigger] node.peers[k] == v;
                assert(node.peers.contains(v));
                assert(c.nodes[m].match_index[v] > 0);
                assert(c.acks.contains(
                    Ack { term: t0, member: v, index: node.match_index[v] as int },
                ));
            }
        }
        assert(c.histories[t0] == own);
        assert(c.own_entry(t0, x as int));
        assert(c.chosen(t0, x as int));
        // Everything but the commit point stays as it is.
        let still = NodeView { commit_index: node.commit_index, ..next };
        assert(still == node);
        lemma_standing(c, m);
        assert(d.nodes.dom() =~= c.nodes.dom());
        assert(d.log_of(m) == own);
        assert(d.composed());
        assert(d.ballots_in_order());
        assert(d.counts_in_order()) by {
            assert forall|n: u128, v: u128|
                #![trigger d.nodes[n].votes.contains(v)]
                d.nodes.contains_key(n) && d.nodes[n].role != Role::Follower
                    && d.nodes[n].votes.contains(v) && v != n implies d.ballots.contains(
                Ballot { term: d.nodes[n].current_term, voter: v, candidate: n },
            ) by {
                assert(c.nodes[n].votes.contains(v));
            }
        }
        assert(d.leaders_in_order()) by {
            assert forall|t: u64, v: u128|
                #![trigger d.backers[t].contains(v)]
                d.histories.contains_key(t) && d.backers[t].contains(v) implies d.ballots.contains(
                Ballot { term: t, voter: v, candidate: d.leaders[t] },
            ) by {
                assert(c.backers[t].contains(v));
            }
            assert forall|t: u64| #[trigger] d.histories.contains_key(t) implies d.is_quorum(
                d.backers[t],
            ) by {
                assert(c.is_quorum(c.backers[t]));
            }
        }
        lemma_move_logs(c, d, m);
        lemma_move_acks(c, d, m);
        lemma_advance_commits(c, d, m, x);
    }
}

proof fn lemma_advance_commits(c: Cluster, d: Cluster, m: u128, x: u64)
    requires
        c.ordered(),
        c.nodes.contains_key(m),
        c.nodes[m].role == Role::Leader,
        c.chosen(c.nodes[m].current_term, x as int),
        d.nodes == c.nodes.insert(m, NodeView { commit_index: x, ..c.nodes[m] }),
        d.histories == c.histories,
        d.acks == c.acks,
        d.commits == c.commits.insert((c.nodes[m].current_term, x as int)),
    ensures
        d.commits_in_order(),
{
    let t0 = c.nodes[m].current_term;
    assert(d.nodes.dom() =~= c.nodes.dom());
    assert forall|t: u64, i: int| #[trigger] d.commits.contains((t, i)) implies d.chosen(t, i) by {
        if (t, i) != (t0, x as int) {
            assert(c.commits.contains((t, i)));
        }
        lemma_chosen_same(c, d, t, i);
    }
    assert forall|n: u128| #[trigger] d.nodes.contains_key(n) implies d.known_committed(
        d.log_of(n),
        d.nodes[n].current_term,
        d.nodes[n].commit_index as int,
    ) by {
        assert(c.nodes.contains_key(n));
        if n == m {
            assert(c.histories[t0] == c.log_of(m));
            assert(d.commits.contains((t0, x as int)));
            assert(cluster::same_up_to(d.log_of(m), d.histories[t0], x as int));
        } else {
            lemma_known_committed_same(
                c,
                d,
                c.log_of(n),
                c.nodes[n].current_term,
                c.nodes[n].current_term,
                c.nodes[n].commit_index as int,
            );
        }
    }
    assert forall|n: u128, p: u128|
        #![trigger d.nodes[n].match_index[p]]
        d.nodes.contains_key(n) && d.nodes[n].role == Role::Leader && d.nodes[n].peers.contains(p)
            && d.nodes[n].match_index.contains_key(p) && d.nodes[n].match_index[p]
            > 0 implies d.acks.contains(
        Ack {
            term: d.nodes[n].current_term,
            member: p,
            index: d.nodes[n].match_index[p] as int,
        },
    ) by {
        assert(c.nodes[n].match_index[p] == d.nodes[n].match_index[p]);
    }
}

proof fn lemma_hear_append(c: Cluster, m: u128, step: Step)
    requires
        c.ordered(),
        step is HearAppend,
        c.possible(m, step),
    ensures
        c.after(m, step).ordered(),
{
    if let Step::HearAppend { peer, term, resp, now } = step {
        let node = c.nodes[m];
        let next = node.hear(peer, term, resp, now);
        lemma_standing(c, m);
        assert(moves(c, m, next)) by {
            assert forall|p: u128| #[trigger]
                next.match_index.contains_key(p) && next.role == Role::Leader
                    && next.peers.contains(p) && next.match_index[p] > 0 implies c.acks.contains(
                Ack { term: next.current_term, member: p, index: next.match_index[p] as int },
            ) by {
                if node.match_index.contains_key(p) && next.match_index[p] == node.match_index[p] {
                    assert(c.nodes[m].match_index[p] > 0);
                }
            }
        }
        lemma_move(c, m, next, false);
    }
}

// ------------------------------------------------------------------ exchanges

/// Whether a member that leads would go on from where it has grounds to.
pub open spec fn goes_on(c: Cluster, next: NodeView) -> bool {
    next.role == Role::Leader ==> forall|p: u128| #[trigger]
        next.peers.contains(p) ==> c.grounded(next.current_term, p, next.next_for(p) - 1)
}

proof fn lemma_standing_goes_on(c: Cluster, m: u128)
    requires
        c.exchanges_in_order(),
        c.nodes.contains_key(m),
    ensures
        goes_on(c, c.nodes[m]),
{
    let node = c.nodes[m];
    assert forall|p: u128| #[trigger] node.peers.contains(p) && node.role
        == Role::Leader implies c.grounded(node.current_term, p, node.next_for(p) - 1) by {
        assert(c.nodes[m].next_for(p) == node.next_for(p));
    }
}

/// Exchanges stay in order where members only move on, with their logs as they
/// are.
proof fn lemma_exchanges_kept(c: Cluster, d: Cluster, m: u128)
    requires
        c.ordered(),
        c.exchanges_in_order(),
        c.nodes.contains_key(m),
        d.nodes == c.nodes.insert(m, d.nodes[m]),
        d.log_of(m) == c.log_of(m),
        d.kept == c.kept.insert(m, d.kept[m]) || d.kept == c.kept,
        c.kept[m].0 <= d.kept[m].0,
        forall|t: u64| #[trigger]
            c.histories.contains_key(t) ==> d.runs[(t, c.leaders[t])] == c.runs[(
                t,
                c.leaders[t],
            )],
        d.histories == c.histories,
        d.leaders == c.leaders,
        d.acks == c.acks,
        d.aligned == c.aligned,
        d.refusals == c.refusals,
        goes_on(c, d.nodes[m]),
        d.nodes[m].role == Role::Leader ==> c.histories.contains_key(d.nodes[m].current_term),
    ensures
        d.exchanges_in_order(),
{
    assert(d.nodes.dom() =~= c.nodes.dom());
    assert forall|v: u128| #[trigger] c.nodes.contains_key(v) implies d.log_of(v) == c.log_of(v)
        && c.kept[v].0 <= d.kept[v].0 by {}
    assert forall|t: u64, v: u128| #[trigger] d.aligned.contains((t, v)) implies {
        &&& d.histories.contains_key(t)
        &&& d.nodes.contains_key(v)
        &&& t <= d.kept[v].0
        &&& d.kept[v].0 == t ==> cluster::prefix(d.log_of(v), d.histories[t])
    } by {
        assert(c.aligned.contains((t, v)));
        assert(c.nodes.contains_key(v));
    }
    assert forall|v: u128, i: int|
        #![trigger d.log_of(v)[i]]
        d.nodes.contains_key(v) && 0 <= i < d.log_of(v).len() && d.log_of(v)[i].term
            == d.kept[v].0 implies d.aligned.contains((d.kept[v].0, v)) by {
        assert(c.nodes.contains_key(v));
        assert(c.log_of(v)[i].term <= c.kept[v].0);
    }
    assert forall|t: u64, v: u128, k: int| #[trigger] d.refusals.contains((t, v, k)) implies {
        &&& d.histories.contains_key(t)
        &&& 1 <= k <= d.histories[t].len()
        &&& d.nodes.contains_key(v)
        &&& t <= d.kept[v].0
        &&& d.kept[v].0 == t ==> d.aligned.contains((t, v)) || !cluster::same_up_to(
            d.log_of(v),
            d.histories[t],
            k,
        )
    } by {
        assert(c.refusals.contains((t, v, k)));
        assert(c.nodes.contains_key(v));
    }
    assert forall|n: u128, p: u128|
        #![trigger d.nodes[n].next_for(p)]
        d.nodes.contains_key(n) && d.nodes[n].role == Role::Leader && d.nodes[n].peers.contains(
            p,
        ) implies d.grounded(d.nodes[n].current_term, p, d.nodes[n].next_for(p) - 1) by {
        if n != m {
            assert(c.nodes.contains_key(n));
            assert(c.nodes[n].next_for(p) == d.nodes[n].next_for(p));
            assert(c.histories.contains_key(c.nodes[n].current_term));
        }
        assert(c.grounded(d.nodes[n].current_term, p, d.nodes[n].next_for(p) - 1));
    }
}

proof fn lemma_move_exchanges(c: Cluster, m: u128, next: NodeView, keep: bool)
    requires
        c.ordered(),
        c.exchanges_in_order(),
        moves(c, m, next),
        goes_on(c, next),
    ensures
        c.moved(m, next, keep).exchanges_in_order(),
{
    let d = c.moved(m, next, keep);
    assert(goes_on(c, d.nodes[m])) by {
        assert forall|p: u128| #[trigger] d.nodes[m].peers.contains(p) && d.nodes[m].role
            == Role::Leader implies c.grounded(
            d.nodes[m].current_term,
            p,
            d.nodes[m].next_for(p) - 1,
        ) by {
            assert(next.peers.contains(p));
            assert(d.nodes[m].next_for(p) == next.next_for(p));
        }
    }
    assert(d.nodes =~= c.nodes.insert(m, d.nodes[m]));
    lemma_exchanges_kept(c, d, m);
}

/// A refusal shows that the member holds another log than the leader.
proof fn lemma_refuse_exchanges(c: Cluster, d: Cluster, m: u128, req: AppendRequestView)
    requires
        c.ordered(),
        c.exchanges_in_order(),
        c.nodes.contains_key(m),
        c.histories.contains_key(req.term),
        req.prev_log_index <= c.histories[req.term].len(),
        req.prev_log_term == cluster::term_of(
            c.histories[req.term],
            req.prev_log_index as int,
        ),
        c.kept[m].0 == req.term,
        c.nodes[m].log.term_at(req.prev_log_index) != Some(req.prev_log_term),
        d == (Cluster {
            refusals: c.refusals.insert((req.term, m, req.prev_log_index as int)),
            ..c
        }),
    ensures
        d.exchanges_in_order(),
{
    let prev = req.prev_log_index as int;
    let history = c.histories[req.term];
    assert(prev >= 1);
    assert(!cluster::same_up_to(c.log_of(m), history, prev)) by {
        if cluster::same_up_to(c.log_of(m), history, prev) {
            lemma_same_shorter(c.log_of(m), history, prev, prev);
            assert(c.log_of(m)[prev - 1] == history[prev - 1]);
        }
    }
    assert forall|t: u64, v: u128| #[trigger] d.aligned.contains((t, v)) implies {
        &&& d.kept[v].0 == t ==> cluster::prefix(d.log_of(v), d.histories[t])
    } by {
        assert(c.aligned.contains((t, v)));
        assert(d.log_of(v) == c.log_of(v));
    }
    assert forall|v: u128, i: int|
        #![trigger d.log_of(v)[i]]
        d.nodes.contains_key(v) && 0 <= i < d.log_of(v).len() && d.log_of(v)[i].term
            == d.kept[v].0 implies d.aligned.contains((d.kept[v].0, v)) by {
        assert(c.log_of(v)[i] == d.log_of(v)[i]);
    }
    assert forall|t: u64, v: u128, k: int| #[trigger] d.refusals.contains((t, v, k)) implies {
        &&& d.histories.contains_key(t)
        &&& 1 <= k <= d.histories[t].len()
        &&& d.nodes.contains_key(v)
        &&& t <= d.kept[v].0
        &&& d.kept[v].0 == t ==> d.aligned.contains((t, v)) || !cluster::same_up_to(
            d.log_of(v),
            d.histories[t],
            k,
        )
    } by {
        assert(d.log_of(v) == c.log_of(v));
        if c.refusals.contains((t, v, k)) {
        }
    }
    assert forall|n: u128, p: u128|
        #![trigger d.nodes[n].next_for(p)]
        d.nodes.contains_key(n) && d.nodes[n].role == Role::Leader && d.nodes[n].peers.contains(
            p,
        ) implies d.grounded(d.nodes[n].current_term, p, d.nodes[n].next_for(p) - 1) by {
        assert(c.nodes.contains_key(n));
        assert(c.nodes[n].next_for(p) == d.nodes[n].next_for(p));
        assert(c.grounded(d.nodes[n].current_term, p, d.nodes[n].next_for(p) - 1));
    }
}

/// A follower that a leader's request brought in step is on record for it.
proof fn lemma_take_exchanges(c: Cluster, d: Cluster, m: u128, next: NodeView)
    requires
        c.ordered(),
        c.exchanges_in_order(),
        c.nodes.contains_key(m),
        c.histories.contains_key(c.kept[m].0),
        next.role == Role::Follower,
        cluster::prefix(next.log.entries, c.histories[c.kept[m].0]),
        d.nodes == c.nodes.insert(m, next),
        d.kept == c.kept,
        d.histories == c.histories,
        d.leaders == c.leaders,
        d.runs == c.runs,
        d.refusals == c.refusals,
        d.aligned == c.aligned.insert((c.kept[m].0, m)),
        forall|a: Ack| #[trigger]
            d.acks.contains(a) ==> c.acks.contains(a) || (a.term == c.kept[m].0 && a.member == m),
    ensures
        d.exchanges_in_order(),
{
    assert(d.nodes.dom() =~= c.nodes.dom());
    assert forall|t: u64, v: u128| #[trigger] d.aligned.contains((t, v)) implies {
        &&& d.histories.contains_key(t)
        &&& d.nodes.contains_key(v)
        &&& t <= d.kept[v].0
        &&& d.kept[v].0 == t ==> cluster::prefix(d.log_of(v), d.histories[t])
    } by {
        if v != m {
            assert(c.aligned.contains((t, v)));
            assert(d.log_of(v) == c.log_of(v));
        } else if t != c.kept[m].0 {
            assert(c.aligned.contains((t, v)));
        }
    }
    assert forall|v: u128, i: int|
        #![trigger d.log_of(v)[i]]
        d.nodes.contains_key(v) && 0 <= i < d.log_of(v).len() && d.log_of(v)[i].term
            == d.kept[v].0 implies d.aligned.contains((d.kept[v].0, v)) by {
        if v != m {
            assert(c.log_of(v)[i] == d.log_of(v)[i]);
        }
    }
    assert forall|t: u64, v: u128, k: int| #[trigger] d.refusals.contains((t, v, k)) implies {
        &&& d.histories.contains_key(t)
        &&& 1 <= k <= d.histories[t].len()
        &&& d.nodes.contains_key(v)
        &&& t <= d.kept[v].0
        &&& d.kept[v].0 == t ==> d.aligned.contains((t, v)) || !cluster::same_up_to(
            d.log_of(v),
            d.histories[t],
            k,
        )
    } by {
        assert(c.refusals.contains((t, v, k)));
        if v != m {
            assert(d.log_of(v) == c.log_of(v));
        }
    }
    assert forall|a: Ack| #[trigger] d.acks.contains(a) implies d.aligned.contains(
        (a.term, a.member),
    ) by {
        if c.acks.contains(a) {
            assert(c.aligned.contains((a.term, a.member)));
        }
    }
    assert forall|n: u128, p: u128|
        #![trigger d.nodes[n].next_for(p)]
        d.nodes.contains_key(n) && d.nodes[n].role == Role::Leader && d.nodes[n].peers.contains(
            p,
        ) implies d.grounded(d.nodes[n].current_term, p, d.nodes[n].next_for(p) - 1) by {
        assert(c.nodes.contains_key(n));
        assert(c.nodes[n].next_for(p) == d.nodes[n].next_for(p));
        assert(c.grounded(d.nodes[n].current_term, p, d.nodes[n].next_for(p) - 1));
    }
}

/// A leader's log grows, and with it what others can be in step with.
proof fn lemma_append_exchanges(c: Cluster, m: u128, entry: EntryView)
    requires
        c.ordered(),
        c.exchanges_in_order(),
        c.can_append(m, entry),
    ensures
        c.with_entry(m, entry).exchanges_in_order(),
{
    let d = c.with_entry(m, entry);
    let t0 = c.nodes[m].current_term;
    let old_log = c.log_of(m);
    assert(d.nodes.dom() =~= c.nodes.dom());
    assert(c.histories.contains_key(t0) && c.leaders[t0] == m && c.histories[t0] == old_log
        && c.kept[m].0 == t0);
    assert(c.aligned.contains((t0, m))) by {
        assert(c.acks.contains(Ack { term: t0, member: m, index: old_log.len() as int }));
    }
    assert(d.log_of(m) =~= old_log.push(entry));
    assert(d.histories[t0] =~= old_log.push(entry));
    assert forall|t: u64| #[trigger] c.histories.contains_key(t) implies d.histories.contains_key(t)
        && cluster::prefix(c.histories[t], d.histories[t]) by {
        assert(d.histories[t].take(c.histories[t].len() as int) =~= c.histories[t]);
        assert(c.histories[t].take(c.histories[t].len() as int) =~= c.histories[t]);
    }
    assert forall|t: u64, v: u128| #[trigger] d.aligned.contains((t, v)) implies {
        &&& d.histories.contains_key(t)
        &&& d.nodes.contains_key(v)
        &&& t <= d.kept[v].0
        &&& d.kept[v].0 == t ==> cluster::prefix(d.log_of(v), d.histories[t])
    } by {
        assert(c.aligned.contains((t, v)));
        assert(c.histories.contains_key(t));
        if v != m && d.kept[v].0 == t {
            assert(d.log_of(v) == c.log_of(v));
            let n = c.log_of(v).len() as int;
            lemma_same_shorter(
                c.histories[t],
                d.histories[t],
                c.histories[t].len() as int,
                n,
            );
        }
    }
    assert forall|v: u128, i: int|
        #![trigger d.log_of(v)[i]]
        d.nodes.contains_key(v) && 0 <= i < d.log_of(v).len() && d.log_of(v)[i].term
            == d.kept[v].0 implies d.aligned.contains((d.kept[v].0, v)) by {
        if v != m {
            assert(c.log_of(v)[i] == d.log_of(v)[i]);
        }
    }
    assert forall|t: u64, v: u128, k: int| #[trigger] d.refusals.contains((t, v, k)) implies {
        &&& d.histories.contains_key(t)
        &&& 1 <= k <= d.histories[t].len()
        &&& d.nodes.contains_key(v)
        &&& t <= d.kept[v].0
        &&& d.kept[v].0 == t ==> d.aligned.contains((t, v)) || !cluster::same_up_to(
            d.log_of(v),
            d.histories[t],
            k,
        )
    } by {
        assert(c.refusals.contains((t, v, k)));
        assert(c.histories.contains_key(t));
        if v != m {
            assert(d.log_of(v) == c.log_of(v));
            lemma_same_shorter(
                c.histories[t],
                d.histories[t],
                c.histories[t].len() as int,
                k,
            );
        }
    }
    assert forall|a: Ack| #[trigger] d.acks.contains(a) implies d.aligned.contains(
        (a.term, a.member),
    ) by {
        if c.acks.contains(a) {
        }
    }
    assert forall|t: u64| #[trigger] d.histories.contains_key(t) implies {
        let n = d.runs[(t, d.leaders[t])].len() as int;
        n < d.histories[t].len() ==> d.histories[t][n].term == t
    } by {
        assert(c.histories.contains_key(t));
        let n = c.runs[(t, c.leaders[t])].len() as int;
        lemma_same_shorter(c.histories[t], d.histories[t], c.histories[t].len() as int, n);
        if t == t0 && n == old_log.len() {
            assert(d.histories[t][n] == entry);
        }
    }
    assert forall|n: u128, p: u128|
        #![trigger d.nodes[n].next_for(p)]
        d.nodes.contains_key(n) && d.nodes[n].role == Role::Leader && d.nodes[n].peers.contains(
            p,
        ) implies d.grounded(d.nodes[n].current_term, p, d.nodes[n].next_for(p) - 1) by {
        assert(c.nodes.contains_key(n));
        assert(c.nodes[n].next_for(p) == d.nodes[n].next_for(p));
        assert(c.grounded(d.nodes[n].current_term, p, d.nodes[n].next_for(p) - 1));
        assert(c.histories.contains_key(c.nodes[n].current_term));
    }
}

/// A new leader begins to go on from the end of the log that it won the term
/// with.
proof fn lemma_lead_exchanges(c: Cluster, m: u128, now: u64)
    requires
        c.ordered(),
        c.exchanges_in_order(),
        elected(c, m),
        c.log_of(m).len() < u64::MAX,
    ensures
        c.with_leader(m, now).exchanges_in_order(),
{
    let d = c.with_leader(m, now);
    let node = c.nodes[m];
    let t0 = node.current_term;
    let run = c.log_of(m);
    lemma_no_leader_yet(c, m);
    assert(c.runs[(t0, m)] == run);
    assert(c.canonical(run));
    assert(run.len() > 0 ==> run[run.len() - 1].index == run.len());
    assert(c.kept[m].0 == t0);
    assert(d.nodes.dom() =~= c.nodes.dom());
    assert forall|t: u64| #[trigger] c.histories.contains_key(t) implies t != t0
        && d.histories.contains_key(t) && d.histories[t] == c.histories[t] && d.leaders[t]
        == c.leaders[t] by {}
    assert forall|v: u128| #[trigger] c.nodes.contains_key(v) implies d.log_of(v) == c.log_of(
        v,
    ) by {}
    assert forall|t: u64, v: u128| #[trigger] d.aligned.contains((t, v)) implies {
        &&& d.histories.contains_key(t)
        &&& d.nodes.contains_key(v)
        &&& t <= d.kept[v].0
        &&& d.kept[v].0 == t ==> cluster::prefix(d.log_of(v), d.histories[t])
    } by {
        if (t, v) != (t0, m) {
            assert(c.aligned.contains((t, v)));
            assert(c.histories.contains_key(t));
        }
    }
    assert forall|v: u128, i: int|
        #![trigger d.log_of(v)[i]]
        d.nodes.contains_key(v) && 0 <= i < d.log_of(v).len() && d.log_of(v)[i].term
            == d.kept[v].0 implies d.aligned.contains((d.kept[v].0, v)) by {
        assert(c.log_of(v)[i] == d.log_of(v)[i]);
    }
    assert forall|t: u64, v: u128, k: int| #[trigger] d.refusals.contains((t, v, k)) implies {
        &&& d.histories.contains_key(t)
        &&& 1 <= k <= d.histories[t].len()
        &&& d.nodes.contains_key(v)
        &&& t <= d.kept[v].0
        &&& d.kept[v].0 == t ==> d.aligned.contains((t, v)) || !cluster::same_up_to(
            d.log_of(v),
            d.histories[t],
            k,
        )
    } by {
        assert(c.refusals.contains((t, v, k)));
        assert(c.histories.contains_key(t));
    }
    assert forall|a: Ack| #[trigger] d.acks.contains(a) implies d.aligned.contains(
        (a.term, a.member),
    ) by {
        if c.acks.contains(a) {
            assert(c.aligned.contains((a.term, a.member)));
        }
    }
    assert forall|t: u64| #[trigger] d.histories.contains_key(t) implies {
        let n = d.runs[(t, d.leaders[t])].len() as int;
        n < d.histories[t].len() ==> d.histories[t][n].term == t
    } by {
        if t != t0 {
            assert(c.histories.contains_key(t));
        }
    }
    assert forall|n: u128, p: u128|
        #![trigger d.nodes[n].next_for(p)]
        d.nodes.contains_key(n) && d.nodes[n].role == Role::Leader && d.nodes[n].peers.contains(
            p,
        ) implies d.grounded(d.nodes[n].current_term, p, d.nodes[n].next_for(p) - 1) by {
        if n == m {
            lemma_with_all(node.next_index, node.peers, (node.log.last_index() + 1) as u64, p);
        } else {
            assert(c.nodes.contains_key(n));
            assert(c.nodes[n].next_for(p) == d.nodes[n].next_for(p));
            assert(c.grounded(d.nodes[n].current_term, p, d.nodes[n].next_for(p) - 1));
            assert(c.histories.contains_key(c.nodes[n].current_term));
        }
    }
}

proof fn lemma_open_exchanges(c: Cluster, m: u128, now: u64, opened: bool)
    requires
        c.ordered(),
        c.exchanges_in_order(),
        elected(c, m),
        c.log_of(m).len() < u64::MAX,
    ensures
        c.with_opening(m, now, opened).exchanges_in_order(),
{
    let d = c.with_leader(m, now);
    lemma_open(c, m, now, opened);
    lemma_lead_exchanges(c, m, now);
    if opened {
        lemma_append_exchanges(d, m, c.nodes[m].opening());
    } else {
        lemma_standing(d, m);
        lemma_move_exchanges(d, m, c.with_opening(m, now, false).nodes[m], false);
    }
}

/// What a leader hears gives it grounds for where it goes on from.
proof fn lemma_hear_goes_on(c: Cluster, m: u128, step: Step)
    requires
        c.ordered(),
        c.exchanges_in_order(),
        step is HearAppend,
        c.possible(m, step),
    ensures
        goes_on(c, c.after(m, step).nodes[m]),
{
    if let Step::HearAppend { peer, term, resp, now } = step {
        let node = c.nodes[m];
        let next = node.hear(peer, term, resp, now);
        lemma_standing_goes_on(c, m);
        assert forall|p: u128| #[trigger] next.peers.contains(p) && next.role
            == Role::Leader implies c.grounded(next.current_term, p, next.next_for(p) - 1) by {
            assert(node.peers.contains(p));
            assert(c.grounded(node.current_term, p, node.next_for(p) - 1));
            if p == peer && node.current_term == term && resp.term <= term {
                if resp.success {
                    assert(c.acks.contains(
                        Ack { term, member: peer, index: resp.match_index as int },
                    ));
                    assert(c.aligned.contains((term, peer)));
                } else if c.refusals.contains((term, peer, node.next_for(peer) - 1)) {
                    assert(node.next_for(peer) >= 2);
                } else {
                    assert(c.aligned.contains((term, peer)));
                }
            } else {
                assert(next.next_for(p) == node.next_for(p));
            }
        }
    }
}

/// A candidate that hears of a vote follows on, campaigns on, or begins to lead.
proof fn lemma_hear_vote_exchanges(c: Cluster, m: u128, step: Step)
    requires
        c.ordered(),
        c.exchanges_in_order(),
        step is HearVote,
        c.possible(m, step),
    ensures
        c.after(m, step).exchanges_in_order(),
{
    if let Step::HearVote { peer, term, answer, now, opened } = step {
        let node = c.nodes[m];
        let next = node.hear_vote(peer, term, answer, now);
        let d = c.with_node(m, next);
        lemma_standing_goes_on(c, m);
        assert(goes_on(c, next));
        assert(d.nodes =~= c.nodes.insert(m, d.nodes[m]));
        lemma_exchanges_kept(c, d, m);
        if node.wins(peer, term, answer) {
            lemma_heard(c, m, peer, term, answer, now, opened);
            lemma_open_exchanges(d, m, now, opened);
        }
    }
}

// ---------------------------------------------------------------------- laws

/// Whatever a member goes through, the cluster stays in order.
pub proof fn law_steps_keep_the_cluster_in_order(c: Cluster, m: u128, step: Step)
    requires
        c.inv(),
        c.possible(m, step),
    ensures
        c.after(m, step).inv(),
{
    lemma_steps_keep_order(c, m, step);
    lemma_steps_keep_terms_opened(c, m, step);
}

proof fn lemma_steps_keep_order(c: Cluster, m: u128, step: Step)
    requires
        c.inv(),
        c.possible(m, step),
    ensures
        c.after(m, step).ordered(),
        c.after(m, step).exchanges_in_order(),
{
    let after = c.after(m, step);
    lemma_standing(c, m);
    lemma_standing_goes_on(c, m);
    match step {
        Step::Campaign { election_timeout, now, kept } => {
            lemma_campaign(c, m, election_timeout, now, kept);
            assert(after.nodes =~= c.nodes.insert(m, after.nodes[m]));
            lemma_exchanges_kept(c, after, m);
        },
        Step::Consider { ask, now, kept } => {
            lemma_consider(c, m, ask, now, kept);
            assert(after.nodes =~= c.nodes.insert(m, after.nodes[m]));
            lemma_exchanges_kept(c, after, m);
        },
        Step::HearVote { peer, term, answer, now, opened } => {
            lemma_hear_vote(c, m, step);
            lemma_hear_vote_exchanges(c, m, step);
        },
        Step::LeadAlone { now, opened } => {
            lemma_not_empty(c, m);
            assert(c.is_quorum(c.nodes[m].votes));
            lemma_open(c, m, now, opened);
            lemma_open_exchanges(c, m, now, opened);
        },
        Step::Append { entry } => {
            lemma_append(c, m, entry);
            lemma_append_exchanges(c, m, entry);
        },
        Step::Receive { req, now, outcome } => lemma_receive(c, m, req, now, outcome),
        Step::HearAppend { .. } => {
            lemma_hear_append(c, m, step);
            lemma_hear_goes_on(c, m, step);
            assert(after.nodes =~= c.nodes.insert(m, after.nodes[m]));
            lemma_exchanges_kept(c, after, m);
        },
        Step::Advance => {
            lemma_advance(c, m);
            assert(after.nodes =~= c.nodes.insert(m, after.nodes[m]));
            lemma_exchanges_kept(c, after, m);
        },
        Step::Keep => {
            lemma_move(c, m, c.nodes[m], true);
            lemma_move_exchanges(c, m, c.nodes[m], true);
        },
        _ => {
            let next = after.nodes[m];
            assert(moves(c, m, next));
            lemma_move(c, m, next, false);
            lemma_move_exchanges(c, m, next, false);
        },
    }
}

/// A cluster whose members have just started for the first time is in order.
pub proof fn law_fresh_cluster_is_in_order(c: Cluster)
    requires
        c.composed(),
        forall|m: u128| #[trigger]
            c.nodes.contains_key(m) ==> {
                &&& c.nodes[m].role == Role::Follower
                &&& c.log_of(m).len() == 0
                &&& c.nodes[m].commit_index == 0
                &&& c.nodes[m].current_term == 0
                &&& c.nodes[m].voted_for is None
                &&& c.kept[m] == (0u64, None::<u128>)
            },
        c.ballots == Set::<Ballot>::empty(),
        c.runs == Map::<(u64, u128), Seq<EntryView>>::empty(),
        c.histories == Map::<u64, Seq<EntryView>>::empty(),
        c.acks == Set::<Ack>::empty(),
        c.commits == Set::<(u64, int)>::empty(),
        c.aligned == Set::<(u64, u128)>::empty(),
        c.refusals == Set::<(u64, u128, int)>::empty(),
    ensures
        c.inv(),
{
}

/// Whether what is on record in one cluster is on record in the other: votes,
/// logs that candidates ran with, leaders and their logs, what members said, and
/// what was committed.
pub open spec fn remembers(c: Cluster, d: Cluster) -> bool {
    &&& c.ballots.subset_of(d.ballots)
    &&& c.acks.subset_of(d.acks)
    &&& c.commits.subset_of(d.commits)
    &&& c.aligned.subset_of(d.aligned)
    &&& c.refusals.subset_of(d.refusals)
    &&& forall|t: u64, k: u128| #[trigger]
        c.runs.contains_key((t, k)) ==> d.runs.contains_key((t, k)) && d.runs[(t, k)] == c.runs[(
            t,
            k,
        )]
    &&& forall|t: u64| #[trigger]
        c.histories.contains_key(t) ==> {
            &&& d.histories.contains_key(t)
            &&& d.leaders[t] == c.leaders[t]
            &&& cluster::prefix(c.histories[t], d.histories[t])
        }
}

proof fn lemma_entry_remembers(c: Cluster, m: u128, entry: EntryView)
    requires
        c.histories.contains_key(c.nodes[m].current_term),
    ensures
        remembers(c, c.with_entry(m, entry)),
{
    let d = c.with_entry(m, entry);
    assert forall|t: u64| #[trigger] c.histories.contains_key(t) implies cluster::prefix(
        c.histories[t],
        d.histories[t],
    ) by {
        assert(d.histories[t].take(c.histories[t].len() as int) =~= c.histories[t]);
        assert(c.histories[t].take(c.histories[t].len() as int) =~= c.histories[t]);
    }
}

proof fn lemma_open_remembers(c: Cluster, m: u128, now: u64, opened: bool)
    requires
        c.ordered(),
        elected(c, m),
    ensures
        remembers(c, c.with_opening(m, now, opened)),
{
    let d = c.with_leader(m, now);
    lemma_no_leader_yet(c, m);
    lemma_entry_remembers(d, m, c.nodes[m].opening());
    let e = c.with_opening(m, now, opened);
    assert forall|t: u64| #[trigger] c.histories.contains_key(t) implies {
        &&& e.histories.contains_key(t)
        &&& e.leaders[t] == c.leaders[t]
        &&& cluster::prefix(c.histories[t], e.histories[t])
    } by {
        assert(d.histories.contains_key(t));
    }
    assert forall|t: u64, k: u128| #[trigger] c.runs.contains_key((t, k)) implies e.runs[(t, k)]
        == c.runs[(t, k)] by {}
}

/// What is on record stays there, whatever a member goes through: leaders' logs
/// only grow, and a term that had a leader has that leader for good.
pub proof fn law_what_is_on_record_stays(c: Cluster, m: u128, step: Step)
    requires
        c.inv(),
        c.possible(m, step),
    ensures
        remembers(c, c.after(m, step)),
{
    let d = c.after(m, step);
    match step {
        Step::HearVote { peer, term, answer, now, opened } => {
            if c.nodes[m].wins(peer, term, answer) {
                lemma_heard(c, m, peer, term, answer, now, opened);
                let heard = c.with_node(m, c.nodes[m].hear_vote(peer, term, answer, now));
                lemma_open_remembers(heard, m, now, opened);
                assert forall|t: u64| #[trigger] c.histories.contains_key(t) implies {
                    &&& d.histories.contains_key(t)
                    &&& d.leaders[t] == c.leaders[t]
                    &&& cluster::prefix(c.histories[t], d.histories[t])
                } by {
                    assert(heard.histories.contains_key(t));
                }
                assert forall|t: u64, k: u128| #[trigger]
                    c.runs.contains_key((t, k)) implies d.runs[(t, k)] == c.runs[(t, k)] by {}
            }
        },
        Step::LeadAlone { now, opened } => {
            lemma_not_empty(c, m);
            assert(c.is_quorum(c.nodes[m].votes));
            lemma_open_remembers(c, m, now, opened);
        },
        Step::Append { entry } => {
            lemma_entry_remembers(c, m, entry);
        },
        _ => {},
    }
}

/// A member that leads has opened its term, and a leader's log only grows.
proof fn lemma_steps_keep_terms_opened(c: Cluster, m: u128, step: Step)
    requires
        c.inv(),
        c.possible(m, step),
    ensures
        c.after(m, step).terms_opened(),
{
    let d = c.after(m, step);
    law_what_is_on_record_stays(c, m, step);
    assert forall|n: u128| #[trigger]
        d.nodes.contains_key(n) && d.nodes[n].role == Role::Leader implies d.runs[(
        d.nodes[n].current_term,
        n,
    )].len() < d.log_of(n).len() by {
        let t = d.nodes[n].current_term;
        if n != m {
            assert(d.nodes[n] == c.nodes[n]);
            assert(c.nodes.contains_key(n));
            assert(c.histories.contains_key(t));
            assert(c.runs.contains_key((t, n)));
        } else {
            lemma_leader_opened(c, m, step);
        }
    }
}

proof fn lemma_leader_opened(c: Cluster, m: u128, step: Step)
    requires
        c.inv(),
        c.possible(m, step),
        remembers(c, c.after(m, step)),
        c.after(m, step).nodes[m].role == Role::Leader,
    ensures
        ({
            let d = c.after(m, step);
            d.runs[(d.nodes[m].current_term, m)].len() < d.log_of(m).len()
        }),
{
    let d = c.after(m, step);
    let node = c.nodes[m];
    let t = d.nodes[m].current_term;
    match step {
        Step::HearVote { peer, term, answer, now, opened } if node.wins(peer, term, answer) => {
            lemma_heard(c, m, peer, term, answer, now, opened);
            assert(c.runs[(t, m)] == c.log_of(m));
            assert(d.log_of(m) =~= c.log_of(m).push(
                node.hear_vote(peer, term, answer, now).opening(),
            ));
        },
        Step::LeadAlone { now, opened } => {
            assert(c.runs[(t, m)] == c.log_of(m));
            assert(d.log_of(m) =~= c.log_of(m).push(node.opening()));
        },
        _ => {
            assert(node.role == Role::Leader && t == node.current_term);
            assert(c.histories.contains_key(t));
            assert(c.runs.contains_key((t, m)));
            if let Step::Append { entry } = step {
                assert(d.log_of(m) =~= c.log_of(m).push(entry));
            } else {
                assert(d.log_of(m) == c.log_of(m));
            }
        },
    }
}

/// A message that was sent can still be heard after whatever members go through:
/// a request for a vote, a vote that was granted, a leader's request, and the
/// answer of a member that took one in.
pub proof fn law_messages_can_come_late(
    c: Cluster,
    m: u128,
    step: Step,
    ask: VoteRequestView,
    ballot: Ballot,
    p: u128,
    req: AppendRequestView,
    ack: Ack,
)
    requires
        c.inv(),
        c.possible(m, step),
    ensures
        c.sent_vote(ask) ==> c.after(m, step).sent_vote(ask),
        c.ballots.contains(ballot) ==> c.after(m, step).ballots.contains(ballot),
        c.sent_append(p, req) ==> c.after(m, step).sent_append(p, req),
        c.acks.contains(ack) ==> c.after(m, step).acks.contains(ack),
{
    let d = c.after(m, step);
    law_what_is_on_record_stays(c, m, step);
    if c.sent_append(p, req) {
        let t = req.term;
        let prev = req.prev_log_index as int;
        let n = req.entries.len() as int;
        let old_history = c.histories[t];
        let history = d.histories[t];
        assert(c.histories.contains_key(t));
        assert(c.runs.contains_key((t, c.leaders[t])));
        lemma_same_shorter(old_history, history, old_history.len() as int, prev + n);
        assert(history.subrange(prev, prev + n) =~= old_history.subrange(prev, prev + n));
        let index = req.leader_commit as int;
        if index != 0 {
            let (u, i) = choose|u: u64, i: int|
                u <= t && index <= i && #[trigger] c.commits.contains((u, i))
                    && cluster::same_up_to(old_history, c.histories[u], index);
            assert(c.chosen(u, i));
            assert(d.commits.contains((u, i)));
            lemma_same_shorter(old_history, history, old_history.len() as int, index);
            lemma_same_shorter(
                c.histories[u],
                d.histories[u],
                c.histories[u].len() as int,
                index,
            );
            assert(cluster::same_up_to(history, d.histories[u], index));
        }
    }
}

/// No split brain: of two members that lead in the same term, both are the
/// same.
pub proof fn law_no_two_leaders_in_one_term(c: Cluster, a: u128, b: u128)
    requires
        c.inv(),
        c.nodes.contains_key(a),
        c.nodes.contains_key(b),
        c.nodes[a].role == Role::Leader,
        c.nodes[b].role == Role::Leader,
        c.nodes[a].current_term == c.nodes[b].current_term,
    ensures
        a == b,
{
}

/// Logs match: where two members have an entry of the same term at the same
/// index, they hold the same entries up to there.
pub proof fn law_logs_match(c: Cluster, a: u128, b: u128)
    requires
        c.inv(),
        c.nodes.contains_key(a),
        c.nodes.contains_key(b),
    ensures
        raft_laws::logs_match(c.nodes[a].log, c.nodes[b].log),
{
    assert(c.canonical(c.log_of(a)));
    assert(c.canonical(c.log_of(b)));
    assert forall|i: int|
        0 <= i < c.log_of(a).len() && i < c.log_of(b).len() && (
        #[trigger] c.nodes[a].log.entries[i]).term == (
        #[trigger] c.nodes[b].log.entries[i]).term implies c.nodes[a].log.entries.take(i + 1)
        == c.nodes[b].log.entries.take(i + 1) by {
        lemma_same_term_same_log(c, c.log_of(a), c.log_of(b), i);
    }
}

proof fn lemma_remembers_on(c: Cluster, d: Cluster, e: Cluster)
    requires
        remembers(c, d),
        remembers(d, e),
    ensures
        remembers(c, e),
{
    assert forall|t: u64, k: u128| #[trigger] c.runs.contains_key((t, k)) implies e.runs.contains_key(
        (t, k),
    ) && e.runs[(t, k)] == c.runs[(t, k)] by {
        assert(d.runs.contains_key((t, k)));
    }
    assert forall|t: u64| #[trigger] c.histories.contains_key(t) implies {
        &&& e.histories.contains_key(t)
        &&& e.leaders[t] == c.leaders[t]
        &&& cluster::prefix(c.histories[t], e.histories[t])
    } by {
        assert(d.histories.contains_key(t));
        lemma_same_shorter(
            d.histories[t],
            e.histories[t],
            d.histories[t].len() as int,
            c.histories[t].len() as int,
        );
    }
}

/// However many steps members go through, the cluster stays in order and what is
/// on record stays there.
pub proof fn law_all_steps_keep_the_record(c: Cluster, steps: Seq<(u128, Step)>)
    requires
        c.inv(),
        c.can_go_through(steps),
    ensures
        c.after_all(steps).inv(),
        remembers(c, c.after_all(steps)),
    decreases steps.len(),
{
    if steps.len() == 0 {
        assert forall|t: u64| #[trigger] c.histories.contains_key(t) implies cluster::prefix(
            c.histories[t],
            c.histories[t],
        ) by {}
    } else {
        let before = steps.drop_last();
        let d = c.after_all(before);
        law_all_steps_keep_the_record(c, before);
        law_steps_keep_the_cluster_in_order(d, steps.last().0, steps.last().1);
        law_what_is_on_record_stays(d, steps.last().0, steps.last().1);
        lemma_remembers_on(c, d, c.after_all(steps));
    }
}

/// What a leader has committed is in the log of every later leader.
pub proof fn law_later_leaders_have_what_is_committed(
    c: Cluster,
    term: u64,
    index: int,
    m: u128,
)
    requires
        c.inv(),
        c.commits.contains((term, index)),
        c.nodes.contains_key(m),
        c.nodes[m].role == Role::Leader,
        c.nodes[m].current_term >= term,
    ensures
        c.log_of(m).len() >= index,
        c.log_of(m).take(index) == c.histories[term].take(index),
{
    assert(c.chosen(term, index));
    lemma_chosen_is_choosable(c, term, index);
    let t = c.nodes[m].current_term;
    assert(c.histories.contains_key(t) && c.histories[t] == c.log_of(m));
    if term < t {
        assert(cluster::same_up_to(c.histories[t], c.histories[term], index));
    }
}

/// What is committed stays committed: what a leader has committed at one moment
/// is, however many steps later, in the log of whoever then leads in its term or
/// a later one.
pub proof fn law_what_is_committed_stays(
    c: Cluster,
    steps: Seq<(u128, Step)>,
    term: u64,
    index: int,
    m: u128,
)
    requires
        c.inv(),
        c.can_go_through(steps),
        c.commits.contains((term, index)),
        c.after_all(steps).nodes.contains_key(m),
        c.after_all(steps).nodes[m].role == Role::Leader,
        c.after_all(steps).nodes[m].current_term >= term,
    ensures
        c.after_all(steps).log_of(m).len() >= index,
        c.after_all(steps).log_of(m).take(index) == c.histories[term].take(index),
{
    let d = c.after_all(steps);
    law_all_steps_keep_the_record(c, steps);
    law_later_leaders_have_what_is_committed(d, term, index, m);
    assert(c.chosen(term, index));
    lemma_same_shorter(
        c.histories[term],
        d.histories[term],
        c.histories[term].len() as int,
        index,
    );
}

/// Members never disagree on what is committed: as far as the commit points of
/// two of them both reach, their logs are the same.
pub proof fn law_members_agree_on_what_is_committed(c: Cluster, a: u128, b: u128, index: int)
    requires
        c.inv(),
        c.nodes.contains_key(a),
        c.nodes.contains_key(b),
        0 <= index <= c.nodes[a].commit_index,
        index <= c.nodes[b].commit_index,
    ensures
        index <= c.log_of(a).len(),
        index <= c.log_of(b).len(),
        c.log_of(a).take(index) == c.log_of(b).take(index),
{
    if index == 0 {
        assert(c.log_of(a).take(0) =~= c.log_of(b).take(0));
    } else {
        let (t, i) = choose|t: u64, i: int|
            t <= c.nodes[a].current_term && c.nodes[a].commit_index <= i
                && #[trigger] c.commits.contains((t, i)) && cluster::same_up_to(
                c.log_of(a),
                c.histories[t],
                c.nodes[a].commit_index as int,
            );
        let (u, j) = choose|u: u64, j: int|
            u <= c.nodes[b].current_term && c.nodes[b].commit_index <= j
                && #[trigger] c.commits.contains((u, j)) && cluster::same_up_to(
                c.log_of(b),
                c.histories[u],
                c.nodes[b].commit_index as int,
            );
        lemma_same_shorter(c.log_of(a), c.histories[t], c.nodes[a].commit_index as int, index);
        lemma_same_shorter(c.log_of(b), c.histories[u], c.nodes[b].commit_index as int, index);
        assert(c.chosen(t, i) && c.chosen(u, j));
        lemma_chosen_is_choosable(c, t, i);
        lemma_chosen_is_choosable(c, u, j);
        if t < u {
            assert(cluster::same_up_to(c.histories[u], c.histories[t], i));
            lemma_same_shorter(c.histories[u], c.histories[t], i, index);
        } else if u < t {
            assert(cluster::same_up_to(c.histories[t], c.histories[u], j));
            lemma_same_shorter(c.histories[t], c.histories[u], j, index);
        }
    }
}

// ------------------------------------------------------------------ proposals

/// What is committed is not cut: a member that is about to replace a part of its
/// log has committed nothing of it.
pub proof fn law_what_is_committed_is_not_cut(c: Cluster, m: u128, req: AppendRequestView, now: u64)
    requires
        c.inv(),
        c.possible(m, Step::Receive { req, now, outcome: Outcome::Taken }),
    ensures
        c.nodes[m].commit_index <= c.log_of(m).len(),
        c.nodes[m].log.conflict(protocol::read(req.entries)) matches Some(index)
            ==> c.nodes[m].commit_index <= index,
{
    let node = c.nodes[m];
    let entries = protocol::read(req.entries);
    assert(c.known_committed(c.log_of(m), node.current_term, node.commit_index as int));
    if let Some(index) = node.log.conflict(entries) {
        let step = Step::Receive { req, now, outcome: Outcome::Cut };
        raft_laws::lemma_first_new(node.log, entries, 0);
        law_steps_keep_the_cluster_in_order(c, m, step);
        let d = c.after(m, step);
        assert(d.nodes.contains_key(m));
        assert(d.known_committed(
            d.log_of(m),
            d.nodes[m].current_term,
            d.nodes[m].commit_index as int,
        ));
        let own = c.log_of(m);
        assert(c.canonical(own));
        assert(own.len() > 0 ==> own[own.len() - 1].index == own.len());
        let k = node.log.first_new(entries, 0);
        let prev = req.prev_log_index as int;
        let history = c.histories[req.term];
        assert(c.canonical(history));
        assert(entries[k] == history[prev + k]);
        assert(history[prev + k].index == prev + k + 1);
        assert(node.log.cut(index) is Some);
        assert(d.log_of(m) == own.take(index as int));
    }
}

/// The entries of a request that was sent run on from the one before them.
proof fn lemma_sent_runs_on(c: Cluster, m: u128, req: AppendRequestView)
    requires
        c.logs_in_order(),
        c.sent_append(m, req),
    ensures
        raft_laws::runs_on(protocol::read(req.entries), req.prev_log_index as int),
{
    let history = c.histories[req.term];
    let prev = req.prev_log_index as int;
    let entries = protocol::read(req.entries);
    assert(c.canonical(history));
    assert forall|k: int| 0 <= k < entries.len() implies (#[trigger] entries[k]).index == prev + k
        + 1 by {
        assert(entries[k] == history[prev + k]);
    }
}

/// Whatever a member goes through, its pending proposals keep the entries that
/// they were written as.
pub proof fn law_steps_keep_entries_of_proposals(
    c: Cluster,
    m: u128,
    step: Step,
    owed: Map<u64, EntryView>,
)
    requires
        c.inv(),
        c.possible(m, step),
        !(step is Other),
        proposal_laws::pledged(c.nodes[m], owed),
    ensures
        proposal_laws::pledged(c.after(m, step).nodes[m], owed),
{
    if let Step::Receive { req, now, outcome } = step {
        lemma_receiving_keeps_entries(c, m, req, now, outcome, owed);
    } else {
        lemma_not_receiving_keeps_entries(c, m, step, owed);
    }
}

proof fn lemma_receiving_keeps_entries(
    c: Cluster,
    m: u128,
    req: AppendRequestView,
    now: u64,
    outcome: Outcome,
    owed: Map<u64, EntryView>,
)
    requires
        c.inv(),
        c.possible(m, Step::Receive { req, now, outcome }),
        proposal_laws::pledged(c.nodes[m], owed),
    ensures
        proposal_laws::pledged(
            c.after(m, Step::Receive { req, now, outcome }).nodes[m],
            owed,
        ),
{
    let node = c.nodes[m];
    let met = NodeView { kept: true, ..node.meet_leader(req, now) };
    assert(proposal_laws::pledged(met, owed));
    lemma_sent_runs_on(c, m, req);
    match outcome {
        Outcome::Taken => {
            law_what_is_committed_is_not_cut(c, m, req, now);
            proposal_laws::law_dropped_proposals_are_given_up(node, owed, req, now);
        },
        Outcome::Cut => {
            law_what_is_committed_is_not_cut(c, m, req, now);
            proposal_laws::law_cutting_keeps_entries(
                met,
                owed,
                met.log.conflict(protocol::read(req.entries)),
            );
        },
        _ => {},
    }
}

proof fn lemma_not_receiving_keeps_entries(
    c: Cluster,
    m: u128,
    step: Step,
    owed: Map<u64, EntryView>,
)
    requires
        c.possible(m, step),
        !(step is Other),
        !(step is Receive),
        proposal_laws::pledged(c.nodes[m], owed),
    ensures
        proposal_laws::pledged(c.after(m, step).nodes[m], owed),
{
    let node = c.nodes[m];
    match step {
        Step::HearVote { peer, term, answer, now, opened } => {
            let heard = node.hear_vote(peer, term, answer, now);
            assert(proposal_laws::pledged(heard, owed));
            if node.wins(peer, term, answer) {
                lemma_opening_keeps_entries(heard, owed, now, opened);
            }
        },
        Step::LeadAlone { now, opened } => lemma_opening_keeps_entries(node, owed, now, opened),
        Step::Append { entry } => lemma_writing_keeps_entries(node, owed, entry),
        _ => {},
    }
}

proof fn lemma_writing_keeps_entries(node: NodeView, owed: Map<u64, EntryView>, entry: EntryView)
    requires
        proposal_laws::pledged(node, owed),
        entry.index == node.log.entries.len() + 1,
    ensures
        proposal_laws::pledged(node.stored(node.log.plan(seq![entry])), owed),
{
    let after = node.stored(node.log.plan(seq![entry]));
    assert(after.log.entries =~= node.log.entries.push(entry));
    assert forall|k: int| 0 <= k < after.waiters.len() implies proposal_laws::stands(
        after.log,
        owed,
        #[trigger] after.waiters[k],
    ) by {
        assert(proposal_laws::stands(node.log, owed, node.waiters[k]));
    }
}

proof fn lemma_opening_keeps_entries(
    node: NodeView,
    owed: Map<u64, EntryView>,
    now: u64,
    opened: bool,
)
    requires
        proposal_laws::pledged(node, owed),
        node.log.entries.len() < u64::MAX,
    ensures
        opened ==> proposal_laws::pledged(
            node.lead(now).stored(node.lead(now).log.plan(seq![node.opening()])),
            owed,
        ),
        proposal_laws::pledged(
            node.lead(now).step_down(node.current_term, node.lead(now).last_heard),
            owed,
        ),
{
    let own = node.log.entries;
    assert(own.len() > 0 ==> own[own.len() - 1].index == own.len());
    assert(proposal_laws::pledged(node.lead(now), owed));
    lemma_writing_keeps_entries(node.lead(now), owed, node.opening());
}

/// A proposal that is handed out as done is safe: the entry that it was written
/// as stands in the logs of a majority, the member's own among the logs that
/// have it, is committed, and has been applied.
pub proof fn law_done_proposal_is_held_by_a_majority(
    c: Cluster,
    m: u128,
    owed: Map<u64, EntryView>,
    ticket: u64,
)
    requires
        c.inv(),
        c.nodes.contains_key(m),
        proposal_laws::pledged(c.nodes[m], owed),
        c.nodes[m].settled().contains(ticket),
    ensures
        owed.contains_key(ticket),
        c.nodes[m].log.entry(owed[ticket].index) == Some(owed[ticket]),
        owed[ticket].index <= c.nodes[m].commit_index,
        owed[ticket].index <= c.nodes[m].settle().last_applied,
        exists|q: Set<u128>| #[trigger]
            c.is_quorum(q) && (forall|v: u128| #[trigger]
                q.contains(v) ==> c.nodes[v].log.entry(owed[ticket].index) == Some(
                    owed[ticket],
                )),
{
    let node = c.nodes[m];
    proposal_laws::law_done_proposal_stands_in_the_log(node, owed, ticket);
    raft_laws::lemma_drain_frame(node, node.log.entries.len());
    let index = owed[ticket].index as int;
    let own = c.log_of(m);
    let reach = node.commit_index as int;
    assert(c.known_committed(own, node.current_term, reach));
    let (t, i) = choose|t: u64, i: int|
        t <= node.current_term && reach <= i && #[trigger] c.commits.contains((t, i))
            && cluster::same_up_to(own, c.histories[t], reach);
    assert(c.chosen(t, i));
    lemma_chosen_is_choosable(c, t, i);
    let q = choose|q: Set<u128>| #[trigger]
        c.is_quorum(q) && (forall|v: u128| #[trigger] q.contains(v) ==> c.acked(t, v, i));
    lemma_same_shorter(own, c.histories[t], reach, index);
    assert forall|v: u128| #[trigger] q.contains(v) implies c.nodes[v].log.entry(
        owed[ticket].index,
    ) == Some(owed[ticket]) by {
        assert(c.acked(t, v, i));
        assert(cluster::same_up_to(c.log_of(v), c.histories[t], i));
        lemma_same_shorter(c.log_of(v), c.histories[t], i, index);
        assert(c.log_of(v)[index - 1] == c.histories[t][index - 1]);
        assert(own[index - 1] == c.histories[t][index - 1]);
    }
}

// ------------------------------------------------------ what members really do

/// What a candidate sends out to ask for votes, having kept its own, is a
/// request that members can be asked with.
pub proof fn law_candidates_requests_are_sent(c: Cluster, m: u128)
    requires
        c.inv(),
        c.nodes.contains_key(m),
        c.nodes[m].role == Role::Candidate,
        c.ballots.contains(
            Ballot { term: c.nodes[m].current_term, voter: m, candidate: m },
        ),
    ensures
        c.sent_vote(c.nodes[m].vote_request()),
{
    let node = c.nodes[m];
    ids::law_id_text_reads_back(m);
    let own = c.log_of(m);
    assert(c.canonical(own));
    assert(own.len() > 0 ==> own[own.len() - 1].index == own.len());
    assert(node.vote_request().last_log_index == own.len());
}

/// What a leader sends out to a peer is a request that the peer can receive,
/// provided its entries fit in binary form: the leader goes on from where it has
/// grounds to, and a request with no entries goes out only to a peer that holds
/// nothing but the leader's log.
pub proof fn law_leaders_requests_are_sent(c: Cluster, m: u128, peer: u128, req: AppendRequestView)
    requires
        c.inv(),
        c.nodes.contains_key(m),
        c.nodes[m].role == Role::Leader,
        c.nodes[m].peers.contains(peer),
        raft_laws::all_writable(c.log_of(m)),
        c.nodes[m].request_for(peer) == Some(req),
    ensures
        c.sent_append(peer, req),
{
    let node = c.nodes[m];
    let own = c.log_of(m);
    let t = node.current_term;
    raft_laws::law_request_carries_the_leaders_entries(node, peer, req);
    assert(c.canonical(own));
    assert(own.len() > 0 ==> own[own.len() - 1].index == own.len());
    assert(c.histories[t] == own);
    let prev = req.prev_log_index as int;
    let sent = node.log.entries_from(
        node.next_for(peer),
        protocol::MAX_ENTRIES_PER_RPC as int,
    );
    assert(protocol::read(req.entries).len() == req.entries.len());
    assert(sent =~= own.subrange(prev, prev + sent.len()));
    assert(c.known_committed(own, t, node.commit_index as int));
    assert(peer != m) by {
        assert(node.peers.to_set().contains(peer));
    }
    assert(c.nodes[m].next_for(peer) - 1 == prev);
    assert(c.grounded(t, peer, prev));
}

/// The answer of a member to a leader's request says what the member is then on
/// record for: how far it holds the leader's log where it took the request in,
/// that it holds nothing else where it could not write the entries, and what it
/// refused to go on from.
pub proof fn law_answers_are_on_record(
    c: Cluster,
    m: u128,
    req: AppendRequestView,
    now: u64,
    outcome: Outcome,
)
    requires
        c.inv(),
        c.possible(m, Step::Receive { req, now, outcome }),
        req.term >= c.nodes[m].current_term,
    ensures
        ({
            let d = c.after(m, Step::Receive { req, now, outcome });
            &&& outcome is Taken ==> d.acks.contains(
                Ack {
                    term: req.term,
                    member: m,
                    index: d.nodes[m].log.last_index() as int,
                },
            )
            &&& outcome is Cut ==> d.aligned.contains((req.term, m))
            &&& outcome is Refused ==> d.refusals.contains(
                (req.term, m, req.prev_log_index as int),
            )
        }),
{
}

/// Applying, waiting, sending and noting answers touch nothing that the members
/// agree on.
pub proof fn law_everything_else_is_quiet(
    node: NodeView,
    ticket: u64,
    peer: u128,
    now: u64,
)
    ensures
        cluster::quiet(node, node.settle()),
        cluster::quiet(node, node.wait(ticket)),
        cluster::quiet(node, node.replicate()),
        cluster::quiet(node, NodeView { last_heard: now, ..node }),
        cluster::quiet(node, NodeView { inflight: node.inflight.remove(peer), ..node }),
{
    raft_laws::lemma_drain_frame(node, node.log.entries.len());
}

/// Taking a leader's request in as a whole is receiving it, and then applying
/// what is committed.
pub proof fn law_accepting_is_receiving_and_applying(
    node: NodeView,
    req: AppendRequestView,
    now: u64,
)
    requires
        node.admits(req),
    ensures
        node.accept(req, now) == Cluster::received(node, req, now, Outcome::Taken).settle(),
{
}

/// Members that have applied equally much of what is committed hold the same
/// queue.
pub proof fn law_members_agree_on_the_queue(c: Cluster, a: u128, b: u128)
    requires
        c.inv(),
        c.nodes.contains_key(a),
        c.nodes.contains_key(b),
        c.nodes[a].last_applied == c.nodes[b].last_applied,
        c.nodes[a].last_applied <= c.nodes[a].commit_index,
        c.nodes[b].last_applied <= c.nodes[b].commit_index,
        c.nodes[a].state == raft_laws::replay(
            QueueView::empty(),
            c.nodes[a].log,
            c.nodes[a].last_applied as int,
        ),
        c.nodes[b].state == raft_laws::replay(
            QueueView::empty(),
            c.nodes[b].log,
            c.nodes[b].last_applied as int,
        ),
    ensures
        c.nodes[a].state == c.nodes[b].state,
{
    law_members_agree_on_what_is_committed(c, a, b, c.nodes[a].last_applied as int);
    raft_laws::law_replicas_agree(c.nodes[a], c.nodes[b], QueueView::empty());
}

} // verus!
