//! Counting what a majority shares.
use vstd::prelude::*;

verus! {

/// How many of `n` peers and the member itself make a majority.
pub open spec fn majority(n: nat) -> nat {
    (n + 1) / 2 + 1
}

/// How many of the positions are at `x` or beyond.
pub open spec fn reached(positions: Seq<u64>, x: u64) -> nat
    decreases positions.len(),
{
    if positions.len() == 0 {
        0
    } else {
        reached(positions.drop_last(), x) + (if positions.last() >= x {
            1nat
        } else {
            0nat
        })
    }
}

/// Whether `x` is the furthest position that `quorum` of the positions reach.
pub open spec fn furthest_shared(positions: Seq<u64>, quorum: nat, x: u64) -> bool {
    &&& reached(positions, x) >= quorum
    &&& forall|y: u64| y > x ==> #[trigger] reached(positions, y) < quorum
}

/// The furthest position that `quorum` of the positions reach.
pub open spec fn shared_position(positions: Seq<u64>, quorum: nat) -> u64 {
    choose|x: u64| furthest_shared(positions, quorum, x)
}

/// How many of the peers satisfy `p`.
pub open spec fn count(peers: Seq<u128>, p: spec_fn(u128) -> bool) -> nat
    decreases peers.len(),
{
    if peers.len() == 0 {
        0
    } else {
        count(peers.drop_last(), p) + (if p(peers.last()) {
            1nat
        } else {
            0nat
        })
    }
}

/// Of the positions at `x` or beyond there is a nearest one.
pub proof fn lemma_nearest(positions: Seq<u64>, x: u64) -> (j: int)
    requires
        reached(positions, x) > 0,
    ensures
        0 <= j < positions.len(),
        positions[j] >= x,
        forall|k: int|
            0 <= k < positions.len() && #[trigger] positions[k] >= x ==> positions[k]
                >= positions[j],
    decreases positions.len(),
{
    let last = positions.len() - 1;
    let front = positions.drop_last();
    if reached(front, x) == 0 {
        lemma_none_reached(front, x);
        assert forall|k: int| 0 <= k < positions.len() && #[trigger] positions[k] >= x implies
            positions[k] >= positions[last] by {
            if k < last {
                assert(front[k] == positions[k]);
            }
        }
        last
    } else {
        let j = lemma_nearest(front, x);
        let nearest = if positions[last] >= x && positions[last] < positions[j] {
            last
        } else {
            j
        };
        assert forall|k: int| 0 <= k < positions.len() && #[trigger] positions[k] >= x implies
            positions[k] >= positions[nearest] by {
            if k < last {
                assert(front[k] == positions[k]);
            }
        }
        nearest
    }
}

proof fn lemma_none_reached(positions: Seq<u64>, x: u64)
    requires
        reached(positions, x) == 0,
    ensures
        forall|k: int| 0 <= k < positions.len() ==> #[trigger] positions[k] < x,
    decreases positions.len(),
{
    if positions.len() > 0 {
        let front = positions.drop_last();
        lemma_none_reached(front, x);
        assert forall|k: int| 0 <= k < positions.len() implies #[trigger] positions[k] < x by {
            if k < positions.len() - 1 {
                assert(front[k] == positions[k]);
            }
        }
    }
}

/// Where whoever is at `x` is also at `y`, at least as many are at `y`.
pub proof fn lemma_reached_monotone(positions: Seq<u64>, x: u64, y: u64)
    requires
        forall|k: int|
            0 <= k < positions.len() && #[trigger] positions[k] >= x ==> positions[k] >= y,
    ensures
        reached(positions, x) <= reached(positions, y),
    decreases positions.len(),
{
    if positions.len() > 0 {
        let front = positions.drop_last();
        assert forall|k: int| 0 <= k < front.len() && #[trigger] front[k] >= x implies front[k]
            >= y by {
            assert(positions[k] == front[k]);
        }
        lemma_reached_monotone(front, x, y);
        assert(positions[positions.len() - 1] == positions.last());
    }
}

/// Everybody is at 0 or beyond.
pub proof fn lemma_all_reach_zero(positions: Seq<u64>)
    ensures
        reached(positions, 0) == positions.len(),
    decreases positions.len(),
{
    if positions.len() > 0 {
        lemma_all_reach_zero(positions.drop_last());
    }
}

/// There is one furthest shared position.
pub proof fn lemma_shared_position(positions: Seq<u64>, quorum: nat, x: u64)
    requires
        furthest_shared(positions, quorum, x),
    ensures
        shared_position(positions, quorum) == x,
{
    let y = shared_position(positions, quorum);
    assert(furthest_shared(positions, quorum, y));
    assert(reached(positions, x) >= quorum);
    assert(reached(positions, y) >= quorum);
}

/// How many of the positions are at `x` or beyond.
fn count_reached(positions: &Vec<u64>, x: u64) -> (r: usize)
    ensures
        r == reached(positions@, x),
{
    let mut n: usize = 0;
    let mut i: usize = 0;
    assert(positions@.take(0) =~= Seq::empty());
    while i < positions.len()
        invariant
            i <= positions@.len(),
            n <= i,
            n == reached(positions@.take(i as int), x),
        decreases positions@.len() - i,
    {
        assert(positions@.take(i + 1).drop_last() =~= positions@.take(i as int));
        if positions[i] >= x {
            n = n + 1;
        }
        i = i + 1;
    }
    assert(positions@.take(i as int) =~= positions@);
    n
}

/// The furthest position that `quorum` of the positions reach.
pub fn find_shared(positions: &Vec<u64>, quorum: usize) -> (r: u64)
    requires
        1 <= quorum <= positions@.len(),
    ensures
        furthest_shared(positions@, quorum as nat, r),
        r == shared_position(positions@, quorum as nat),
{
    let mut best: u64 = 0;
    let mut i: usize = 0;
    proof {
        lemma_all_reach_zero(positions@);
    }
    while i < positions.len()
        invariant
            i <= positions@.len(),
            reached(positions@, best) >= quorum,
            forall|k: int|
                0 <= k < i && #[trigger] positions@[k] > best ==> reached(
                    positions@,
                    positions@[k],
                ) < quorum,
        decreases positions@.len() - i,
    {
        let x = positions[i];
        if x > best && count_reached(positions, x) >= quorum {
            best = x;
        }
        i = i + 1;
    }
    proof {
        assert forall|y: u64| y > best implies #[trigger] reached(positions@, y)
            < quorum by {
            if reached(positions@, y) >= quorum {
                let j = lemma_nearest(positions@, y);
                lemma_reached_monotone(positions@, y, positions@[j]);
            }
        }
        lemma_shared_position(positions@, quorum as nat, best);
    }
    best
}

/// Counting goes one by one: one more position counts if it is far enough, one more
/// peer if it is meant, and with none there is nothing to count.
pub proof fn law_counting_goes_one_by_one(
    positions: Seq<u64>,
    position: u64,
    x: u64,
    peers: Seq<u128>,
    peer: u128,
    p: spec_fn(u128) -> bool,
)
    ensures
        reached(Seq::empty(), x) == 0,
        position >= x ==> reached(positions.push(position), x) == reached(positions, x) + 1,
        position < x ==> reached(positions.push(position), x) == reached(positions, x),
        count(Seq::empty(), p) == 0,
        p(peer) ==> count(peers.push(peer), p) == count(peers, p) + 1,
        !p(peer) ==> count(peers.push(peer), p) == count(peers, p),
{
    assert(positions.push(position).drop_last() =~= positions);
    assert(peers.push(peer).drop_last() =~= peers);
}

/// The furthest shared position is reached by as many as it takes, and nothing
/// beyond it is.
pub proof fn law_furthest_shared_position(positions: Seq<u64>, quorum: nat, x: u64, y: u64)
    requires
        furthest_shared(positions, quorum, x),
    ensures
        reached(positions, x) >= quorum,
        y > x ==> reached(positions, y) < quorum,
        y <= x ==> reached(positions, y) >= quorum,
        shared_position(positions, quorum) == x,
{
    lemma_shared_position(positions, quorum, x);
    if y <= x {
        lemma_reached_monotone(positions, x, y);
    }
}

} // verus!
