//! Which members can reach each other.
use std::collections::HashSet;

pub use crate::ids::NodeId;
use vstd::prelude::*;

verus! {

broadcast use vstd::std_specs::hash::group_hash_axioms;

/// A cluster wired by direct calls instead of sockets, so that messages can be
/// dropped, members isolated and partitions healed at will. It knows who is
/// there and who is cut off; whoever delivers a message asks it for the way.
#[derive(Debug)]
pub struct MemoryCluster {
    nodes: HashSet<NodeId>,
    isolated: HashSet<NodeId>,
}

/// What a [`MemoryCluster`] knows.
pub struct MemoryClusterView {
    pub nodes: Set<u128>,
    pub isolated: Set<u128>,
}

impl View for MemoryCluster {
    type V = MemoryClusterView;

    closed spec fn view(&self) -> MemoryClusterView {
        MemoryClusterView { nodes: self.nodes@, isolated: self.isolated@ }
    }
}

impl MemoryClusterView {
    pub open spec fn empty() -> MemoryClusterView {
        MemoryClusterView { nodes: Set::empty(), isolated: Set::empty() }
    }

    /// Whether a message gets from one member to the other.
    pub open spec fn connects(self, from: u128, to: u128) -> bool {
        !self.isolated.contains(from) && !self.isolated.contains(to) && self.nodes.contains(to)
    }
}

impl Default for MemoryCluster {
    fn default() -> (r: Self)
        ensures
            r@ == MemoryClusterView::empty(),
    {
        MemoryCluster { nodes: HashSet::new(), isolated: HashSet::new() }
    }
}

impl MemoryCluster {
    /// A cluster that nobody has joined.
    pub fn new() -> (r: Self)
        ensures
            r@ == MemoryClusterView::empty(),
    {
        MemoryCluster::default()
    }

    /// Lets a member join.
    pub fn register(&mut self, id: NodeId)
        ensures
            final(self)@ == (MemoryClusterView {
                nodes: old(self)@.nodes.insert(id),
                ..old(self)@
            }),
    {
        self.nodes.insert(id);
    }

    /// Cuts a member off in both directions.
    pub fn isolate(&mut self, id: NodeId)
        ensures
            final(self)@ == (MemoryClusterView {
                isolated: old(self)@.isolated.insert(id),
                ..old(self)@
            }),
    {
        self.isolated.insert(id);
    }

    /// Connects a member again.
    pub fn heal(&mut self, id: NodeId)
        ensures
            final(self)@ == (MemoryClusterView {
                isolated: old(self)@.isolated.remove(id),
                ..old(self)@
            }),
    {
        self.isolated.remove(&id);
    }

    /// The member that a message from one to another arrives at, if it gets
    /// there.
    pub fn route(&self, from: NodeId, to: NodeId) -> (r: Option<NodeId>)
        ensures
            r == (if self@.connects(from, to) {
                Some(to)
            } else {
                None
            }),
    {
        if self.isolated.contains(&from) || self.isolated.contains(&to) {
            return None;
        }
        if self.nodes.contains(&to) {
            Some(to)
        } else {
            None
        }
    }
}

/// A member that is cut off neither sends nor receives, whoever the other is,
/// and once connected again it is as if it never had been.
pub proof fn law_isolation_cuts_both_ways_until_healed(
    cluster: MemoryClusterView,
    id: u128,
    other: u128,
)
    ensures
        ({
            let cut = MemoryClusterView { isolated: cluster.isolated.insert(id), ..cluster };
            let healed = MemoryClusterView { isolated: cut.isolated.remove(id), ..cut };
            &&& !cut.connects(id, other)
            &&& !cut.connects(other, id)
            &&& !cluster.isolated.contains(id) ==> healed == cluster
        }),
{
    let cut = cluster.isolated.insert(id);
    if !cluster.isolated.contains(id) {
        assert(cut.remove(id) =~= cluster.isolated);
    }
}

/// A message gets through whenever nothing is in its way: the receiver is there and
/// neither of the two is cut off. Who else is there or cut off does not matter.
pub proof fn law_message_gets_through_unless_cut_off(
    cluster: MemoryClusterView,
    from: u128,
    to: u128,
)
    ensures
        ({
            let joined = MemoryClusterView { nodes: cluster.nodes.insert(to), ..cluster };
            &&& joined.connects(from, to) <==> !cluster.isolated.contains(from)
                && !cluster.isolated.contains(to)
            &&& !cluster.nodes.contains(to) ==> !cluster.connects(from, to)
            &&& !MemoryClusterView::empty().connects(from, to)
            &&& MemoryClusterView::empty().isolated == Set::<u128>::empty()
            &&& MemoryClusterView::empty().nodes == Set::<u128>::empty()
            &&& cluster.nodes.contains(to) && !cluster.isolated.contains(from)
                && !cluster.isolated.contains(to) ==> cluster.connects(from, to)
        }),
{
}

} // verus!
