use vstd::prelude::*;

use crate::types::{HNSWLevel, MetricResult, NodeProp, VectorId};
use std::sync::Arc;

verus! {

/// Handle to a node that may still live on disk. All links between nodes go
/// through such handles; the external lazy-load registry resolves the key to
/// a materialized node.
#[derive(Clone, Copy, PartialEq, Eq, Structural, Debug)]
pub struct SharedNode {
    pub key: u64,
}

/// One neighbor slot payload: the neighbor's handle and its similarity score.
pub type Neighbor = (SharedNode, MetricResult);

/// How many versions a node's copy-on-write version chain can hold.
pub const VERSION_CAPACITY: usize = 4;

/// Bounded, ordered list of handles to older or newer versions of the same
/// logical node. Its capacity is fixed at `VERSION_CAPACITY`; what to do when
/// a further version arrives is decided by the surrounding persistence layer,
/// so `push` demands free room.
pub struct VersionChain {
    items: Vec<SharedNode>,
}

impl View for VersionChain {
    type V = Seq<SharedNode>;

    closed spec fn view(&self) -> Seq<SharedNode> {
        self.items@
    }
}

impl VersionChain {
    #[verifier::type_invariant]
    spec fn inv(self) -> bool {
        self.items@.len() <= VERSION_CAPACITY
    }

    /// An empty version chain.
    pub fn new() -> (chain: VersionChain)
        ensures
            chain@ == Seq::<SharedNode>::empty(),
    {
        VersionChain { items: Vec::new() }
    }

    /// The chain never holds more than `VERSION_CAPACITY` handles, whatever
    /// was done to it.
    pub fn len(&self) -> (n: usize)
        ensures
            n == self@.len(),
            n <= VERSION_CAPACITY,
    {
        proof {
            use_type_invariant(self);
        }
        self.items.len()
    }

    /// Appends a version handle; the caller must have kept room.
    pub fn push(&mut self, item: SharedNode)
        requires
            old(self)@.len() < VERSION_CAPACITY,
        ensures
            final(self)@ == old(self)@.push(item),
    {
        let mut items: Vec<SharedNode> = Vec::new();
        core::mem::swap(&mut items, &mut self.items);
        items.push(item);
        core::mem::swap(&mut items, &mut self.items);
    }

    /// The handle at position `i`, or `None` past the end.
    pub fn get(&self, i: usize) -> (r: Option<SharedNode>)
        ensures
            r == if i < self@.len() {
                Some(self@[i as int])
            } else {
                None::<SharedNode>
            },
    {
        if i < self.items.len() {
            Some(self.items[i])
        } else {
            None
        }
    }
}

/// Does a probe of a slot holding `slot` accept a candidate with score
/// `score`? Empty slots accept anything; an occupied slot yields only to a
/// strictly better score.
pub open spec fn slot_accepts(slot: Option<Neighbor>, score: u64) -> bool {
    match slot {
        None => true,
        Some(e) => score > e.1.0,
    }
}

/// The slot a candidate with score `score` lands in when probing `budget`
/// slots of `s`, starting at `idx` and wrapping around: the first probed slot
/// that accepts, or `None` when every probed slot refuses.
pub open spec fn probe_slot(
    s: Seq<Option<Neighbor>>,
    idx: int,
    score: u64,
    budget: nat,
) -> Option<int>
    decreases budget,
{
    if budget == 0 || s.len() == 0 {
        None
    } else if slot_accepts(s[idx], score) {
        Some(idx)
    } else {
        probe_slot(s, (idx + 1) % (s.len() as int), score, (budget - 1) as nat)
    }
}

/// A slot returned by `probe_slot` is in bounds and accepts the score.
pub proof fn lemma_probe_slot_accepts(s: Seq<Option<Neighbor>>, idx: int, score: u64, budget: nat)
    requires
        0 <= idx < s.len(),
    ensures
        match probe_slot(s, idx, score, budget) {
            Some(i) => 0 <= i < s.len() && slot_accepts(s[i], score),
            None => true,
        },
    decreases budget,
{
    if budget > 0 && !slot_accepts(s[idx], score) {
        lemma_probe_slot_accepts(s, (idx + 1) % (s.len() as int), score, (budget - 1) as nat);
    }
}

/// One vertex of the hierarchical graph: fixed-capacity neighbor slots plus
/// single parent/child links and a bounded version chain.
pub struct ProbNode {
    pub hnsw_level: HNSWLevel,
    pub prop: Arc<NodeProp>,
    pub neighbors: Vec<Option<Neighbor>>,
    pub parent: Option<SharedNode>,
    pub child: Option<SharedNode>,
    pub versions: VersionChain,
}

impl ProbNode {
    /// The slot where a probe for `neighbor_id` starts: the node's own hash
    /// combined with the candidate's, spread over the slots.
    pub open spec fn spec_initial_index(self, neighbor_id: VectorId) -> int
        recommends
            self.neighbors@.len() > 0,
    {
        ((self.prop.id.0 ^ neighbor_id.0) % (self.neighbors@.len() as u64)) as int
    }

    /// How many slots one insertion may probe: half the capacity.
    pub open spec fn spec_probe_budget(self) -> nat {
        (self.neighbors@.len() / 2) as nat
    }

    /// A node with `neighbors_count` empty slots and an empty version chain.
    pub fn new(
        hnsw_level: HNSWLevel,
        prop: Arc<NodeProp>,
        parent: Option<SharedNode>,
        child: Option<SharedNode>,
        neighbors_count: usize,
    ) -> (node: ProbNode)
        ensures
            node.hnsw_level == hnsw_level,
            node.prop == prop,
            node.parent == parent,
            node.child == child,
            node.neighbors@.len() == neighbors_count,
            forall|i: int| 0 <= i < neighbors_count ==> node.neighbors@[i] is None,
            node.versions@ == Seq::<SharedNode>::empty(),
    {
        let mut neighbors: Vec<Option<Neighbor>> = Vec::new();
        let mut i: usize = 0;
        while i < neighbors_count
            invariant
                i <= neighbors_count,
                neighbors@.len() == i,
                forall|j: int| 0 <= j < i ==> neighbors@[j] is None,
            decreases neighbors_count - i,
        {
            neighbors.push(None);
            i = i + 1;
        }
        ProbNode { hnsw_level, prop, neighbors, parent, child, versions: VersionChain::new() }
    }

    /// A node over a pre-built neighbor array (used when copy-constructing a
    /// new version from a snapshot of an old one's adjacency).
    pub fn new_with_neighbors(
        hnsw_level: HNSWLevel,
        prop: Arc<NodeProp>,
        neighbors: Vec<Option<Neighbor>>,
        parent: Option<SharedNode>,
        child: Option<SharedNode>,
    ) -> (node: ProbNode)
        ensures
            node.hnsw_level == hnsw_level,
            node.prop == prop,
            node.neighbors@ == neighbors@,
            node.parent == parent,
            node.child == child,
            node.versions@ == Seq::<SharedNode>::empty(),
    {
        ProbNode { hnsw_level, prop, neighbors, parent, child, versions: VersionChain::new() }
    }

    /// A node over a pre-built neighbor array and an explicit version chain.
    pub fn new_with_neighbors_and_versions(
        hnsw_level: HNSWLevel,
        prop: Arc<NodeProp>,
        neighbors: Vec<Option<Neighbor>>,
        parent: Option<SharedNode>,
        child: Option<SharedNode>,
        versions: VersionChain,
    ) -> (node: ProbNode)
        ensures
            node.hnsw_level == hnsw_level,
            node.prop == prop,
            node.neighbors@ == neighbors@,
            node.parent == parent,
            node.child == child,
            node.versions@ == versions@,
    {
        ProbNode { hnsw_level, prop, neighbors, parent, child, versions }
    }

    /// The current parent handle, if one is installed.
    pub fn get_parent(&self) -> (r: Option<SharedNode>)
        ensures
            r == self.parent,
    {
        self.parent
    }

    /// Installs `parent` as the single current parent, displacing any
    /// previous one; everything else is untouched.
    pub fn set_parent(&mut self, parent: SharedNode)
        ensures
            final(self).parent == Some(parent),
            final(self).child == old(self).child,
            final(self).neighbors@ == old(self).neighbors@,
            final(self).hnsw_level == old(self).hnsw_level,
            final(self).prop == old(self).prop,
            final(self).versions@ == old(self).versions@,
    {
        self.parent = Some(parent);
    }

    /// The current child handle, if one is installed.
    pub fn get_child(&self) -> (r: Option<SharedNode>)
        ensures
            r == self.child,
    {
        self.child
    }

    /// Installs `child` as the single current child, displacing any previous
    /// one; everything else is untouched.
    pub fn set_child(&mut self, child: SharedNode)
        ensures
            final(self).child == Some(child),
            final(self).parent == old(self).parent,
            final(self).neighbors@ == old(self).neighbors@,
            final(self).hnsw_level == old(self).hnsw_level,
            final(self).prop == old(self).prop,
            final(self).versions@ == old(self).versions@,
    {
        self.child = Some(child);
    }

    /// The identifier of the vector this node stands for.
    pub fn get_id(&self) -> (id: &VectorId)
        ensures
            id == self.prop.id,
    {
        &self.prop.id
    }

    /// Tries to place `neighbor_node` with score `dist` into a slot: starting
    /// at the index derived from the two identity hashes, up to half the
    /// capacity of slots are probed with wrap-around; the first slot that is
    /// empty or holds a strictly lower score receives the candidate, and the
    /// displaced occupant (if any) is released. When every probed slot
    /// refuses, the candidate is discarded — by design, not as a fault.
    ///
    /// A slot's score therefore never decreases, and the slot count never
    /// changes.
    pub fn add_neighbor(&mut self, neighbor_node: SharedNode, neighbor_id: &VectorId, dist: MetricResult)
        requires
            old(self).neighbors@.len() >= 1,
        ensures
            ({
                let placed = probe_slot(
                    old(self).neighbors@,
                    old(self).spec_initial_index(*neighbor_id),
                    dist.0,
                    old(self).spec_probe_budget(),
                );
                match placed {
                    Some(i) => final(self).neighbors@ == old(self).neighbors@.update(
                        i,
                        Some((neighbor_node, dist)),
                    ),
                    None => final(self).neighbors@ == old(self).neighbors@,
                }
            }),
            final(self).neighbors@.len() == old(self).neighbors@.len(),
            forall|i: int|
                0 <= i < old(self).neighbors@.len() ==> (final(self).neighbors@[i] == old(
                    self,
                ).neighbors@[i] || (final(self).neighbors@[i] == Some((neighbor_node, dist))
                    && slot_accepts(old(self).neighbors@[i], dist.0))),
            final(self).hnsw_level == old(self).hnsw_level,
            final(self).prop == old(self).prop,
            final(self).parent == old(self).parent,
            final(self).child == old(self).child,
            final(self).versions@ == old(self).versions@,
    {
        let capacity = self.neighbors.len();
        let initial_idx = ((self.get_id().get_hash() ^ neighbor_id.get_hash()) % (capacity
            as u64)) as usize;
        let budget = capacity / 2;
        let ghost orig = self.neighbors@;
        let ghost start = self.spec_initial_index(*neighbor_id);

        let mut current_idx = initial_idx;
        let mut probe: usize = 0;
        let mut inserted = false;

        while probe < budget && !inserted
            invariant
                capacity == orig.len(),
                1 <= capacity,
                budget == capacity / 2,
                probe <= budget,
                current_idx < capacity,
                self.hnsw_level == old(self).hnsw_level,
                self.prop == old(self).prop,
                self.parent == old(self).parent,
                self.child == old(self).child,
                self.versions@ == old(self).versions@,
                !inserted ==> self.neighbors@ == orig,
                !inserted ==> probe_slot(orig, start, dist.0, budget as nat) == probe_slot(
                    orig,
                    current_idx as int,
                    dist.0,
                    (budget - probe) as nat,
                ),
                inserted ==> ({
                    let placed = probe_slot(orig, start, dist.0, budget as nat);
                    placed is Some && self.neighbors@ == orig.update(
                        placed->Some_0,
                        Some((neighbor_node, dist)),
                    )
                }),
            decreases budget - probe,
        {
            let slot = self.neighbors[current_idx];
            let accepts = match slot {
                None => true,
                Some(e) => dist.get_value() > e.1.get_value(),
            };
            if accepts {
                assert(probe_slot(orig, current_idx as int, dist.0, (budget - probe) as nat)
                    == Some(current_idx as int));
                self.neighbors[current_idx] = Some((neighbor_node, dist));
                inserted = true;
            } else {
                proof {
                    let len = orig.len() as int;
                    let c = current_idx as int;
                    let next: int = if c + 1 == len {
                        0
                    } else {
                        c + 1
                    };
                    assert((c + 1) % len == next) by (nonlinear_arith)
                        requires
                            0 <= c < len,
                            next == if c + 1 == len {
                                0int
                            } else {
                                c + 1
                            },
                    ;
                    assert(probe_slot(orig, c, dist.0, (budget - probe) as nat) == probe_slot(
                        orig,
                        next,
                        dist.0,
                        (budget - probe - 1) as nat,
                    ));
                }
                current_idx = if current_idx + 1 == capacity {
                    0
                } else {
                    current_idx + 1
                };
            }
            probe = probe + 1;
        }
        proof {
            if !inserted {
                assert(probe_slot(orig, start, dist.0, budget as nat) is None);
            }
            lemma_probe_slot_accepts(orig, start, dist.0, budget as nat);
        }
    }

    /// A snapshot of the occupied slots' handles, in slot order. There are
    /// never more of them than the node has slots.
    pub fn get_neighbors(&self) -> (r: Vec<SharedNode>)
        ensures
            r@ == occupied_handles(self.neighbors@),
            r@.len() <= self.neighbors@.len(),
    {
        proof {
            lemma_occupied_handles_len(self.neighbors@);
        }
        let mut out: Vec<SharedNode> = Vec::new();
        let mut i: usize = 0;
        while i < self.neighbors.len()
            invariant
                i <= self.neighbors@.len(),
                out@ == occupied_handles(self.neighbors@.take(i as int)),
            decreases self.neighbors@.len() - i,
        {
            proof {
                assert(self.neighbors@.take(i + 1).drop_last() =~= self.neighbors@.take(i as int));
                assert(self.neighbors@.take(i + 1).last() == self.neighbors@[i as int]);
            }
            match &self.neighbors[i] {
                Some(e) => {
                    out.push(e.0);
                },
                None => {},
            }
            i = i + 1;
        }
        proof {
            assert(self.neighbors@.take(self.neighbors@.len() as int) =~= self.neighbors@);
        }
        out
    }

    /// An independently owned copy of the whole neighbor slot array,
    /// snapshot of this node's adjacency for a new copy-on-write version.
    pub fn clone_neighbors(&self) -> (r: Vec<Option<Neighbor>>)
        ensures
            r@ == self.neighbors@,
    {
        let mut out: Vec<Option<Neighbor>> = Vec::new();
        let mut i: usize = 0;
        while i < self.neighbors.len()
            invariant
                i <= self.neighbors@.len(),
                out@ == self.neighbors@.take(i as int),
            decreases self.neighbors@.len() - i,
        {
            out.push(self.neighbors[i]);
            proof {
                assert(out@ =~= self.neighbors@.take(i + 1));
            }
            i = i + 1;
        }
        proof {
            assert(self.neighbors@.take(self.neighbors@.len() as int) =~= self.neighbors@);
        }
        out
    }

    /// Direct view of the neighbor slot array.
    pub fn get_neighbors_raw(&self) -> (r: &Vec<Option<Neighbor>>)
        ensures
            r@ == self.neighbors@,
    {
        &self.neighbors
    }
}

/// The handles of the occupied slots of `s`, in slot order.
pub open spec fn occupied_handles(s: Seq<Option<Neighbor>>) -> Seq<SharedNode>
    decreases s.len(),
{
    if s.len() == 0 {
        Seq::empty()
    } else {
        let prefix = occupied_handles(s.drop_last());
        match s.last() {
            Some(e) => prefix.push(e.0),
            None => prefix,
        }
    }
}

/// Each slot contributes at most one handle.
pub proof fn lemma_occupied_handles_len(s: Seq<Option<Neighbor>>)
    ensures
        occupied_handles(s).len() <= s.len(),
    decreases s.len(),
{
    if s.len() > 0 {
        lemma_occupied_handles_len(s.drop_last());
    }
}

} // verus!
