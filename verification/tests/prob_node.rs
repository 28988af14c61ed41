use prob_graph::prob_node::{ProbNode, SharedNode, VersionChain, VERSION_CAPACITY};
use prob_graph::types::{HNSWLevel, MetricResult, NodeProp, VectorId};
use std::sync::Arc;

fn prop(id: u64) -> Arc<NodeProp> {
    Arc::new(NodeProp { id: VectorId(id), payload: Vec::new() })
}

fn handle(key: u64) -> SharedNode {
    SharedNode { key }
}

#[test]
fn new_node_starts_empty() {
    let node = ProbNode::new(HNSWLevel(3), prop(42), None, None, 8);
    assert_eq!(node.hnsw_level, HNSWLevel(3));
    assert_eq!(node.get_id().0, 42);
    assert_eq!(node.get_parent(), None);
    assert_eq!(node.get_child(), None);
    assert_eq!(node.get_neighbors_raw().len(), 8);
    assert!(node.get_neighbors_raw().iter().all(|slot| slot.is_none()));
    assert_eq!(node.get_neighbors().len(), 0);
}

#[test]
fn parent_round_trip() {
    let mut node = ProbNode::new(HNSWLevel(1), prop(1), None, None, 4);
    node.set_parent(handle(7));
    assert_eq!(node.get_parent(), Some(handle(7)));
    node.set_parent(handle(9));
    assert_eq!(node.get_parent(), Some(handle(9)));
    assert_eq!(node.get_child(), None);
}

#[test]
fn child_round_trip() {
    let mut node = ProbNode::new(HNSWLevel(1), prop(1), None, None, 4);
    node.set_child(handle(11));
    assert_eq!(node.get_child(), Some(handle(11)));
    node.set_child(handle(13));
    assert_eq!(node.get_child(), Some(handle(13)));
    assert_eq!(node.get_parent(), None);
}

#[test]
fn constructors_install_links() {
    let node = ProbNode::new(HNSWLevel(0), prop(5), Some(handle(1)), Some(handle(2)), 2);
    assert_eq!(node.get_parent(), Some(handle(1)));
    assert_eq!(node.get_child(), Some(handle(2)));

    let slots = vec![Some((handle(3), MetricResult(10))), None];
    let node = ProbNode::new_with_neighbors(HNSWLevel(0), prop(5), slots, None, Some(handle(4)));
    assert_eq!(node.get_neighbors(), vec![handle(3)]);
    assert_eq!(node.get_child(), Some(handle(4)));

    let mut versions = VersionChain::new();
    versions.push(handle(21));
    let node = ProbNode::new_with_neighbors_and_versions(
        HNSWLevel(0),
        prop(5),
        vec![None, None],
        None,
        None,
        versions,
    );
    assert_eq!(node.versions.get(0), Some(handle(21)));
    assert_eq!(node.versions.get(1), None);
}

#[test]
fn version_chain_is_bounded() {
    let mut chain = VersionChain::new();
    assert_eq!(chain.len(), 0);
    for i in 0..VERSION_CAPACITY {
        chain.push(handle(i as u64));
    }
    assert_eq!(chain.len(), VERSION_CAPACITY);
    for i in 0..VERSION_CAPACITY {
        assert_eq!(chain.get(i), Some(handle(i as u64)));
    }
    assert_eq!(chain.get(VERSION_CAPACITY), None);
}

// Capacity-8 node; every candidate's starting index collides at slot 0, so
// only the probe path over slots 0..4 is contested.
#[test]
fn colliding_candidates_keep_best_scores() {
    let mut node = ProbNode::new(HNSWLevel(0), prop(0), None, None, 8);
    let scores = [5u64, 3, 9, 1, 7, 2, 8, 4, 6];
    for (i, &score) in scores.iter().enumerate() {
        // node hash is 0, candidate hash a multiple of 8: starting index 0
        let id = VectorId(8 * (i as u64 + 1));
        node.add_neighbor(handle(score), &id, MetricResult(score));
    }
    // probe/replace over slots 0..4: 9, 8 and 6 survive, everything weaker
    // was overwritten or discarded
    let keys: Vec<u64> = node.get_neighbors().iter().map(|h| h.key).collect();
    assert_eq!(keys, vec![9, 8, 6]);
    assert!(node.get_neighbors().len() <= 8);
    assert_eq!(node.get_neighbors_raw().len(), 8);
}

#[test]
fn occupied_slot_yields_only_to_strictly_better() {
    // capacity 2: the probe budget is a single slot, so both candidates
    // contend for slot 0 only
    let mut node = ProbNode::new(HNSWLevel(0), prop(0), None, None, 2);
    node.add_neighbor(handle(50), &VectorId(2), MetricResult(5));
    // equal score is refused
    node.add_neighbor(handle(51), &VectorId(4), MetricResult(5));
    assert_eq!(node.get_neighbors(), vec![handle(50)]);
    // lower score is refused
    node.add_neighbor(handle(52), &VectorId(6), MetricResult(3));
    assert_eq!(node.get_neighbors(), vec![handle(50)]);
    // strictly better replaces
    node.add_neighbor(handle(53), &VectorId(8), MetricResult(6));
    assert_eq!(node.get_neighbors(), vec![handle(53)]);
}

#[test]
fn clone_neighbors_is_a_snapshot() {
    let mut node = ProbNode::new(HNSWLevel(0), prop(0), None, None, 4);
    node.add_neighbor(handle(1), &VectorId(4), MetricResult(10));
    let snapshot = node.clone_neighbors();
    assert_eq!(&snapshot, node.get_neighbors_raw());

    // mutating the node afterwards leaves the snapshot alone
    node.add_neighbor(handle(2), &VectorId(4), MetricResult(20));
    assert_eq!(node.get_neighbors(), vec![handle(2)]);
    assert_eq!(snapshot[0], Some((handle(1), MetricResult(10))));
}
