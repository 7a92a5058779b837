use shard_sim::message::{Action, Message};
use shard_sim::network::{Fatal, Network};
use shard_sim::node::Node;
use shard_sim::params::Params;
use shard_sim::prefix::Prefix;

const UPPER: u64 = 0x8000_0000_0000_0000;

fn network(max: usize, min: usize) -> Network {
    Network::new(Params::new(max, min, 5, 64))
}

/// An oversized root splits into the two one-bit children within one tick.
#[test]
fn end_to_end_first_split() {
    let mut n = network(4, 1);
    for name in [1u64, 2, 3, UPPER, UPPER + 1] {
        n.add_node(Node { name, age: 1 });
    }
    assert_eq!(n.section_count(), 1);
    assert!(n.tick(0).is_ok());
    assert_eq!(n.section_count(), 2);
    let prefixes = n.prefixes();
    assert!(prefixes.contains(&Prefix { bits: 0, len: 1 }));
    assert!(prefixes.contains(&Prefix { bits: 1, len: 1 }));
    let rec = n.stats().records[0];
    assert_eq!(rec.iteration, 0);
    assert_eq!(rec.total_nodes, 5);
    assert_eq!(rec.section_count, 2);
    assert_eq!(rec.splits, 1);
    assert_eq!(rec.merges, 0);
    assert_eq!(rec.rejections, 0);
}

/// After a converged tick, every sampled address has exactly one owner.
#[test]
fn partition_complete_after_tick() {
    let mut n = network(2, 1);
    for top in [0u64, 1, 2, 4, 5, 6] {
        n.add_node(Node { name: top << 61, age: 1 });
    }
    assert!(n.tick(0).is_ok());
    assert_eq!(n.section_count(), 4);
    let prefixes = n.prefixes();
    for addr in [0u64, 1, 0x4000_0000_0000_0000, UPPER, u64::MAX] {
        let owners = prefixes.iter().filter(|p| p.matches(addr)).count();
        assert_eq!(owners, 1);
        let i = n.matching_section_index(addr);
        assert!(prefixes[i].matches(addr));
    }
}

/// A merge whose target has no mapped descendants is a benign no-op.
#[test]
fn merge_with_no_descendants_is_idempotent() {
    let mut n = network(4, 1);
    n.add_node(Node { name: 3, age: 1 });
    let before = n.prefixes();
    let stats = n.handle_actions(vec![Action::Merge(Prefix::root())]).unwrap();
    assert_eq!(stats.merges, 0);
    assert_eq!(n.prefixes(), before);
    assert_eq!(n.section_count(), 1);
    // a deeper absent target is just as harmless
    let (c0, _) = Prefix::root().split();
    let stats = n.handle_actions(vec![Action::Merge(c0)]).unwrap();
    assert_eq!(stats.merges, 0);
    assert_eq!(n.section_count(), 1);
}

/// A split removes one section and inserts its two children, conserving
/// nodes.
#[test]
fn split_conserves_sections_and_nodes() {
    let mut n = network(16, 1);
    for name in [1u64, 2, 3, UPPER, UPPER + 4] {
        n.add_node(Node { name, age: 1 });
    }
    let stats = n.handle_actions(vec![Action::Split(Prefix::root())]).unwrap();
    assert_eq!(stats.splits, 1);
    assert_eq!(n.section_count(), 2);
    assert_eq!(n.section_node_count(0) + n.section_node_count(1), 5);
    // a stale split (source no longer mapped) is a benign no-op, but counts
    let stats = n.handle_actions(vec![Action::Split(Prefix::root())]).unwrap();
    assert_eq!(stats.splits, 1);
    assert_eq!(n.section_count(), 2);
}

/// Folding k sources into a target gives it the sum of their node counts.
#[test]
fn merge_conserves_nodes() {
    let mut n = network(16, 1);
    for name in [1u64, 2, UPPER, UPPER + 1, UPPER + 2] {
        n.add_node(Node { name, age: 1 });
    }
    n.handle_actions(vec![Action::Split(Prefix::root())]).unwrap();
    assert_eq!(n.section_count(), 2);
    let stats = n.handle_actions(vec![Action::Merge(Prefix::root())]).unwrap();
    assert_eq!(stats.merges, 1);
    assert_eq!(n.section_count(), 1);
    assert_eq!(n.section_node_count(0), 5);
}

/// Two duplicate merges in one round count one merge, and the tick after
/// the merged map emits nothing further.
#[test]
fn duplicate_merge_counts_once() {
    let mut n = network(4, 2);
    for name in [1u64, 2, UPPER, UPPER + 1] {
        n.add_node(Node { name, age: 1 });
    }
    n.handle_actions(vec![Action::Split(Prefix::root())]).unwrap();
    assert_eq!(n.section_count(), 2);
    let root = Prefix::root();
    let stats = n
        .handle_actions(vec![Action::Merge(root), Action::Merge(root)])
        .unwrap();
    assert_eq!(stats.merges, 1);
    assert_eq!(n.section_count(), 1);
    assert_eq!(n.section_node_count(0), 4);
    // the merged root is settled: the next tick resolves in zero rounds
    assert!(n.tick(1).is_ok());
    let rec = n.stats().records[0];
    assert_eq!(rec.merges, 0);
    assert_eq!(rec.splits, 0);
    assert_eq!(n.section_count(), 1);
}

/// A cascade of splits settles within one tick, well inside a round cap of
/// one round per node.
#[test]
fn fixpoint_terminates_within_node_count_rounds() {
    let mut n = Network::new(Params::new(1, 1, 5, 8));
    for top in 0..8u64 {
        n.add_node(Node { name: top << 61, age: 1 });
    }
    assert!(n.tick(0).is_ok());
    assert_eq!(n.section_count(), 8);
    let rec = n.stats().records[0];
    assert_eq!(rec.splits, 7);
    assert_eq!(rec.total_nodes, 8);
}

/// A runaway cascade trips the defensive round cap instead of looping.
#[test]
fn round_cap_is_fatal_when_exceeded() {
    let mut n = Network::new(Params::new(1, 1, 5, 1));
    for top in 0..8u64 {
        n.add_node(Node { name: top << 61, age: 1 });
    }
    assert_eq!(n.tick(0), Err(Fatal::RoundCapExceeded));
}

/// A non-empty relocation cache after convergence aborts the run.
#[test]
fn dirty_incoming_cache_is_fatal() {
    let mut n = network(4, 1);
    let node = Node { name: 9, age: 2 };
    n.handle_actions(vec![Action::Send(Message::RelocateRequest { node })])
        .unwrap();
    assert_eq!(
        n.validate(),
        Err(Fatal::RelocationCacheNotCleared(Prefix::root()))
    );
}

/// A committed relocation leaves the cache clean and admits the node.
#[test]
fn committed_relocation_validates_clean() {
    let mut n = network(4, 1);
    let node = Node { name: 9, age: 2 };
    let s1 = n
        .handle_actions(vec![Action::Send(Message::RelocateRequest { node })])
        .unwrap();
    assert_eq!(s1.relocations, 0);
    let s2 = n
        .handle_actions(vec![Action::Send(Message::RelocateCommit { node })])
        .unwrap();
    assert_eq!(s2.relocations, 1);
    assert!(n.validate().is_ok());
    assert_eq!(n.section_node_count(0), 1);
}

/// Rejections are counted and change nothing else.
#[test]
fn rejections_only_count() {
    let mut n = network(4, 1);
    n.add_node(Node { name: 1, age: 1 });
    let stats = n
        .handle_actions(vec![Action::Reject(17), Action::Reject(18)])
        .unwrap();
    assert_eq!(stats.rejections, 2);
    assert_eq!(stats.merges, 0);
    assert_eq!(n.section_count(), 1);
    assert_eq!(n.section_node_count(0), 1);
}

/// An oversized section that cannot yet split draws a capacity warning with
/// projected adult counts per child.
#[test]
fn validator_warns_on_oversized_sections() {
    let mut n = Network::new(Params::new(2, 1, 5, 64));
    n.add_node(Node { name: 1, age: 9 });
    n.add_node(Node { name: 2, age: 3 });
    n.add_node(Node { name: UPPER, age: 6 });
    let warnings = n.validate().unwrap();
    assert_eq!(warnings.len(), 1);
    let w = warnings[0];
    assert_eq!(w.prefix, Prefix::root());
    assert_eq!(w.node_count, 3);
    assert_eq!(w.adults_left, 1);
    assert_eq!(w.adults_right, 1);
}

/// An oversized section whose prefix is already at full depth still draws a
/// warning; with no split left to project, both projections read zero.
#[test]
fn validator_warns_at_full_depth() {
    let mut n = Network::new(Params::new(0, 0, 5, 100));
    n.add_node(Node { name: 5, age: 9 });
    n.add_node(Node { name: 5, age: 9 });
    assert!(n.tick(0).is_ok());
    // the two same-named nodes ride every split down to a full-depth prefix
    let warnings = n.validate().unwrap();
    assert_eq!(warnings.len(), 1);
    let w = warnings[0];
    assert_eq!(w.prefix, Prefix { bits: 5, len: 64 });
    assert_eq!(w.node_count, 2);
    assert_eq!(w.adults_left, 0);
    assert_eq!(w.adults_right, 0);
    assert_eq!(n.stats().records[0].splits, 64);
}

/// The reporting views summarise the map faithfully.
#[test]
fn reporting_views() {
    let mut n = network(8, 1);
    n.add_node(Node { name: 1, age: 2 });
    n.add_node(Node { name: 2, age: 4 });
    n.add_node(Node { name: UPPER, age: 4 });
    assert_eq!(n.num_complete_sections(), 1);
    let ages = n.age_aggregator();
    assert_eq!(ages.count, 3);
    assert_eq!(ages.sum, 10);
    assert_eq!(ages.min, 2);
    assert_eq!(ages.max, 4);
    let dist = n.age_distribution();
    assert_eq!(dist.len(), 3);
    assert_eq!(dist.count_of(4), 2);
    assert_eq!(dist.count_of(2), 1);
    assert_eq!(dist.count_of(9), 0);
    let sizes = n.section_size_aggregator();
    assert_eq!(sizes.count, 1);
    assert_eq!(sizes.sum, 3);
    let lens = n.prefix_len_aggregator();
    assert_eq!(lens.count, 1);
    assert_eq!(lens.max, 0);
}
