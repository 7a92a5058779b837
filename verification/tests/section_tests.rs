use shard_sim::message::{Action, Message};
use shard_sim::node::{count_matching_adults, Node};
use shard_sim::params::Params;
use shard_sim::prefix::Prefix;
use shard_sim::section::Section;

fn params() -> Params {
    Params::new(4, 1, 5, 64)
}

#[test]
fn split_conserves_nodes_between_the_children() {
    let mut s = Section::new(Prefix::root());
    s.add_node(Node { name: 1, age: 10 });
    s.add_node(Node { name: 2, age: 10 });
    s.add_node(Node { name: 0x8000_0000_0000_0000, age: 10 });
    s.add_node(Node { name: 0x8000_0000_0000_0001, age: 10 });
    s.add_node(Node { name: 3, age: 10 });
    let (s0, s1) = s.split(&params());
    assert_eq!(s0.prefix(), Prefix { bits: 0, len: 1 });
    assert_eq!(s1.prefix(), Prefix { bits: 1, len: 1 });
    assert_eq!(s0.nodes().len(), 3);
    assert_eq!(s1.nodes().len(), 2);
    assert_eq!(s0.nodes().len() + s1.nodes().len(), 5);
}

#[test]
fn merge_absorbs_the_other_sections_content() {
    let root = Prefix::root();
    let (c0, _c1) = root.split();
    let mut parent = Section::new(root);
    parent.add_node(Node { name: 0x9000_0000_0000_0000, age: 3 });
    let mut child = Section::new(c0);
    child.add_node(Node { name: 1, age: 4 });
    child.add_node(Node { name: 2, age: 4 });
    parent.merge(&params(), child);
    assert_eq!(parent.nodes().len(), 3);
    assert_eq!(parent.prefix(), root);
}

#[test]
fn evaluate_emits_split_when_oversized() {
    let mut s = Section::new(Prefix::root());
    for name in 0..5u64 {
        s.add_node(Node { name, age: 1 });
    }
    let actions = s.evaluate(&params());
    assert_eq!(actions, vec![Action::Split(Prefix::root())]);
}

#[test]
fn evaluate_emits_merge_to_parent_when_undersized() {
    let (c0, _c1) = Prefix::root().split();
    let s = Section::new(c0);
    let actions = s.evaluate(&params());
    assert_eq!(actions, vec![Action::Merge(Prefix::root())]);
}

#[test]
fn evaluate_emits_nothing_when_settled() {
    let mut s = Section::new(Prefix::root());
    s.add_node(Node { name: 7, age: 1 });
    let actions = s.evaluate(&params());
    assert!(actions.is_empty());
    assert!(s.is_complete(&params()));
}

#[test]
fn receive_request_caches_and_commit_clears() {
    let mut s = Section::new(Prefix::root());
    let node = Node { name: 42, age: 9 };
    s.receive(Message::RelocateRequest { node });
    assert_eq!(s.incoming_relocations().len(), 1);
    assert_eq!(s.nodes().len(), 0);
    s.receive(Message::RelocateCommit { node });
    assert_eq!(s.incoming_relocations().len(), 0);
    assert_eq!(s.nodes().len(), 1);
}

#[test]
fn outgoing_relocation_fills_and_clears_the_cache() {
    let mut s = Section::new(Prefix::root());
    s.add_node(Node { name: 11, age: 2 });
    let moved = s.start_outgoing_relocation(11);
    assert_eq!(moved, Some(Node { name: 11, age: 2 }));
    assert_eq!(s.nodes().len(), 0);
    assert_eq!(s.outgoing_relocations().len(), 1);
    assert_eq!(s.start_outgoing_relocation(99), None);
    s.complete_outgoing_relocation(11);
    assert_eq!(s.outgoing_relocations().len(), 0);
}

#[test]
fn prepare_clears_both_caches() {
    let mut s = Section::new(Prefix::root());
    s.add_node(Node { name: 5, age: 2 });
    s.receive(Message::RelocateRequest { node: Node { name: 6, age: 1 } });
    s.start_outgoing_relocation(5);
    s.prepare();
    assert_eq!(s.incoming_relocations().len(), 0);
    assert_eq!(s.outgoing_relocations().len(), 0);
}

#[test]
fn adult_counting_respects_prefix_and_age() {
    let p = params(); // adults are age 5 and up
    let (c0, c1) = Prefix::root().split();
    let nodes = vec![
        Node { name: 1, age: 5 },
        Node { name: 2, age: 4 },
        Node { name: 0x8000_0000_0000_0000, age: 9 },
        Node { name: 3, age: 7 },
    ];
    assert_eq!(count_matching_adults(&p, c0, &nodes), 2);
    assert_eq!(count_matching_adults(&p, c1, &nodes), 1);
    assert_eq!(count_matching_adults(&p, Prefix::root(), &nodes), 3);
}
