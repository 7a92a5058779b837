use shard_sim::prefix::Prefix;

#[test]
fn root_matches_everything() {
    let root = Prefix::root();
    assert_eq!(root.len, 0);
    assert!(root.matches(0));
    assert!(root.matches(u64::MAX));
    assert!(root.matches(0x8000_0000_0000_0000));
}

#[test]
fn split_yields_the_two_one_bit_children() {
    let root = Prefix::root();
    let (c0, c1) = root.split();
    assert_eq!(c0, Prefix { bits: 0, len: 1 });
    assert_eq!(c1, Prefix { bits: 1, len: 1 });
    // the children partition the parent: each address matches exactly one
    for addr in [0u64, 1, 0x7fff_ffff_ffff_ffff, 0x8000_0000_0000_0000, u64::MAX] {
        assert!(c0.matches(addr) != c1.matches(addr));
    }
    assert!(c0.matches(0));
    assert!(c1.matches(u64::MAX));
}

#[test]
fn deeper_split_keeps_partitioning() {
    let (c0, _c1) = Prefix::root().split();
    let (c00, c01) = c0.split();
    assert_eq!(c00, Prefix { bits: 0, len: 2 });
    assert_eq!(c01, Prefix { bits: 1, len: 2 });
    assert!(c00.matches(0x1000_0000_0000_0000));
    assert!(c01.matches(0x5000_0000_0000_0000));
    assert!(!c01.matches(0x9000_0000_0000_0000));
}

#[test]
fn descendant_test_is_strict() {
    let root = Prefix::root();
    let (c0, c1) = root.split();
    let (c00, _) = c0.split();
    assert!(c0.is_descendant(&root));
    assert!(c00.is_descendant(&root));
    assert!(c00.is_descendant(&c0));
    assert!(!c00.is_descendant(&c1));
    assert!(!root.is_descendant(&root));
    assert!(!c0.is_descendant(&c0));
    assert!(!root.is_descendant(&c0));
}

#[test]
fn parent_undoes_split() {
    let (c0, c1) = Prefix::root().split();
    assert_eq!(c0.parent(), Prefix::root());
    assert_eq!(c1.parent(), Prefix::root());
    let (c10, c11) = c1.split();
    assert_eq!(c10.parent(), c1);
    assert_eq!(c11.parent(), c1);
}

#[test]
fn matches_looks_at_the_top_bits() {
    let p = Prefix { bits: 0b101, len: 3 };
    assert!(p.matches(0xa000_0000_0000_0000));
    assert!(p.matches(0xbfff_ffff_ffff_ffff));
    assert!(!p.matches(0x9fff_ffff_ffff_ffff));
    assert!(!p.matches(0xc000_0000_0000_0000));
}
