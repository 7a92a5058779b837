use shard_sim::stats::{sat_add_u64, Aggregator, Distribution, Stats, TickStats};

#[test]
fn tick_stats_start_at_zero_and_combine() {
    let mut a = TickStats::new();
    assert_eq!(a.merges, 0);
    assert_eq!(a.splits, 0);
    assert_eq!(a.relocations, 0);
    assert_eq!(a.rejections, 0);
    let mut b = TickStats::new();
    b.merges = 1;
    b.splits = 2;
    b.relocations = 3;
    b.rejections = 4;
    a.combine(b);
    a.combine(b);
    assert_eq!(a.merges, 2);
    assert_eq!(a.splits, 4);
    assert_eq!(a.relocations, 6);
    assert_eq!(a.rejections, 8);
}

#[test]
fn saturating_addition_stops_at_the_top() {
    assert_eq!(sat_add_u64(1, 2), 3);
    assert_eq!(sat_add_u64(u64::MAX, 1), u64::MAX);
    assert_eq!(sat_add_u64(u64::MAX - 1, 1), u64::MAX);
    assert_eq!(sat_add_u64(u64::MAX, u64::MAX), u64::MAX);
    let mut s = TickStats::new();
    s.rejections = u64::MAX;
    let mut t = TickStats::new();
    t.rejections = 5;
    s.combine(t);
    assert_eq!(s.rejections, u64::MAX);
}

#[test]
fn aggregator_summarises_a_sample() {
    let a = Aggregator::new(&vec![4u64, 1, 9, 1]);
    assert_eq!(a.count, 4);
    assert_eq!(a.sum, 15);
    assert_eq!(a.min, 1);
    assert_eq!(a.max, 9);
}

#[test]
fn aggregator_of_an_empty_sample() {
    let a = Aggregator::new(&Vec::new());
    assert_eq!(a.count, 0);
    assert_eq!(a.sum, 0);
    assert_eq!(a.min, u64::MAX);
    assert_eq!(a.max, 0);
}

#[test]
fn distribution_counts_occurrences() {
    let d = Distribution::new(vec![2u64, 7, 2, 2, 5]);
    assert_eq!(d.len(), 5);
    assert_eq!(d.count_of(2), 3);
    assert_eq!(d.count_of(7), 1);
    assert_eq!(d.count_of(0), 0);
}

#[test]
fn stats_sink_keeps_records_in_order() {
    let mut s = Stats::new();
    assert_eq!(s.records.len(), 0);
    s.record(0, 10, 1, 0, 1, 0, 0);
    s.record(1, 12, 2, 1, 0, 3, 2);
    assert_eq!(s.records.len(), 2);
    assert_eq!(s.records[0].iteration, 0);
    assert_eq!(s.records[0].total_nodes, 10);
    assert_eq!(s.records[0].splits, 1);
    assert_eq!(s.records[1].iteration, 1);
    assert_eq!(s.records[1].section_count, 2);
    assert_eq!(s.records[1].merges, 1);
    assert_eq!(s.records[1].relocations, 3);
    assert_eq!(s.records[1].rejections, 2);
}
