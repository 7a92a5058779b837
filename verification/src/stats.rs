//! Per-round counters and the durable statistics sink.

use vstd::prelude::*;

verus! {

/// Addition on `u64` that stops at the top instead of wrapping; counters and
/// reported totals use it so that no input can make them panic.
pub open spec fn sat64(x: int) -> u64 {
    if x > u64::MAX {
        u64::MAX
    } else {
        x as u64
    }
}

/// Saturating `u64` addition.
pub fn sat_add_u64(a: u64, b: u64) -> (r: u64)
    ensures
        r == sat64(a + b),
{
    if a > u64::MAX - b {
        u64::MAX
    } else {
        a + b
    }
}

/// The counters accumulated while resolving one tick's actions: created
/// fresh per round and combined associatively across rounds.
#[derive(Clone, Copy, PartialEq, Eq, Structural, Debug)]
pub struct TickStats {
    pub merges: u64,
    pub splits: u64,
    pub relocations: u64,
    pub rejections: u64,
}

/// Two rounds' counters folded together, counter by counter.
pub open spec fn combine_stats(a: TickStats, b: TickStats) -> TickStats {
    TickStats {
        merges: sat64(a.merges + b.merges),
        splits: sat64(a.splits + b.splits),
        relocations: sat64(a.relocations + b.relocations),
        rejections: sat64(a.rejections + b.rejections),
    }
}

impl TickStats {
    /// All counters start at zero.
    pub fn new() -> (r: TickStats)
        ensures
            r.merges == 0,
            r.splits == 0,
            r.relocations == 0,
            r.rejections == 0,
    {
        TickStats { merges: 0, splits: 0, relocations: 0, rejections: 0 }
    }

    /// Fold another round's counters into this one, counter by counter.
    pub fn combine(&mut self, other: TickStats)
        ensures
            *final(self) == combine_stats(*old(self), other),
    {
        self.merges = sat_add_u64(self.merges, other.merges);
        self.splits = sat_add_u64(self.splits, other.splits);
        self.relocations = sat_add_u64(self.relocations, other.relocations);
        self.rejections = sat_add_u64(self.rejections, other.rejections);
    }
}

/// The sum of a sample, saturating at the top of `u64`.
pub open spec fn seq_sum_sat(s: Seq<u64>) -> u64
    decreases s.len(),
{
    if s.len() == 0 {
        0
    } else {
        sat64(seq_sum_sat(s.drop_last()) + s.last())
    }
}

/// The minimum of a sample; `u64::MAX` for an empty one.
pub open spec fn seq_min(s: Seq<u64>) -> u64
    decreases s.len(),
{
    if s.len() == 0 {
        u64::MAX
    } else {
        let m = seq_min(s.drop_last());
        if s.last() < m {
            s.last()
        } else {
            m
        }
    }
}

/// The maximum of a sample; 0 for an empty one.
pub open spec fn seq_max(s: Seq<u64>) -> u64
    decreases s.len(),
{
    if s.len() == 0 {
        0
    } else {
        let m = seq_max(s.drop_last());
        if s.last() > m {
            s.last()
        } else {
            m
        }
    }
}

/// How often `v` occurs in a sample.
pub open spec fn occurrences(s: Seq<u64>, v: u64) -> nat
    decreases s.len(),
{
    if s.len() == 0 {
        0
    } else {
        occurrences(s.drop_last(), v) + if s.last() == v {
            1nat
        } else {
            0nat
        }
    }
}

/// Summary figures of one sample of values: how many there were, their
/// saturating sum, and their extremes.
#[derive(Clone, Copy, PartialEq, Eq, Structural, Debug)]
pub struct Aggregator {
    pub count: u64,
    pub sum: u64,
    pub min: u64,
    pub max: u64,
}

impl Aggregator {
    /// Summarise one sample.
    pub fn new(values: &Vec<u64>) -> (r: Aggregator)
        ensures
            r.count == values@.len(),
            r.sum == seq_sum_sat(values@),
            r.min == seq_min(values@),
            r.max == seq_max(values@),
    {
        let mut count: u64 = 0;
        let mut sum: u64 = 0;
        let mut min: u64 = u64::MAX;
        let mut max: u64 = 0;
        let mut i: usize = 0;
        while i < values.len()
            invariant
                i <= values@.len(),
                count == i,
                sum == seq_sum_sat(values@.subrange(0, i as int)),
                min == seq_min(values@.subrange(0, i as int)),
                max == seq_max(values@.subrange(0, i as int)),
            decreases values@.len() - i,
        {
            proof {
                assert(values@.subrange(0, i + 1).drop_last() =~= values@.subrange(0, i as int));
                assert(values@.subrange(0, i + 1).last() == values@[i as int]);
            }
            let v = values[i];
            count = count + 1;
            sum = sat_add_u64(sum, v);
            if v < min {
                min = v;
            }
            if v > max {
                max = v;
            }
            i = i + 1;
        }
        proof {
            assert(values@.subrange(0, values@.len() as int) =~= values@);
        }
        Aggregator { count, sum, min, max }
    }
}

/// A derived read view over one sample of values: it keeps the sample and
/// answers occurrence queries over it.
#[derive(Debug)]
pub struct Distribution {
    values: Vec<u64>,
}

impl View for Distribution {
    type V = Seq<u64>;

    closed spec fn view(&self) -> Seq<u64> {
        self.values@
    }
}

impl Distribution {
    /// Capture one sample.
    pub fn new(values: Vec<u64>) -> (r: Distribution)
        ensures
            r@ == values@,
    {
        Distribution { values }
    }

    /// How many values the sample holds.
    pub fn len(&self) -> (r: usize)
        ensures
            r == self@.len(),
    {
        self.values.len()
    }

    /// How often `v` occurs in the sample.
    pub fn count_of(&self, v: u64) -> (r: u64)
        ensures
            r == occurrences(self@, v),
    {
        let mut count: u64 = 0;
        let mut i: usize = 0;
        while i < self.values.len()
            invariant
                i <= self@.len(),
                count <= i,
                count == occurrences(self@.subrange(0, i as int), v),
            decreases self@.len() - i,
        {
            proof {
                assert(self@.subrange(0, i + 1).drop_last() =~= self@.subrange(0, i as int));
                assert(self@.subrange(0, i + 1).last() == self@[i as int]);
            }
            if self.values[i] == v {
                count = count + 1;
            }
            i = i + 1;
        }
        proof {
            assert(self@.subrange(0, self@.len() as int) =~= self@);
        }
        count
    }
}

/// One line reported to the sink at the end of one tick.
#[derive(Clone, Copy, PartialEq, Eq, Structural, Debug)]
pub struct StatsRecord {
    pub iteration: u64,
    pub total_nodes: u64,
    pub section_count: u64,
    pub merges: u64,
    pub splits: u64,
    pub relocations: u64,
    pub rejections: u64,
}

/// The durable statistics sink: one record per tick, in tick order.
#[derive(Debug)]
pub struct Stats {
    pub records: Vec<StatsRecord>,
}

impl Stats {
    pub fn new() -> (r: Stats)
        ensures
            r.records@ =~= Seq::<StatsRecord>::empty(),
    {
        Stats { records: Vec::new() }
    }

    /// Append one tick's record.
    pub fn record(
        &mut self,
        iteration: u64,
        total_nodes: u64,
        section_count: u64,
        merges: u64,
        splits: u64,
        relocations: u64,
        rejections: u64,
    )
        ensures
            final(self).records@ == old(self).records@.push(
                StatsRecord {
                    iteration,
                    total_nodes,
                    section_count,
                    merges,
                    splits,
                    relocations,
                    rejections,
                },
            ),
    {
        self.records.push(
            StatsRecord {
                iteration,
                total_nodes,
                section_count,
                merges,
                splits,
                relocations,
                rejections,
            },
        );
    }
}

} // verus!
