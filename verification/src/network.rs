//! The tick orchestrator, action resolver and invariant validator.
//!
//! A network is a partition map: a set of sections whose prefixes cover the
//! whole address space with no gaps and no overlaps.  Each tick evaluates
//! every section, resolves the emitted actions until none are left, records
//! statistics and validates the result.  Benign races (a duplicate merge, a
//! stale split) resolve to no-ops; partition corruption cannot arise from a
//! well-formed map, and the defensive run-time checks for it are verified
//! never to fire.

use crate::message::{Action, Message};
use crate::node::{count_matching_adults, spec_count_matching_adults, Node};
use crate::params::Params;
use crate::prefix::{
    lemma_ancestor_covers, lemma_child_strict_descendant, lemma_children_partition,
    lemma_common_address_comparable, lemma_covers_base_addr, Prefix,
};
use crate::section::{names_under, nodes_under, remove_first, Section, SectionView};
use crate::stats::{
    combine_stats, sat64, sat_add_u64, seq_max, seq_min, seq_sum_sat, Aggregator, Distribution,
    Stats, StatsRecord, TickStats,
};
use vstd::prelude::*;

verus! {

/// A condition that must abort the whole run: it indicates a broken
/// invariant, not a transient state, so it is never retried or downgraded.
#[derive(Clone, Copy, PartialEq, Eq, Structural, Debug)]
pub enum Fatal {
    /// A split produced a child prefix that is already mapped.
    DuplicateChildPrefix(Prefix),
    /// No section covers the target address of a routed message.
    UnmatchedSendTarget(u64),
    /// A relocation cache was not cleared by the end of a tick.
    RelocationCacheNotCleared(Prefix),
    /// The within-tick resolution loop exceeded the configured round cap.
    RoundCapExceeded,
}

/// The views of a sequence of sections.
pub open spec fn views(ss: Seq<Section>) -> Seq<SectionView> {
    ss.map_values(|s: Section| s@)
}

/// Every section of the map is well formed.
pub open spec fn all_wf(ss: Seq<SectionView>) -> bool {
    forall|i: int| 0 <= i < ss.len() ==> (#[trigger] ss[i]).wf()
}

/// Position `i` of the map covers address `a`.
pub open spec fn covers_at(ss: Seq<SectionView>, a: u64, i: int) -> bool {
    0 <= i < ss.len() && ss[i].prefix.covers(a)
}

/// Exactly one position of the map covers address `a`.
pub open spec fn unique_cover(ss: Seq<SectionView>, a: u64) -> bool {
    (exists|i: int| #[trigger] covers_at(ss, a, i)) && (forall|i: int, j: int|
        covers_at(ss, a, i) && covers_at(ss, a, j) ==> i == j)
}

/// The map's prefixes exactly partition the address space: no gaps, no
/// overlaps.
pub open spec fn is_partition(ss: Seq<SectionView>) -> bool {
    forall|a: u64| #[trigger] unique_cover(ss, a)
}

/// Two positions of a partition never hold the same prefix.
pub proof fn lemma_partition_distinct_prefixes(ss: Seq<SectionView>, i: int, j: int)
    requires
        is_partition(ss),
        all_wf(ss),
        0 <= i < ss.len(),
        0 <= j < ss.len(),
        ss[i].prefix == ss[j].prefix,
    ensures
        i == j,
{
    let a = ss[i].prefix.base_addr();
    assert(ss[i].wf());
    lemma_covers_base_addr(ss[i].prefix);
    assert(covers_at(ss, a, i));
    assert(covers_at(ss, a, j));
    assert(unique_cover(ss, a));
}

/// Some position of the map holds exactly the prefix `p`.
pub open spec fn has_prefix(ss: Seq<SectionView>, p: Prefix) -> bool {
    exists|i: int| 0 <= i < ss.len() && (#[trigger] ss[i]).prefix == p
}

/// A section's view after it receives a message: a request is cached as a
/// pending incoming relocation; a commit admits the node and clears the
/// pending entry.
pub open spec fn received_view(s: SectionView, msg: Message) -> SectionView {
    match msg {
        Message::RelocateRequest { node } => SectionView {
            incoming: s.incoming.push(node.name),
            ..s
        },
        Message::RelocateCommit { node } => SectionView {
            nodes: s.nodes.push(node),
            incoming: remove_first(s.incoming, node.name),
            ..s
        },
    }
}

/// What delivering a message does to the map: the one entry covering the
/// target receives it.
pub open spec fn spec_resolve_send(ss: Seq<SectionView>, msg: Message) -> Seq<SectionView> {
    let i = choose|i: int| covers_at(ss, msg.spec_target(), i);
    ss.update(i, received_view(ss[i], msg))
}

/// The two entries a split produces: each node and cached relocation lands
/// in the one child covering it.
pub open spec fn split_views(s: SectionView) -> (SectionView, SectionView) {
    let c0 = s.prefix.spec_child(false);
    let c1 = s.prefix.spec_child(true);
    (
        SectionView {
            prefix: c0,
            nodes: nodes_under(s.nodes, c0),
            incoming: names_under(s.incoming, c0),
            outgoing: names_under(s.outgoing, c0),
        },
        SectionView {
            prefix: c1,
            nodes: nodes_under(s.nodes, c1),
            incoming: names_under(s.incoming, c1),
            outgoing: names_under(s.outgoing, c1),
        },
    )
}

/// What a split does to the map: the source entry, if still mapped, is
/// replaced by its two children; a stale source is a benign no-op.
pub open spec fn spec_resolve_split(ss: Seq<SectionView>, source: Prefix) -> Seq<SectionView> {
    if has_prefix(ss, source) {
        let i = choose|i: int| 0 <= i < ss.len() && (#[trigger] ss[i]).prefix == source;
        ss.remove(i) + seq![split_views(ss[i]).0, split_views(ss[i]).1]
    } else {
        ss
    }
}

/// A section a merge to `target` absorbs: one mapped strictly below it.
pub open spec fn is_merge_source(s: SectionView, target: Prefix) -> bool {
    s.prefix.is_strict_descendant_of(target)
}

/// The sections a merge to `target` absorbs, in map order.
pub open spec fn merge_sources(ss: Seq<SectionView>, target: Prefix) -> Seq<SectionView>
    decreases ss.len(),
{
    if ss.len() == 0 {
        Seq::empty()
    } else {
        let rest = merge_sources(ss.drop_last(), target);
        if is_merge_source(ss.last(), target) {
            rest.push(ss.last())
        } else {
            rest
        }
    }
}

/// The sections a merge to `target` leaves in place, in map order.
pub open spec fn merge_survivors(ss: Seq<SectionView>, target: Prefix) -> Seq<SectionView>
    decreases ss.len(),
{
    if ss.len() == 0 {
        Seq::empty()
    } else {
        let rest = merge_survivors(ss.drop_last(), target);
        if is_merge_source(ss.last(), target) {
            rest
        } else {
            rest.push(ss.last())
        }
    }
}

/// All member nodes of `vs`, concatenated in order.
pub open spec fn concat_nodes(vs: Seq<SectionView>) -> Seq<Node>
    decreases vs.len(),
{
    if vs.len() == 0 {
        Seq::empty()
    } else {
        concat_nodes(vs.drop_last()) + vs.last().nodes
    }
}

/// All cached incoming relocations of `vs`, concatenated in order.
pub open spec fn concat_incoming(vs: Seq<SectionView>) -> Seq<u64>
    decreases vs.len(),
{
    if vs.len() == 0 {
        Seq::empty()
    } else {
        concat_incoming(vs.drop_last()) + vs.last().incoming
    }
}

/// All cached outgoing relocations of `vs`, concatenated in order.
pub open spec fn concat_outgoing(vs: Seq<SectionView>) -> Seq<u64>
    decreases vs.len(),
{
    if vs.len() == 0 {
        Seq::empty()
    } else {
        concat_outgoing(vs.drop_last()) + vs.last().outgoing
    }
}

/// The section a merge produces at `target`: the pre-existing target entry
/// (or a fresh empty one) with every source's content folded in, in map
/// order.
pub open spec fn merged_view(ss: Seq<SectionView>, target: Prefix) -> SectionView {
    let srcs = merge_sources(ss, target);
    if has_prefix(ss, target) {
        let t = choose|t: int| 0 <= t < ss.len() && (#[trigger] ss[t]).prefix == target;
        SectionView {
            prefix: target,
            nodes: ss[t].nodes + concat_nodes(srcs),
            incoming: ss[t].incoming + concat_incoming(srcs),
            outgoing: ss[t].outgoing + concat_outgoing(srcs),
        }
    } else {
        SectionView {
            prefix: target,
            nodes: concat_nodes(srcs),
            incoming: concat_incoming(srcs),
            outgoing: concat_outgoing(srcs),
        }
    }
}

/// What a merge does to the map: with no mapped section strictly below the
/// target it is a benign no-op; otherwise every such section is removed and
/// folded into the target's entry.
pub open spec fn spec_resolve_merge(ss: Seq<SectionView>, target: Prefix) -> Seq<SectionView> {
    if merge_sources(ss, target).len() == 0 {
        ss
    } else {
        let surv = merge_survivors(ss, target);
        if has_prefix(surv, target) {
            let t = choose|t: int| 0 <= t < surv.len() && (#[trigger] surv[t]).prefix == target;
            surv.update(t, merged_view(ss, target))
        } else {
            surv.push(merged_view(ss, target))
        }
    }
}

/// Every merge source is a value of the map, strictly below the target.
pub proof fn lemma_sources_element(ss: Seq<SectionView>, target: Prefix, k: int)
    requires
        0 <= k < merge_sources(ss, target).len(),
    ensures
        exists|j: int| 0 <= j < ss.len() && ss[j] == merge_sources(ss, target)[k],
        is_merge_source(merge_sources(ss, target)[k], target),
    decreases ss.len(),
{
    if ss.len() > 0 {
        let front = ss.drop_last();
        let rest = merge_sources(front, target);
        if is_merge_source(ss.last(), target) && k == rest.len() {
            assert(ss[ss.len() - 1] == merge_sources(ss, target)[k]);
        } else {
            lemma_sources_element(front, target, k);
            let j = choose|j: int| 0 <= j < front.len() && front[j] == rest[k];
            assert(ss[j] == merge_sources(ss, target)[k]);
        }
    }
}

/// Every merge survivor is a value of the map, not below the target.
pub proof fn lemma_survivors_element(ss: Seq<SectionView>, target: Prefix, k: int)
    requires
        0 <= k < merge_survivors(ss, target).len(),
    ensures
        exists|j: int|
            0 <= j < ss.len() && ss[j] == merge_survivors(ss, target)[k] && !is_merge_source(
                ss[j],
                target,
            ),
    decreases ss.len(),
{
    if ss.len() > 0 {
        let front = ss.drop_last();
        let rest = merge_survivors(front, target);
        if !is_merge_source(ss.last(), target) && k == rest.len() {
            assert(ss[ss.len() - 1] == merge_survivors(ss, target)[k]);
        } else {
            lemma_survivors_element(front, target, k);
            let j = choose|j: int|
                0 <= j < front.len() && front[j] == rest[k] && !is_merge_source(front[j], target);
            assert(ss[j] == merge_survivors(ss, target)[k]);
            assert(!is_merge_source(ss[j], target));
        }
    }
}

/// Every value of the map that is not below the target survives the merge.
pub proof fn lemma_survivors_contain(ss: Seq<SectionView>, target: Prefix, j: int)
    requires
        0 <= j < ss.len(),
        !is_merge_source(ss[j], target),
    ensures
        exists|k: int|
            0 <= k < merge_survivors(ss, target).len() && merge_survivors(ss, target)[k] == ss[j],
    decreases ss.len(),
{
    let front = ss.drop_last();
    let surv = merge_survivors(ss, target);
    if j == ss.len() - 1 {
        assert(surv[surv.len() - 1] == ss[j]);
    } else {
        lemma_survivors_contain(front, target, j);
        let k = choose|k: int|
            0 <= k < merge_survivors(front, target).len() && merge_survivors(front, target)[k]
                == front[j];
        assert(surv[k] == ss[j]);
    }
}

/// Two distinct survivors covering a common address come from two distinct
/// positions of the map covering that address.
pub proof fn lemma_survivors_two(ss: Seq<SectionView>, target: Prefix, a: u64, p: int, q: int)
    requires
        0 <= p < q < merge_survivors(ss, target).len(),
        merge_survivors(ss, target)[p].prefix.covers(a),
        merge_survivors(ss, target)[q].prefix.covers(a),
    ensures
        exists|o1: int, o2: int| o1 != o2 && covers_at(ss, a, o1) && covers_at(ss, a, o2),
    decreases ss.len(),
{
    let front = ss.drop_last();
    let fsurv = merge_survivors(front, target);
    if is_merge_source(ss.last(), target) {
        lemma_survivors_two(front, target, a, p, q);
        let (o1, o2) = choose|o1: int, o2: int|
            o1 != o2 && covers_at(front, a, o1) && covers_at(front, a, o2);
        assert(covers_at(ss, a, o1));
        assert(covers_at(ss, a, o2));
    } else {
        if q == fsurv.len() {
            lemma_survivors_element(front, target, p);
            let j = choose|j: int|
                0 <= j < front.len() && front[j] == fsurv[p] && !is_merge_source(front[j], target);
            assert(covers_at(ss, a, j));
            assert(covers_at(ss, a, ss.len() - 1));
        } else {
            lemma_survivors_two(front, target, a, p, q);
            let (o1, o2) = choose|o1: int, o2: int|
                o1 != o2 && covers_at(front, a, o1) && covers_at(front, a, o2);
            assert(covers_at(ss, a, o1));
            assert(covers_at(ss, a, o2));
        }
    }
}

/// A merge with nothing to absorb leaves the map unchanged.
pub proof fn lemma_no_sources_id(ss: Seq<SectionView>, target: Prefix)
    requires
        merge_sources(ss, target).len() == 0,
    ensures
        merge_survivors(ss, target) == ss,
    decreases ss.len(),
{
    if ss.len() > 0 {
        let front = ss.drop_last();
        assert(!is_merge_source(ss.last(), target));
        lemma_no_sources_id(front, target);
        assert(merge_survivors(ss, target) =~= ss);
    }
}

/// A merge finds something to absorb exactly when some position of the map
/// lies strictly below the target.
pub proof fn lemma_sources_nonempty_iff(ss: Seq<SectionView>, target: Prefix)
    ensures
        (merge_sources(ss, target).len() > 0) == (exists|i: int|
            0 <= i < ss.len() && is_merge_source(#[trigger] ss[i], target)),
    decreases ss.len(),
{
    if ss.len() > 0 {
        let front = ss.drop_last();
        lemma_sources_nonempty_iff(front, target);
        if is_merge_source(ss.last(), target) {
            assert(is_merge_source(ss[ss.len() - 1], target));
        } else {
            if exists|i: int| 0 <= i < ss.len() && is_merge_source(#[trigger] ss[i], target) {
                let i = choose|i: int|
                    0 <= i < ss.len() && is_merge_source(#[trigger] ss[i], target);
                assert(i < ss.len() - 1);
                assert(is_merge_source(front[i], target));
            }
            if exists|i: int| 0 <= i < front.len() && is_merge_source(#[trigger] front[i], target) {
                let i = choose|i: int|
                    0 <= i < front.len() && is_merge_source(#[trigger] front[i], target);
                assert(is_merge_source(ss[i], target));
            }
        }
    }
}

/// Partition completeness: a well-formed map covers any sampled address at
/// exactly one position.  `Network::tick` ensures the map stays well formed,
/// so this holds after every converged tick.
pub proof fn lemma_partition_completeness(ss: Seq<SectionView>, a: u64)
    requires
        is_partition(ss),
    ensures
        exists|i: int| #[trigger] covers_at(ss, a, i),
        forall|i: int, j: int| covers_at(ss, a, i) && covers_at(ss, a, j) ==> i == j,
{
    assert(unique_cover(ss, a));
}

/// Split node conservation: the two halves of a split section hold exactly
/// as many nodes, between them, as the section did.
pub proof fn lemma_split_node_conservation(s: SectionView)
    requires
        s.wf(),
        s.prefix.len < 64,
    ensures
        split_views(s).0.nodes.len() + split_views(s).1.nodes.len() == s.nodes.len(),
{
    assert forall|i: int| 0 <= i < s.nodes.len() implies #[trigger] s.prefix.covers(
        s.nodes[i].name,
    ) by {}
    crate::section::lemma_nodes_under_partition(s.nodes, s.prefix);
}

/// How many nodes a batch of sections holds in all.
pub open spec fn total_source_nodes(vs: Seq<SectionView>) -> nat
    decreases vs.len(),
{
    if vs.len() == 0 {
        0
    } else {
        total_source_nodes(vs.drop_last()) + vs.last().nodes.len()
    }
}

/// Concatenating the sections' nodes keeps exactly their total count.
pub proof fn lemma_concat_nodes_len(vs: Seq<SectionView>)
    ensures
        concat_nodes(vs).len() == total_source_nodes(vs),
    decreases vs.len(),
{
    if vs.len() > 0 {
        lemma_concat_nodes_len(vs.drop_last());
    }
}

/// Merge node conservation: the merged target holds its pre-existing nodes
/// plus every folded source's, no more and no fewer.
pub proof fn lemma_merge_node_conservation(ss: Seq<SectionView>, target: Prefix)
    requires
        merge_sources(ss, target).len() > 0,
    ensures
        merged_view(ss, target).nodes.len() == (if has_prefix(ss, target) {
            ss[choose|t: int| 0 <= t < ss.len() && (#[trigger] ss[t]).prefix == target].nodes.len()
        } else {
            0nat
        }) + total_source_nodes(merge_sources(ss, target)),
{
    lemma_concat_nodes_len(merge_sources(ss, target));
}

/// One informational capacity warning: a section still over the maximum
/// size after convergence, with a projection of how many adult nodes its
/// eventual split would put in each child.
#[derive(Clone, Copy, PartialEq, Eq, Structural, Debug)]
pub struct CapacityWarning {
    pub prefix: Prefix,
    pub node_count: u64,
    pub adults_left: u64,
    pub adults_right: u64,
}

/// A section the validator warns about: over the maximum size.
pub open spec fn is_oversized(s: SectionView, params: Params) -> bool {
    s.nodes.len() > params.max_section_size
}

/// The warning the validator emits for one oversized section.  A section
/// whose prefix is already at full depth has no split left to project, so
/// both of its projections read zero.
pub open spec fn warning_of(s: SectionView, params: Params) -> CapacityWarning {
    CapacityWarning {
        prefix: s.prefix,
        node_count: s.nodes.len() as u64,
        adults_left: if s.prefix.len < 64 {
            spec_count_matching_adults(s.nodes, s.prefix.spec_child(false), params) as u64
        } else {
            0
        },
        adults_right: if s.prefix.len < 64 {
            spec_count_matching_adults(s.nodes, s.prefix.spec_child(true), params) as u64
        } else {
            0
        },
    }
}

/// All the validator's warnings, in map order.
pub open spec fn spec_warnings(ss: Seq<SectionView>, params: Params) -> Seq<CapacityWarning>
    decreases ss.len(),
{
    if ss.len() == 0 {
        Seq::empty()
    } else {
        let rest = spec_warnings(ss.drop_last(), params);
        if is_oversized(ss.last(), params) {
            rest.push(warning_of(ss.last(), params))
        } else {
            rest
        }
    }
}

/// Both relocation caches of every section of the map are empty.
pub open spec fn all_caches_clear(ss: Seq<SectionView>) -> bool {
    forall|i: int|
        0 <= i < ss.len() ==> (#[trigger] ss[i]).incoming.len() == 0 && ss[i].outgoing.len() == 0
}

/// The total member count of the map, saturating at the top of `u64`.
pub open spec fn sat_total_nodes(ss: Seq<SectionView>) -> u64
    decreases ss.len(),
{
    if ss.len() == 0 {
        0
    } else {
        sat64(sat_total_nodes(ss.drop_last()) + ss.last().nodes.len())
    }
}

/// One section's member ages, as reported.
pub open spec fn section_ages(s: SectionView) -> Seq<u64> {
    s.nodes.map_values(|n: Node| n.age as u64)
}

/// Every member age of the map, in map order.
pub open spec fn all_ages(ss: Seq<SectionView>) -> Seq<u64>
    decreases ss.len(),
{
    if ss.len() == 0 {
        Seq::empty()
    } else {
        all_ages(ss.drop_last()) + section_ages(ss.last())
    }
}

/// Every section's size, in map order.
pub open spec fn section_sizes(ss: Seq<SectionView>) -> Seq<u64> {
    ss.map_values(|s: SectionView| s.nodes.len() as u64)
}

/// Every section's prefix length, in map order.
pub open spec fn prefix_lens(ss: Seq<SectionView>) -> Seq<u64> {
    ss.map_values(|s: SectionView| s.prefix.len)
}

/// How many sections of the map are complete.
pub open spec fn complete_count(ss: Seq<SectionView>, params: Params) -> nat
    decreases ss.len(),
{
    if ss.len() == 0 {
        0
    } else {
        complete_count(ss.drop_last(), params) + if ss.last().spec_is_complete(params) {
            1nat
        } else {
            0nat
        }
    }
}

/// One step of the action interpreter over the map.
pub open spec fn spec_apply_action(ss: Seq<SectionView>, a: Action) -> Seq<SectionView> {
    match a {
        Action::Reject(_) => ss,
        Action::Merge(t) => spec_resolve_merge(ss, t),
        Action::Split(p) => spec_resolve_split(ss, p),
        Action::Send(m) => spec_resolve_send(ss, m),
    }
}

/// One step of the counter accumulator: a rejection always counts; a merge
/// counts exactly once when it absorbed anything, however many sources it
/// folded; a split counts even when its source is stale; a relocation counts
/// when a commit is delivered.
pub open spec fn spec_apply_stats(ss: Seq<SectionView>, a: Action, s: TickStats) -> TickStats {
    match a {
        Action::Reject(_) => TickStats { rejections: sat64(s.rejections + 1), ..s },
        Action::Merge(t) => if merge_sources(ss, t).len() > 0 {
            TickStats { merges: sat64(s.merges + 1), ..s }
        } else {
            s
        },
        Action::Split(_) => TickStats { splits: sat64(s.splits + 1), ..s },
        Action::Send(m) => if m is RelocateCommit {
            TickStats { relocations: sat64(s.relocations + 1), ..s }
        } else {
            s
        },
    }
}

/// The interpreter for one round's action list, in emitted order.
pub open spec fn spec_apply_actions(ss: Seq<SectionView>, acts: Seq<Action>, s: TickStats) -> (
    Seq<SectionView>,
    TickStats,
)
    decreases acts.len(),
{
    if acts.len() == 0 {
        (ss, s)
    } else {
        spec_apply_actions(
            spec_apply_action(ss, acts.first()),
            acts.drop_first(),
            spec_apply_stats(ss, acts.first(), s),
        )
    }
}

/// Every section after the prepare hook: same prefix and nodes, both
/// relocation caches reset.
pub open spec fn prepared_views(ss: Seq<SectionView>) -> Seq<SectionView> {
    ss.map_values(
        |s: SectionView| SectionView {
            incoming: Seq::<u64>::empty(),
            outgoing: Seq::<u64>::empty(),
            ..s
        },
    )
}

/// The actions one evaluation round collects: every section's emissions,
/// concatenated in map order.
pub open spec fn spec_collect_actions(ss: Seq<SectionView>, params: Params) -> Seq<Action>
    decreases ss.len(),
{
    if ss.len() == 0 {
        Seq::empty()
    } else {
        spec_collect_actions(ss.drop_last(), params) + ss.last().spec_evaluate(params)
    }
}

/// The fixpoint phase as a function of the map alone: resolve round after
/// round until one collects nothing, running at most `fuel` resolution
/// rounds.  Yields the final map, the accumulated counters, and whether the
/// rounds converged within the fuel.
pub open spec fn spec_run_rounds(
    ss: Seq<SectionView>,
    s: TickStats,
    params: Params,
    fuel: nat,
) -> (Seq<SectionView>, TickStats, bool)
    decreases fuel,
{
    let acts = spec_collect_actions(ss, params);
    if acts.len() == 0 {
        (ss, s, true)
    } else if fuel == 0 {
        (ss, s, false)
    } else {
        let folded = spec_apply_actions(
            ss,
            acts,
            TickStats { merges: 0, splits: 0, relocations: 0, rejections: 0 },
        );
        spec_run_rounds(folded.0, combine_stats(s, folded.1), params, (fuel - 1) as nat)
    }
}

/// Find the first position of `v` holding exactly the prefix `p`.
fn find_prefix_index(v: &Vec<Section>, p: Prefix) -> (r: Option<usize>)
    ensures
        match r {
            Some(i) => i < views(v@).len() && views(v@)[i as int].prefix == p && forall|j: int|
                0 <= j < i ==> (#[trigger] views(v@)[j]).prefix != p,
            None => !has_prefix(views(v@), p),
        },
{
    let mut i: usize = 0;
    while i < v.len()
        invariant
            i <= v@.len(),
            forall|j: int| 0 <= j < i ==> (#[trigger] views(v@)[j]).prefix != p,
        decreases v@.len() - i,
    {
        proof {
            assert(views(v@)[i as int] == v@[i as int]@);
        }
        if v[i].prefix() == p {
            return Some(i);
        }
        i = i + 1;
    }
    None
}

/// The simulated network: the partition map, its parameters and the durable
/// statistics sink.
pub struct Network {
    params: Params,
    stats: Stats,
    sections: Vec<Section>,
}

impl Network {
    /// The current partition map, in map order.
    pub closed spec fn sections_view(self) -> Seq<SectionView> {
        views(self.sections@)
    }

    pub closed spec fn spec_params(self) -> Params {
        self.params
    }

    /// The records the sink has received, in tick order.
    pub closed spec fn spec_stats(self) -> Seq<StatsRecord> {
        self.stats.records@
    }

    /// The map is a well-formed exact partition of the address space.
    pub open spec fn wf(self) -> bool {
        all_wf(self.sections_view()) && is_partition(self.sections_view())
    }

    /// Create a new simulated network with the given parameters: one empty
    /// section owns the whole address space.
    pub fn new(params: Params) -> (r: Network)
        ensures
            r.wf(),
            r.spec_params() == params,
            r.spec_stats() =~= Seq::<StatsRecord>::empty(),
            r.sections_view().len() == 1,
            r.sections_view()[0].prefix.len == 0,
            r.sections_view()[0].nodes =~= Seq::<Node>::empty(),
            r.sections_view()[0].incoming =~= Seq::<u64>::empty(),
            r.sections_view()[0].outgoing =~= Seq::<u64>::empty(),
    {
        let root = Prefix::root();
        let mut sections: Vec<Section> = Vec::new();
        sections.push(Section::new(root));
        proof {
            let ss = views(sections@);
            assert(ss.len() == 1);
            assert(ss[0] == sections@[0]@);
            assert forall|a: u64| #[trigger] unique_cover(ss, a) by {
                crate::prefix::lemma_root_covers(root, a);
                assert(covers_at(ss, a, 0));
            }
        }
        Network { params, stats: Stats::new(), sections }
    }

    /// Read-only access to the statistics sink.
    pub fn stats(&self) -> (r: &Stats)
        ensures
            r.records@ == self.spec_stats(),
    {
        &self.stats
    }

    /// How many sections the map currently holds.
    pub fn section_count(&self) -> (r: usize)
        ensures
            r == self.sections_view().len(),
    {
        self.sections.len()
    }

    /// The index of the one section responsible for `addr`.  That exactly
    /// one exists is the partition invariant.
    pub fn matching_section_index(&self, addr: u64) -> (r: usize)
        requires
            self.wf(),
        ensures
            covers_at(self.sections_view(), addr, r as int),
            forall|j: int| covers_at(self.sections_view(), addr, j) ==> j == r,
    {
        let ghost ss = self.sections_view();
        let mut i: usize = 0;
        while i < self.sections.len()
            invariant
                self.wf(),
                ss == self.sections_view(),
                i <= ss.len(),
                forall|j: int| 0 <= j < i ==> !covers_at(ss, addr, j),
            decreases ss.len() - i,
        {
            proof {
                assert(ss[i as int].wf());
                assert(ss[i as int] == self.sections@[i as int]@);
            }
            if self.sections[i].prefix().matches(addr) {
                proof {
                    assert(covers_at(ss, addr, i as int));
                    assert(unique_cover(ss, addr));
                }
                return i;
            }
            i = i + 1;
        }
        proof {
            assert(unique_cover(ss, addr));
            let w = choose|j: int| covers_at(ss, addr, j);
            assert(!covers_at(ss, addr, w));
            assert(false);
        }
        0
    }

    /// The total member count of the map, saturating at the top of `u64`.
    fn total_node_count(&self) -> (r: u64)
        ensures
            r == sat_total_nodes(self.sections_view()),
    {
        let ghost ss = self.sections_view();
        let mut total: u64 = 0;
        let mut i: usize = 0;
        while i < self.sections.len()
            invariant
                ss == self.sections_view(),
                i <= ss.len(),
                total == sat_total_nodes(ss.subrange(0, i as int)),
            decreases ss.len() - i,
        {
            proof {
                assert(ss[i as int] == self.sections@[i as int]@);
                assert(ss.subrange(0, i + 1).drop_last() =~= ss.subrange(0, i as int));
                assert(ss.subrange(0, i + 1).last() == ss[i as int]);
            }
            let here = self.sections[i].nodes().len() as u64;
            total = crate::stats::sat_add_u64(total, here);
            i = i + 1;
        }
        proof {
            assert(ss.subrange(0, ss.len() as int) =~= ss);
        }
        total
    }

    /// Post-tick consistency checks.  A section still over the maximum size
    /// yields a non-fatal warning with projected adult counts for its
    /// eventual split.  A non-empty relocation cache is a broken contract:
    /// every relocation must be committed or cancelled within its tick, so
    /// the run must abort.
    pub fn validate(&self) -> (r: Result<Vec<CapacityWarning>, Fatal>)
        requires
            self.wf(),
        ensures
            (match r {
                Ok(ws) => ws@ == spec_warnings(self.sections_view(), self.spec_params())
                    && all_caches_clear(self.sections_view()),
                Err(f) => {
                    &&& !all_caches_clear(self.sections_view())
                    &&& exists|i: int|
                        {
                            &&& 0 <= i < self.sections_view().len()
                            &&& ((#[trigger] self.sections_view()[i]).incoming.len() > 0
                                || self.sections_view()[i].outgoing.len() > 0)
                            &&& f == Fatal::RelocationCacheNotCleared(
                                self.sections_view()[i].prefix,
                            )
                            &&& forall|j: int|
                                0 <= j < i ==> (#[trigger] self.sections_view()[j]).incoming.len()
                                    == 0 && self.sections_view()[j].outgoing.len() == 0
                        }
                },
            }),
    {
        let ghost ss = self.sections_view();
        let mut warnings: Vec<CapacityWarning> = Vec::new();
        let mut i: usize = 0;
        while i < self.sections.len()
            invariant
                self.wf(),
                ss == self.sections_view(),
                i <= ss.len(),
                warnings@ == spec_warnings(ss.subrange(0, i as int), self.spec_params()),
                forall|j: int|
                    0 <= j < i ==> (#[trigger] ss[j]).incoming.len() == 0 && ss[j].outgoing.len()
                        == 0,
            decreases ss.len() - i,
        {
            proof {
                assert(ss[i as int] == self.sections@[i as int]@);
                assert(ss[i as int].wf());
                assert(ss.subrange(0, i + 1).drop_last() =~= ss.subrange(0, i as int));
                assert(ss.subrange(0, i + 1).last() == ss[i as int]);
            }
            let prefix = self.sections[i].prefix();
            if self.sections[i].nodes().len() > self.params.max_section_size {
                // a section at full prefix depth has no split left to
                // project: both projections read zero
                let (count0, count1) = if prefix.len < 64 {
                    let (c0, c1) = prefix.split();
                    (
                        count_matching_adults(&self.params, c0, self.sections[i].nodes()),
                        count_matching_adults(&self.params, c1, self.sections[i].nodes()),
                    )
                } else {
                    (0, 0)
                };
                warnings.push(
                    CapacityWarning {
                        prefix,
                        node_count: self.sections[i].nodes().len() as u64,
                        adults_left: count0,
                        adults_right: count1,
                    },
                );
                proof {
                    assert(warnings@ =~= spec_warnings(
                        ss.subrange(0, i + 1),
                        self.spec_params(),
                    ));
                }
            }
            if self.sections[i].incoming_relocations().len() > 0 {
                return Err(Fatal::RelocationCacheNotCleared(prefix));
            }
            if self.sections[i].outgoing_relocations().len() > 0 {
                return Err(Fatal::RelocationCacheNotCleared(prefix));
            }
            i = i + 1;
        }
        proof {
            assert(ss.subrange(0, ss.len() as int) =~= ss);
        }
        Ok(warnings)
    }

    /// Execute a single iteration of the simulation: prepare every section,
    /// resolve rounds of actions until a round emits none (never deferring
    /// convergence to the next tick), report one record to the statistics
    /// sink, and validate the converged map.  The whole tick is a function
    /// of the map and the parameters alone: `spec_run_rounds` determines the
    /// final map, the recorded counters, and whether the round cap was hit.
    pub fn tick(&mut self, iteration: u64) -> (r: Result<(), Fatal>)
        requires
            old(self).wf(),
        ensures
            final(self).wf(),
            final(self).spec_params() == old(self).spec_params(),
            ({
                let run = spec_run_rounds(
                    prepared_views(old(self).sections_view()),
                    TickStats { merges: 0, splits: 0, relocations: 0, rejections: 0 },
                    old(self).spec_params(),
                    old(self).spec_params().max_rounds_per_tick as nat,
                );
                &&& final(self).sections_view() == run.0
                &&& (run.2 <==> r != Err::<(), Fatal>(Fatal::RoundCapExceeded))
                &&& (!run.2 ==> r == Err::<(), Fatal>(Fatal::RoundCapExceeded)
                    && final(self).spec_stats() == old(self).spec_stats())
                &&& (run.2 ==> final(self).spec_stats() == old(self).spec_stats().push(
                    StatsRecord {
                        iteration,
                        total_nodes: sat_total_nodes(run.0),
                        section_count: run.0.len() as u64,
                        merges: run.1.merges,
                        splits: run.1.splits,
                        relocations: run.1.relocations,
                        rejections: run.1.rejections,
                    },
                ))
                &&& (r is Ok <==> run.2 && all_caches_clear(run.0))
            }),
            r != Err::<(), Fatal>(Fatal::RoundCapExceeded) ==> forall|i: int|
                0 <= i < final(self).sections_view().len() ==> (#[trigger] final(self).sections_view()[i]).spec_evaluate(old(self).spec_params()).len() == 0,
            r is Ok ==> all_caches_clear(final(self).sections_view()),
    {
        let ghost params0 = self.spec_params();

        // prepare phase: every section resets its per-tick transient state;
        // the order across sections cannot affect the outcome, since each
        // touches only its own entry
        let ghost ss = self.sections_view();
        let ghost n = ss.len() as int;
        let mut prepared: Vec<Section> = Vec::new();
        let ghost mut k: int = 0;
        while self.sections.len() > 0
            invariant
                old(self).wf(),
                ss == old(self).sections_view(),
                self.spec_params() == old(self).spec_params(),
                self.spec_stats() == old(self).spec_stats(),
                n == ss.len(),
                0 <= k <= n,
                self.sections@.len() == n - k,
                views(self.sections@) == ss.subrange(k, n),
                views(prepared@).len() == k,
                forall|j: int|
                    0 <= j < k ==> views(prepared@)[j] == (SectionView {
                        incoming: Seq::<u64>::empty(),
                        outgoing: Seq::<u64>::empty(),
                        ..ss[j]
                    }),
                forall|j: int| 0 <= j < k ==> (#[trigger] views(prepared@)[j]).wf(),
            decreases self.sections@.len(),
        {
            let ghost prev = self.sections@;
            let mut s = self.sections.remove(0);
            proof {
                assert(ss.subrange(k, n)[0] == ss[k]);
                assert(s@ == ss[k]);
                assert(ss[k].wf());
            }
            s.prepare();
            let ghost prev_prepared = prepared@;
            prepared.push(s);
            proof {
                k = k + 1;
                assert forall|j: int| 0 <= j < k implies views(prepared@)[j] == (SectionView {
                    incoming: Seq::<u64>::empty(),
                    outgoing: Seq::<u64>::empty(),
                    ..ss[j]
                }) by {
                    assert(views(prepared@)[j] == prepared@[j]@);
                    if j < k - 1 {
                        assert(prepared@[j] == prev_prepared[j]);
                        assert(views(prev_prepared)[j] == prev_prepared[j]@);
                    } else {
                        assert(prepared@[j] == s);
                        assert(s@.incoming =~= Seq::<u64>::empty());
                        assert(s@.outgoing =~= Seq::<u64>::empty());
                    }
                }
                assert forall|j: int| 0 <= j < k implies (#[trigger] views(prepared@)[j]).wf() by {
                    assert(views(prepared@)[j] == prepared@[j]@);
                    if j < k - 1 {
                        assert(prepared@[j] == prev_prepared[j]);
                        assert(views(prev_prepared)[j] == prev_prepared[j]@);
                        assert(views(prev_prepared)[j].wf());
                    } else {
                        assert(prepared@[j] == s);
                    }
                }
                assert forall|m: int| 0 <= m < self.sections@.len() implies views(
                    self.sections@,
                )[m] == ss.subrange(k, n)[m] by {
                    assert(views(self.sections@)[m] == self.sections@[m]@);
                    assert(self.sections@[m] == prev[m + 1]);
                    assert(views(prev)[m + 1] == prev[m + 1]@);
                    assert(views(prev)[m + 1] == ss.subrange(k - 1, n)[m + 1]);
                }
                assert(views(self.sections@) =~= ss.subrange(k, n));
                assert(views(prepared@)[k - 1] == s@);
            }
        }
        self.sections = prepared;
        proof {
            let new_ss = self.sections_view();
            assert(new_ss.len() == n);
            assert forall|j: int| 0 <= j < n implies (#[trigger] new_ss[j]).prefix == ss[
                j
            ].prefix by {
                assert(new_ss[j] == (SectionView {
                    incoming: Seq::<u64>::empty(),
                    outgoing: Seq::<u64>::empty(),
                    ..ss[j]
                }));
            }
            assert forall|a: u64| #[trigger] unique_cover(new_ss, a) by {
                assert(unique_cover(ss, a));
                assert forall|p: int, q: int|
                    covers_at(new_ss, a, p) && covers_at(new_ss, a, q) implies p == q by {
                    assert(covers_at(ss, a, p));
                    assert(covers_at(ss, a, q));
                }
                let w = choose|o: int| covers_at(ss, a, o);
                assert(covers_at(new_ss, a, w));
            }
            assert forall|j: int| 0 <= j < n implies new_ss[j] == prepared_views(ss)[j] by {
                assert(prepared_views(ss)[j] == (SectionView {
                    incoming: Seq::<u64>::empty(),
                    outgoing: Seq::<u64>::empty(),
                    ..ss[j]
                }));
            }
            assert(new_ss =~= prepared_views(ss));
        }

        // fixpoint phase: collect one round of actions from every section
        // and resolve them, until a round emits nothing; a defensive cap on
        // the number of rounds turns a runaway cascade into a fatal outcome
        let ghost prep = self.sections_view();
        let ghost zstats = TickStats { merges: 0, splits: 0, relocations: 0, rejections: 0 };
        let cap = self.params.max_rounds_per_tick;
        let mut total = TickStats::new();
        let mut rounds: u64 = 0;
        proof {
            assert(total == zstats);
        }
        loop
            invariant
                self.wf(),
                self.spec_params() == old(self).spec_params(),
                self.spec_stats() == old(self).spec_stats(),
                params0 == old(self).spec_params(),
                cap == params0.max_rounds_per_tick,
                rounds <= cap,
                prep == prepared_views(old(self).sections_view()),
                spec_run_rounds(prep, zstats, params0, cap as nat) == spec_run_rounds(
                    self.sections_view(),
                    total,
                    params0,
                    (cap - rounds) as nat,
                ),
                zstats == (TickStats { merges: 0, splits: 0, relocations: 0, rejections: 0 }),
            ensures
                self.wf(),
                self.spec_params() == old(self).spec_params(),
                self.spec_stats() == old(self).spec_stats(),
                spec_run_rounds(prep, zstats, params0, cap as nat) == (
                    self.sections_view(),
                    total,
                    true,
                ),
                forall|i: int|
                    0 <= i < self.sections_view().len() ==> (#[trigger] self.sections_view()[
                        i
                    ]).spec_evaluate(params0).len() == 0,
            decreases cap - rounds,
        {
            let ghost round_ss = self.sections_view();
            let mut actions: Vec<Action> = Vec::new();
            let mut i: usize = 0;
            while i < self.sections.len()
                invariant
                    self.wf(),
                    round_ss == self.sections_view(),
                    self.spec_params() == params0,
                    i <= round_ss.len(),
                    forall|m: int| 0 <= m < actions@.len() ==> (#[trigger] actions@[m]).wf(),
                    actions@ == spec_collect_actions(round_ss.subrange(0, i as int), params0),
                    actions@.len() == 0 ==> forall|j: int|
                        0 <= j < i ==> (#[trigger] round_ss[j]).spec_evaluate(params0).len() == 0,
                decreases round_ss.len() - i,
            {
                proof {
                    assert(round_ss[i as int] == self.sections@[i as int]@);
                    assert(round_ss[i as int].wf());
                }
                let mut acts = self.sections[i].evaluate(&self.params);
                actions.append(&mut acts);
                proof {
                    assert(round_ss.subrange(0, i + 1).drop_last() =~= round_ss.subrange(
                        0,
                        i as int,
                    ));
                    assert(round_ss.subrange(0, i + 1).last() == round_ss[i as int]);
                    assert(actions@ =~= spec_collect_actions(
                        round_ss.subrange(0, i + 1),
                        params0,
                    ));
                }
                i = i + 1;
            }
            proof {
                assert(round_ss.subrange(0, round_ss.len() as int) =~= round_ss);
            }
            let ghost acts_v = actions@;
            if actions.is_empty() {
                proof {
                    assert(spec_collect_actions(round_ss, params0).len() == 0);
                    assert(spec_run_rounds(round_ss, total, params0, (cap - rounds) as nat) == (
                        round_ss,
                        total,
                        true,
                    ));
                }
                break;
            }
            if rounds == cap {
                proof {
                    assert(spec_run_rounds(round_ss, total, params0, 0nat) == (
                        round_ss,
                        total,
                        false,
                    ));
                }
                return Err(Fatal::RoundCapExceeded);
            }
            let ghost pre_total = total;
            let ghost pre_rounds = rounds as int;
            rounds = rounds + 1;
            let st = match self.handle_actions(actions) {
                Ok(st) => st,
                Err(f) => {
                    return Err(f);
                },
            };
            total.combine(st);
            proof {
                let folded = spec_apply_actions(round_ss, acts_v, zstats);
                assert(self.sections_view() == folded.0);
                assert(st == folded.1);
                assert(total == combine_stats(pre_total, st));
                assert(acts_v == spec_collect_actions(round_ss, params0));
                assert(acts_v.len() > 0);
                assert(cap - pre_rounds > 0);
                assert(spec_run_rounds(round_ss, pre_total, params0, (cap - pre_rounds) as nat)
                    == spec_run_rounds(
                    folded.0,
                    combine_stats(pre_total, folded.1),
                    params0,
                    (cap - pre_rounds - 1) as nat,
                ));
            }
        }

        // record phase: one report to the sink per tick
        let total_nodes = self.total_node_count();
        let section_count = self.sections.len() as u64;
        self.stats.record(
            iteration,
            total_nodes,
            section_count,
            total.merges,
            total.splits,
            total.relocations,
            total.rejections,
        );

        // validate phase: warnings are informational; a dirty relocation
        // cache aborts the run
        match self.validate() {
            Ok(_) => Ok(()),
            Err(f) => Err(f),
        }
    }

    /// The map's prefixes, in map order.
    pub fn prefixes(&self) -> (r: Vec<Prefix>)
        ensures
            r@.len() == self.sections_view().len(),
            forall|i: int|
                0 <= i < r@.len() ==> r@[i] == (#[trigger] self.sections_view()[i]).prefix,
    {
        let ghost ss = self.sections_view();
        let mut r: Vec<Prefix> = Vec::new();
        let mut i: usize = 0;
        while i < self.sections.len()
            invariant
                ss == self.sections_view(),
                i <= ss.len(),
                r@.len() == i,
                forall|j: int| 0 <= j < i ==> r@[j] == (#[trigger] ss[j]).prefix,
            decreases ss.len() - i,
        {
            proof {
                assert(ss[i as int] == self.sections@[i as int]@);
            }
            r.push(self.sections[i].prefix());
            i = i + 1;
        }
        r
    }

    /// How many nodes the section at position `i` of the map holds.
    pub fn section_node_count(&self, i: usize) -> (r: usize)
        requires
            i < self.sections_view().len(),
        ensures
            r == self.sections_view()[i as int].nodes.len(),
    {
        proof {
            assert(self.sections_view()[i as int] == self.sections@[i as int]@);
        }
        self.sections[i].nodes().len()
    }

    /// How many sections currently need no structural change.
    pub fn num_complete_sections(&self) -> (r: u64)
        ensures
            r == complete_count(self.sections_view(), self.spec_params()),
    {
        let ghost ss = self.sections_view();
        let mut count: u64 = 0;
        let mut i: usize = 0;
        while i < self.sections.len()
            invariant
                ss == self.sections_view(),
                i <= ss.len(),
                count <= i,
                count == complete_count(ss.subrange(0, i as int), self.spec_params()),
            decreases ss.len() - i,
        {
            proof {
                assert(ss[i as int] == self.sections@[i as int]@);
                assert(ss.subrange(0, i + 1).drop_last() =~= ss.subrange(0, i as int));
                assert(ss.subrange(0, i + 1).last() == ss[i as int]);
            }
            if self.sections[i].is_complete(&self.params) {
                count = count + 1;
            }
            i = i + 1;
        }
        proof {
            assert(ss.subrange(0, ss.len() as int) =~= ss);
        }
        count
    }

    /// Every member age of the map, in map order.
    fn collect_ages(&self) -> (r: Vec<u64>)
        ensures
            r@ == all_ages(self.sections_view()),
    {
        let ghost ss = self.sections_view();
        let mut ages: Vec<u64> = Vec::new();
        let mut i: usize = 0;
        while i < self.sections.len()
            invariant
                ss == self.sections_view(),
                i <= ss.len(),
                ages@ == all_ages(ss.subrange(0, i as int)),
            decreases ss.len() - i,
        {
            proof {
                assert(ss[i as int] == self.sections@[i as int]@);
            }
            let nodes = self.sections[i].nodes();
            let mut j: usize = 0;
            while j < nodes.len()
                invariant
                    nodes@ == ss[i as int].nodes,
                    0 <= i < ss.len(),
                    j <= nodes@.len(),
                    ages@ == all_ages(ss.subrange(0, i as int)) + section_ages(
                        ss[i as int],
                    ).subrange(0, j as int),
                decreases nodes@.len() - j,
            {
                proof {
                    assert(section_ages(ss[i as int])[j as int] == nodes@[j as int].age as u64);
                }
                ages.push(nodes[j].age as u64);
                proof {
                    assert(ages@ =~= all_ages(ss.subrange(0, i as int)) + section_ages(
                        ss[i as int],
                    ).subrange(0, j + 1));
                }
                j = j + 1;
            }
            proof {
                assert(section_ages(ss[i as int]).subrange(
                    0,
                    section_ages(ss[i as int]).len() as int,
                ) =~= section_ages(ss[i as int]));
                assert(ss.subrange(0, i + 1).drop_last() =~= ss.subrange(0, i as int));
                assert(ss.subrange(0, i + 1).last() == ss[i as int]);
                assert(ages@ =~= all_ages(ss.subrange(0, i + 1)));
            }
            i = i + 1;
        }
        proof {
            assert(ss.subrange(0, ss.len() as int) =~= ss);
        }
        ages
    }

    /// The distribution of all member ages across the map.
    pub fn age_distribution(&self) -> (r: Distribution)
        ensures
            r@ == all_ages(self.sections_view()),
    {
        Distribution::new(self.collect_ages())
    }

    /// Summary figures of all member ages across the map.
    pub fn age_aggregator(&self) -> (r: Aggregator)
        ensures
            r.count == all_ages(self.sections_view()).len(),
            r.sum == seq_sum_sat(all_ages(self.sections_view())),
            r.min == seq_min(all_ages(self.sections_view())),
            r.max == seq_max(all_ages(self.sections_view())),
    {
        let ages = self.collect_ages();
        Aggregator::new(&ages)
    }

    /// Summary figures of the sections' sizes.
    pub fn section_size_aggregator(&self) -> (r: Aggregator)
        ensures
            r.count == section_sizes(self.sections_view()).len(),
            r.sum == seq_sum_sat(section_sizes(self.sections_view())),
            r.min == seq_min(section_sizes(self.sections_view())),
            r.max == seq_max(section_sizes(self.sections_view())),
    {
        let ghost ss = self.sections_view();
        let mut sizes: Vec<u64> = Vec::new();
        let mut i: usize = 0;
        while i < self.sections.len()
            invariant
                ss == self.sections_view(),
                i <= ss.len(),
                sizes@ == section_sizes(ss).subrange(0, i as int),
            decreases ss.len() - i,
        {
            proof {
                assert(ss[i as int] == self.sections@[i as int]@);
                assert(section_sizes(ss)[i as int] == ss[i as int].nodes.len() as u64);
            }
            sizes.push(self.sections[i].nodes().len() as u64);
            proof {
                assert(sizes@ =~= section_sizes(ss).subrange(0, i + 1));
            }
            i = i + 1;
        }
        proof {
            assert(section_sizes(ss).subrange(0, section_sizes(ss).len() as int) =~= section_sizes(
                ss,
            ));
        }
        Aggregator::new(&sizes)
    }

    /// Summary figures of the prefixes' lengths.
    pub fn prefix_len_aggregator(&self) -> (r: Aggregator)
        ensures
            r.count == prefix_lens(self.sections_view()).len(),
            r.sum == seq_sum_sat(prefix_lens(self.sections_view())),
            r.min == seq_min(prefix_lens(self.sections_view())),
            r.max == seq_max(prefix_lens(self.sections_view())),
    {
        let ghost ss = self.sections_view();
        let mut lens: Vec<u64> = Vec::new();
        let mut i: usize = 0;
        while i < self.sections.len()
            invariant
                ss == self.sections_view(),
                i <= ss.len(),
                lens@ == prefix_lens(ss).subrange(0, i as int),
            decreases ss.len() - i,
        {
            proof {
                assert(ss[i as int] == self.sections@[i as int]@);
                assert(prefix_lens(ss)[i as int] == ss[i as int].prefix.len);
            }
            lens.push(self.sections[i].prefix().len);
            proof {
                assert(lens@ =~= prefix_lens(ss).subrange(0, i + 1));
            }
            i = i + 1;
        }
        proof {
            assert(prefix_lens(ss).subrange(0, prefix_lens(ss).len() as int) =~= prefix_lens(ss));
        }
        Aggregator::new(&lens)
    }

    /// Whether some entry of the map holds exactly the prefix `p`.
    fn contains_prefix(&self, p: Prefix) -> (r: bool)
        ensures
            r == has_prefix(self.sections_view(), p),
    {
        let ghost ss = self.sections_view();
        let mut i: usize = 0;
        while i < self.sections.len()
            invariant
                ss == self.sections_view(),
                i <= ss.len(),
                forall|j: int| 0 <= j < i ==> (#[trigger] ss[j]).prefix != p,
            decreases ss.len() - i,
        {
            proof {
                assert(ss[i as int] == self.sections@[i as int]@);
            }
            if self.sections[i].prefix() == p {
                return true;
            }
            i = i + 1;
        }
        false
    }

    /// Deliver a routed message to the one section whose prefix covers its
    /// target.  An unmatched target would be partition corruption and is
    /// fatal; while the partition invariant holds, that outcome is verified
    /// never to arise.
    pub fn resolve_send(&mut self, msg: Message) -> (r: Result<(), Fatal>)
        requires
            old(self).wf(),
        ensures
            final(self).wf(),
            final(self).spec_params() == old(self).spec_params(),
            final(self).spec_stats() == old(self).spec_stats(),
            r is Ok,
            final(self).sections_view() == spec_resolve_send(old(self).sections_view(), msg),
    {
        let ghost ss = self.sections_view();
        let target = msg.target();
        let mut i: usize = 0;
        while i < self.sections.len()
            invariant
                old(self).wf(),
                ss == old(self).sections_view(),
                ss == self.sections_view(),
                self.spec_params() == old(self).spec_params(),
                self.spec_stats() == old(self).spec_stats(),
                target == msg.spec_target(),
                i <= ss.len(),
                forall|j: int| 0 <= j < i ==> !covers_at(ss, target, j),
            decreases ss.len() - i,
        {
            proof {
                assert(ss[i as int].wf());
                assert(ss[i as int] == self.sections@[i as int]@);
            }
            if self.sections[i].prefix().matches(target) {
                let mut s = self.sections.remove(i);
                s.receive(msg);
                self.sections.insert(i, s);
                proof {
                    assert(covers_at(ss, target, i as int));
                    assert(unique_cover(ss, target));
                    let c = choose|k: int| covers_at(ss, target, k);
                    assert(covers_at(ss, target, c));
                    assert(c == i as int);
                    let tv = received_view(ss[i as int], msg);
                    assert(s@ == tv);
                    let new_ss = self.sections_view();
                    assert forall|j: int| 0 <= j < new_ss.len() implies new_ss[j] == ss.update(
                        i as int,
                        tv,
                    )[j] by {
                        assert(new_ss[j] == self.sections@[j]@);
                    }
                    assert(new_ss =~= ss.update(i as int, tv));
                    assert forall|a: u64| #[trigger] unique_cover(new_ss, a) by {
                        assert(unique_cover(ss, a));
                        assert forall|p: int, q: int|
                            covers_at(new_ss, a, p) && covers_at(new_ss, a, q) implies p == q by {
                            assert(new_ss[p].prefix == ss[p].prefix);
                            assert(new_ss[q].prefix == ss[q].prefix);
                            assert(covers_at(ss, a, p));
                            assert(covers_at(ss, a, q));
                        }
                        let w = choose|k: int| covers_at(ss, a, k);
                        assert(new_ss[w].prefix == ss[w].prefix);
                        assert(covers_at(new_ss, a, w));
                    }
                    assert forall|j: int| 0 <= j < new_ss.len() implies (#[trigger] new_ss[j]).wf()
                        by {
                        if j != i {
                            assert(new_ss[j] == ss[j]);
                            assert(ss[j].wf());
                        }
                    }
                }
                return Ok(());
            }
            i = i + 1;
        }
        // no section covers the target: fatal partition corruption; the
        // partition invariant rules this exit out
        proof {
            assert(unique_cover(ss, target));
            let w = choose|j: int| covers_at(ss, target, j);
            assert(false);
        }
        Err(Fatal::UnmatchedSendTarget(target))
    }

    /// Replace the section at `source` by its two children.  A stale source
    /// (already absorbed by an earlier merge of the same round) is a benign
    /// no-op; an already-mapped child prefix would be partition corruption
    /// and is fatal, which the partition invariant rules out.
    pub fn resolve_split(&mut self, source: Prefix) -> (r: Result<bool, Fatal>)
        requires
            old(self).wf(),
            source.wf(),
            source.len < 64,
        ensures
            final(self).wf(),
            final(self).spec_params() == old(self).spec_params(),
            final(self).spec_stats() == old(self).spec_stats(),
            r == Ok::<bool, Fatal>(has_prefix(old(self).sections_view(), source)),
            final(self).sections_view() == spec_resolve_split(old(self).sections_view(), source),
            has_prefix(old(self).sections_view(), source) ==> final(self).sections_view().len()
                == old(self).sections_view().len() + 1,
    {
        let ghost ss = self.sections_view();
        let ghost n = ss.len() as int;
        let mut j: usize = 0;
        while j < self.sections.len()
            invariant
                old(self).wf(),
                source.wf(),
                source.len < 64,
                ss == old(self).sections_view(),
                ss == self.sections_view(),
                self.spec_params() == old(self).spec_params(),
                self.spec_stats() == old(self).spec_stats(),
                n == ss.len(),
                j <= ss.len(),
                forall|k: int| 0 <= k < j ==> (#[trigger] ss[k]).prefix != source,
            decreases ss.len() - j,
        {
            proof {
                assert(ss[j as int].wf());
                assert(ss[j as int] == self.sections@[j as int]@);
            }
            if self.sections[j].prefix() == source {
                let s = self.sections.remove(j);
                proof {
                    assert(ss[j as int] == s@);
                }
                let (s0, s1) = s.split(&self.params);
                let c0 = s0.prefix();
                let c1 = s1.prefix();
                proof {
                    let cur = self.sections_view();
                    assert forall|k: int| 0 <= k < cur.len() implies cur[k] == ss.remove(
                        j as int,
                    )[k] by {
                        assert(cur[k] == self.sections@[k]@);
                    }
                    assert(cur =~= ss.remove(j as int));
                    lemma_child_strict_descendant(source, false);
                    lemma_child_strict_descendant(source, true);
                    assert(!has_prefix(cur, c0) && !has_prefix(cur, c1)) by {
                        assert forall|k: int|
                            0 <= k < cur.len() implies (#[trigger] cur[k]).prefix != c0 && cur[
                            k
                        ].prefix != c1 by {
                            let o = if k < j { k } else { k + 1 };
                            assert(cur[k] == ss[o]);
                            if cur[k].prefix == c0 {
                                let w = c0.base_addr();
                                lemma_covers_base_addr(c0);
                                lemma_ancestor_covers(source, c0, w);
                                assert(covers_at(ss, w, o));
                                assert(covers_at(ss, w, j as int));
                                assert(unique_cover(ss, w));
                                assert(false);
                            }
                            if cur[k].prefix == c1 {
                                let w = c1.base_addr();
                                lemma_covers_base_addr(c1);
                                lemma_ancestor_covers(source, c1, w);
                                assert(covers_at(ss, w, o));
                                assert(covers_at(ss, w, j as int));
                                assert(unique_cover(ss, w));
                                assert(false);
                            }
                        }
                    }
                }
                if self.contains_prefix(c0) {
                    return Err(Fatal::DuplicateChildPrefix(c0));
                }
                if self.contains_prefix(c1) {
                    return Err(Fatal::DuplicateChildPrefix(c1));
                }
                self.sections.push(s0);
                self.sections.push(s1);
                proof {
                    let v0 = split_views(ss[j as int]).0;
                    let v1 = split_views(ss[j as int]).1;
                    assert(s0@ == v0);
                    assert(s1@ == v1);
                    let new_ss = self.sections_view();
                    assert forall|k: int| 0 <= k < new_ss.len() implies new_ss[k] == (ss.remove(
                        j as int,
                    ) + seq![v0, v1])[k] by {
                        assert(new_ss[k] == self.sections@[k]@);
                    }
                    assert(new_ss =~= ss.remove(j as int) + seq![v0, v1]);
                    assert(has_prefix(ss, source));
                    let ci = choose|i: int| 0 <= i < ss.len() && (#[trigger] ss[i]).prefix
                        == source;
                    lemma_partition_distinct_prefixes(ss, ci, j as int);
                    assert(new_ss == spec_resolve_split(ss, source));
                    assert(forall|k: int| 0 <= k < j ==> new_ss[k] == ss[k]);
                    assert(forall|k: int| j <= k < n - 1 ==> new_ss[k] == ss[k + 1]);
                    assert(new_ss[n - 1] == v0);
                    assert(new_ss[n as int] == v1);
                    assert forall|a: u64| #[trigger] unique_cover(new_ss, a) by {
                        assert(unique_cover(ss, a));
                        lemma_children_partition(source, a);
                        if source.covers(a) {
                            assert forall|k: int| 0 <= k < n - 1 implies !covers_at(
                                new_ss,
                                a,
                                k,
                            ) by {
                                let o = if k < j { k } else { k + 1 };
                                assert(new_ss[k] == ss[o]);
                                if covers_at(new_ss, a, k) {
                                    assert(covers_at(ss, a, o));
                                    assert(covers_at(ss, a, j as int));
                                    assert(false);
                                }
                            }
                            if v0.prefix.covers(a) {
                                assert(covers_at(new_ss, a, n - 1));
                            } else {
                                assert(v1.prefix.covers(a));
                                assert(covers_at(new_ss, a, n));
                            }
                            assert forall|p: int, q: int|
                                covers_at(new_ss, a, p) && covers_at(new_ss, a, q) implies p
                                == q by {
                                assert(p == n - 1 || p == n);
                                assert(q == n - 1 || q == n);
                                assert(!(v0.prefix.covers(a) && v1.prefix.covers(a)));
                            }
                        } else {
                            assert(!v0.prefix.covers(a)) by {
                                if v0.prefix.covers(a) {
                                    lemma_ancestor_covers(source, v0.prefix, a);
                                }
                            }
                            assert(!v1.prefix.covers(a)) by {
                                if v1.prefix.covers(a) {
                                    lemma_ancestor_covers(source, v1.prefix, a);
                                }
                            }
                            let w = choose|k: int| covers_at(ss, a, k);
                            assert(covers_at(ss, a, w));
                            assert(w != j) by {
                                if w == j {
                                    assert(ss[j as int].prefix == source);
                                }
                            }
                            let nw = if w < j { w } else { w - 1 };
                            assert(new_ss[nw] == ss[w]);
                            assert(covers_at(new_ss, a, nw));
                            assert forall|p: int, q: int|
                                covers_at(new_ss, a, p) && covers_at(new_ss, a, q) implies p
                                == q by {
                                assert(p < n - 1 && q < n - 1);
                                let op = if p < j { p } else { p + 1 };
                                let oq = if q < j { q } else { q + 1 };
                                assert(new_ss[p] == ss[op]);
                                assert(new_ss[q] == ss[oq]);
                                assert(covers_at(ss, a, op));
                                assert(covers_at(ss, a, oq));
                                assert(op == oq);
                            }
                        }
                    }
                    assert forall|k: int| 0 <= k < new_ss.len() implies (#[trigger] new_ss[
                        k
                    ]).wf() by {
                        if k < n - 1 {
                            let o = if k < j { k } else { k + 1 };
                            assert(new_ss[k] == ss[o]);
                            assert(ss[o].wf());
                        }
                    }
                }
                return Ok(true);
            }
            j = j + 1;
        }
        proof {
            assert(!has_prefix(ss, source));
        }
        Ok(false)
    }

    /// Fold every section mapped strictly below `target` into the target's
    /// entry, creating it if it is not mapped.  With nothing mapped below
    /// the target (the benign duplicate-merge race) the map is left
    /// untouched and `false` is returned.
    pub fn resolve_merge(&mut self, target: Prefix) -> (merged: bool)
        requires
            old(self).wf(),
            target.wf(),
        ensures
            final(self).wf(),
            final(self).spec_params() == old(self).spec_params(),
            final(self).spec_stats() == old(self).spec_stats(),
            merged == (exists|i: int|
                0 <= i < old(self).sections_view().len() && is_merge_source(
                    #[trigger] old(self).sections_view()[i],
                    target,
                )),
            final(self).sections_view() == spec_resolve_merge(old(self).sections_view(), target),
            !merged ==> final(self).sections_view() == old(self).sections_view(),
    {
        let ghost ss = self.sections_view();
        let ghost n = ss.len() as int;

        // separate the sections strictly below the target from the rest
        let mut kept: Vec<Section> = Vec::new();
        let mut srcs: Vec<Section> = Vec::new();
        let ghost mut k: int = 0;
        while self.sections.len() > 0
            invariant
                old(self).wf(),
                target.wf(),
                ss == old(self).sections_view(),
                self.spec_params() == old(self).spec_params(),
                self.spec_stats() == old(self).spec_stats(),
                n == ss.len(),
                0 <= k <= n,
                self.sections@.len() == n - k,
                views(self.sections@) == ss.subrange(k, n),
                views(kept@) == merge_survivors(ss.subrange(0, k), target),
                views(srcs@) == merge_sources(ss.subrange(0, k), target),
            decreases self.sections@.len(),
        {
            let ghost prev = self.sections@;
            let s = self.sections.remove(0);
            proof {
                assert(ss.subrange(k, n)[0] == ss[k]);
                assert(s@ == ss[k]);
                assert(ss[k].wf());
            }
            let is_src = s.prefix().is_descendant(&target);
            if is_src {
                srcs.push(s);
            } else {
                kept.push(s);
            }
            proof {
                k = k + 1;
                assert(ss.subrange(0, k).drop_last() =~= ss.subrange(0, k - 1));
                assert(ss.subrange(0, k).last() == ss[k - 1]);
                if is_src {
                    assert(views(srcs@) =~= merge_sources(ss.subrange(0, k), target));
                    assert(views(kept@) =~= merge_survivors(ss.subrange(0, k), target));
                } else {
                    assert(views(srcs@) =~= merge_sources(ss.subrange(0, k), target));
                    assert(views(kept@) =~= merge_survivors(ss.subrange(0, k), target));
                }
                assert forall|m: int| 0 <= m < self.sections@.len() implies views(
                    self.sections@,
                )[m] == ss.subrange(k, n)[m] by {
                    assert(views(self.sections@)[m] == self.sections@[m]@);
                    assert(self.sections@[m] == prev[m + 1]);
                    assert(views(prev)[m + 1] == prev[m + 1]@);
                    assert(views(prev)[m + 1] == ss.subrange(k - 1, n)[m + 1]);
                }
                assert(views(self.sections@) =~= ss.subrange(k, n));
            }
        }
        proof {
            assert(k == n);
            assert(ss.subrange(0, n) =~= ss);
        }
        let ghost surv = merge_survivors(ss, target);
        let ghost srcs_views = merge_sources(ss, target);

        if srcs.len() == 0 {
            // benign race: nothing below the target is mapped any more; a
            // duplicate merge for the same target resolves as a no-op
            self.sections = kept;
            proof {
                lemma_no_sources_id(ss, target);
                lemma_sources_nonempty_iff(ss, target);
            }
            return false;
        }
        proof {
            lemma_sources_nonempty_iff(ss, target);
            assert forall|m: int| 0 <= m < srcs_views.len() implies is_merge_source(
                #[trigger] srcs_views[m],
                target,
            ) && srcs_views[m].wf() by {
                lemma_sources_element(ss, target, m);
                let j = choose|j: int| 0 <= j < ss.len() && ss[j] == srcs_views[m];
                assert(ss[j].wf());
            }
        }

        // find the target's entry among the survivors, or create it fresh
        let found = find_prefix_index(&kept, target);
        let mut sec: Section;
        let tpos: usize;
        let has_t: bool;
        match found {
            Some(t) => {
                sec = kept.remove(t);
                tpos = t;
                has_t = true;
                proof {
                    assert(surv[t as int].prefix == target);
                    lemma_survivors_element(ss, target, t as int);
                    let j = choose|j: int|
                        0 <= j < ss.len() && ss[j] == surv[t as int] && !is_merge_source(
                            ss[j],
                            target,
                        );
                    assert(ss[j].wf());
                }
            },
            None => {
                sec = Section::new(target);
                tpos = 0;
                has_t = false;
            },
        }
        let ghost base = sec@;

        // fold every source into the target's entry, in map order
        let ghost mut fk: int = 0;
        while srcs.len() > 0
            invariant
                target.wf(),
                0 <= fk <= srcs_views.len(),
                srcs@.len() == srcs_views.len() - fk,
                views(srcs@) == srcs_views.subrange(fk, srcs_views.len() as int),
                forall|m: int|
                    0 <= m < srcs_views.len() ==> is_merge_source(#[trigger] srcs_views[m], target)
                        && srcs_views[m].wf(),
                sec@.prefix == target,
                sec@.wf(),
                sec@.nodes == base.nodes + concat_nodes(srcs_views.subrange(0, fk)),
                sec@.incoming == base.incoming + concat_incoming(srcs_views.subrange(0, fk)),
                sec@.outgoing == base.outgoing + concat_outgoing(srcs_views.subrange(0, fk)),
            decreases srcs@.len(),
        {
            let ghost prev = srcs@;
            let s = srcs.remove(0);
            proof {
                assert(srcs_views.subrange(fk, srcs_views.len() as int)[0] == srcs_views[fk]);
                assert(s@ == srcs_views[fk]);
            }
            sec.merge(&self.params, s);
            proof {
                fk = fk + 1;
                assert(srcs_views.subrange(0, fk).drop_last() =~= srcs_views.subrange(0, fk - 1));
                assert(srcs_views.subrange(0, fk).last() == srcs_views[fk - 1]);
                assert(sec@.nodes =~= base.nodes + concat_nodes(srcs_views.subrange(0, fk)));
                assert(sec@.incoming =~= base.incoming + concat_incoming(
                    srcs_views.subrange(0, fk),
                ));
                assert(sec@.outgoing =~= base.outgoing + concat_outgoing(
                    srcs_views.subrange(0, fk),
                ));
                assert forall|m: int| 0 <= m < srcs@.len() implies views(srcs@)[m]
                    == srcs_views.subrange(fk, srcs_views.len() as int)[m] by {
                    assert(views(srcs@)[m] == srcs@[m]@);
                    assert(srcs@[m] == prev[m + 1]);
                    assert(views(prev)[m + 1] == prev[m + 1]@);
                    assert(views(prev)[m + 1] == srcs_views.subrange(fk - 1, srcs_views.len() as int)[m
                        + 1]);
                }
                assert(views(srcs@) =~= srcs_views.subrange(fk, srcs_views.len() as int));
            }
        }
        proof {
            assert(srcs_views.subrange(0, srcs_views.len() as int) =~= srcs_views);
        }

        // reinstall the merged entry where the target's entry stood, or at
        // the end if the target was not mapped
        if has_t {
            kept.insert(tpos, sec);
        } else {
            kept.push(sec);
        }
        self.sections = kept;

        proof {
            let new_ss = self.sections_view();
            let mv = merged_view(ss, target);

            // the merged entry is exactly what the model says
            assert(sec@.prefix == target);
            if has_t {
                assert(has_prefix(ss, target)) by {
                    lemma_survivors_element(ss, target, tpos as int);
                    let j = choose|j: int|
                        0 <= j < ss.len() && ss[j] == surv[tpos as int] && !is_merge_source(
                            ss[j],
                            target,
                        );
                    assert(ss[j].prefix == target);
                }
                let tc = choose|t: int| 0 <= t < ss.len() && (#[trigger] ss[t]).prefix == target;
                assert(base == ss[tc]) by {
                    lemma_survivors_element(ss, target, tpos as int);
                    let j = choose|j: int|
                        0 <= j < ss.len() && ss[j] == surv[tpos as int] && !is_merge_source(
                            ss[j],
                            target,
                        );
                    lemma_partition_distinct_prefixes(ss, j, tc);
                }
                assert(sec@ == mv);
            } else {
                assert(!has_prefix(ss, target)) by {
                    if has_prefix(ss, target) {
                        let t = choose|t: int|
                            0 <= t < ss.len() && (#[trigger] ss[t]).prefix == target;
                        lemma_survivors_contain(ss, target, t);
                        let w = choose|w: int|
                            0 <= w < surv.len() && merge_survivors(ss, target)[w] == ss[t];
                        assert(has_prefix(surv, target));
                    }
                }
                assert(base.nodes =~= Seq::<Node>::empty());
                assert(base.nodes + concat_nodes(srcs_views) =~= concat_nodes(srcs_views));
                assert(base.incoming + concat_incoming(srcs_views) =~= concat_incoming(
                    srcs_views,
                ));
                assert(base.outgoing + concat_outgoing(srcs_views) =~= concat_outgoing(
                    srcs_views,
                ));
                assert(sec@ == mv);
            }

            // the final map is exactly what the model says
            if has_t {
                assert(has_prefix(surv, target)) by {
                    assert(surv[tpos as int].prefix == target);
                }
                let t2 = choose|t: int| 0 <= t < surv.len() && (#[trigger] surv[t]).prefix
                    == target;
                assert(t2 == tpos as int) by {
                    if t2 != tpos as int {
                        lemma_covers_base_addr(target);
                        let a = target.base_addr();
                        if t2 < tpos as int {
                            lemma_survivors_two(ss, target, a, t2, tpos as int);
                        } else {
                            lemma_survivors_two(ss, target, a, tpos as int, t2);
                        }
                        let (o1, o2) = choose|o1: int, o2: int|
                            o1 != o2 && covers_at(ss, a, o1) && covers_at(ss, a, o2);
                        assert(unique_cover(ss, a));
                        assert(false);
                    }
                }
                assert forall|j: int| 0 <= j < new_ss.len() implies new_ss[j] == surv.update(
                    tpos as int,
                    mv,
                )[j] by {
                    assert(new_ss[j] == self.sections@[j]@);
                }
                assert(new_ss =~= surv.update(tpos as int, mv));
            } else {
                assert(!has_prefix(surv, target)) by {
                    if has_prefix(surv, target) {
                        let t = choose|t: int|
                            0 <= t < surv.len() && (#[trigger] surv[t]).prefix == target;
                        assert(false);
                    }
                }
                assert forall|j: int| 0 <= j < new_ss.len() implies new_ss[j] == surv.push(mv)[j]
                    by {
                    assert(new_ss[j] == self.sections@[j]@);
                }
                assert(new_ss =~= surv.push(mv));
            }
            assert(new_ss == spec_resolve_merge(ss, target));

            // the merged index, and every other position, in the new map
            let mi = if has_t {
                tpos as int
            } else {
                surv.len() as int
            };
            assert(new_ss[mi] == mv);
            assert(forall|p: int| 0 <= p < new_ss.len() && p != mi ==> new_ss[p] == surv[p]);

            // a witness source, for the partition argument
            lemma_sources_element(ss, target, 0);
            let d = choose|j: int| 0 <= j < ss.len() && ss[j] == srcs_views[0];
            assert(is_merge_source(ss[d], target));
            let dw = ss[d].prefix.base_addr();
            assert(ss[d].wf());
            lemma_covers_base_addr(ss[d].prefix);
            lemma_ancestor_covers(target, ss[d].prefix, dw);

            // the partition invariant is preserved
            assert forall|a: u64| #[trigger] unique_cover(new_ss, a) by {
                assert(unique_cover(ss, a));
                if target.covers(a) {
                    assert(covers_at(new_ss, a, mi));
                    assert forall|p: int| 0 <= p < new_ss.len() && p != mi implies !covers_at(
                        new_ss,
                        a,
                        p,
                    ) by {
                        if covers_at(new_ss, a, p) {
                            lemma_survivors_element(ss, target, p);
                            let o = choose|o: int|
                                0 <= o < ss.len() && ss[o] == surv[p] && !is_merge_source(
                                    ss[o],
                                    target,
                                );
                            assert(ss[o].prefix.covers(a));
                            assert(ss[o].wf());
                            if target.len < ss[o].prefix.len {
                                lemma_common_address_comparable(target, ss[o].prefix, a);
                                assert(is_merge_source(ss[o], target));
                                assert(false);
                            } else {
                                lemma_common_address_comparable(ss[o].prefix, target, a);
                                lemma_ancestor_covers(ss[o].prefix, target, dw);
                                assert(covers_at(ss, dw, o));
                                assert(covers_at(ss, dw, d));
                                assert(unique_cover(ss, dw));
                                assert(o == d);
                                assert(false);
                            }
                        }
                    }
                    assert forall|p: int, q: int|
                        covers_at(new_ss, a, p) && covers_at(new_ss, a, q) implies p == q by {
                        assert(p == mi && q == mi);
                    }
                } else {
                    assert(!mv.prefix.covers(a));
                    let w = choose|o: int| covers_at(ss, a, o);
                    assert(covers_at(ss, a, w));
                    assert(!is_merge_source(ss[w], target)) by {
                        if is_merge_source(ss[w], target) {
                            lemma_ancestor_covers(target, ss[w].prefix, a);
                        }
                    }
                    lemma_survivors_contain(ss, target, w);
                    let sp = choose|k2: int|
                        0 <= k2 < surv.len() && merge_survivors(ss, target)[k2] == ss[w];
                    assert(sp != mi) by {
                        if sp == mi {
                            assert(new_ss[sp] == mv);
                        }
                    }
                    assert(covers_at(new_ss, a, sp));
                    assert forall|p: int, q: int|
                        covers_at(new_ss, a, p) && covers_at(new_ss, a, q) implies p == q by {
                        if p != q {
                            assert(p != mi || q != mi);
                            if p != mi && q != mi {
                                if p < q {
                                    lemma_survivors_two(ss, target, a, p, q);
                                } else {
                                    lemma_survivors_two(ss, target, a, q, p);
                                }
                                let (o1, o2) = choose|o1: int, o2: int|
                                    o1 != o2 && covers_at(ss, a, o1) && covers_at(ss, a, o2);
                                assert(false);
                            } else {
                                assert(covers_at(new_ss, a, mi));
                                assert(false);
                            }
                        }
                    }
                }
            }

            // every entry of the new map is well formed
            assert forall|p: int| 0 <= p < new_ss.len() implies (#[trigger] new_ss[p]).wf() by {
                if p != mi {
                    lemma_survivors_element(ss, target, p);
                    let o = choose|o: int|
                        0 <= o < ss.len() && ss[o] == surv[p] && !is_merge_source(ss[o], target);
                    assert(ss[o].wf());
                }
            }
        }
        true
    }

    /// Resolve one round's actions against the map, in the order they were
    /// collected, and return the round's counters.  The fatal outcomes of
    /// resolution are partition corruption, which the partition invariant
    /// rules out, so the result is verified to be the interpreter's.
    pub fn handle_actions(&mut self, actions: Vec<Action>) -> (r: Result<TickStats, Fatal>)
        requires
            old(self).wf(),
            forall|i: int| 0 <= i < actions@.len() ==> (#[trigger] actions@[i]).wf(),
        ensures
            final(self).wf(),
            final(self).spec_params() == old(self).spec_params(),
            final(self).spec_stats() == old(self).spec_stats(),
            ({
                let folded = spec_apply_actions(
                    old(self).sections_view(),
                    actions@,
                    TickStats { merges: 0, splits: 0, relocations: 0, rejections: 0 },
                );
                final(self).sections_view() == folded.0 && r == Ok::<TickStats, Fatal>(folded.1)
            }),
    {
        let mut stats = TickStats::new();
        let ghost ss0 = self.sections_view();
        let ghost init = stats;
        let ghost nacts = actions@.len() as int;
        proof {
            assert(actions@.subrange(0, nacts) =~= actions@);
        }
        let mut i: usize = 0;
        while i < actions.len()
            invariant
                self.wf(),
                ss0 == old(self).sections_view(),
                self.spec_params() == old(self).spec_params(),
                self.spec_stats() == old(self).spec_stats(),
                nacts == actions@.len(),
                i <= nacts,
                forall|j: int| 0 <= j < actions@.len() ==> (#[trigger] actions@[j]).wf(),
                init == (TickStats { merges: 0, splits: 0, relocations: 0, rejections: 0 }),
                spec_apply_actions(ss0, actions@, init) == spec_apply_actions(
                    self.sections_view(),
                    actions@.subrange(i as int, nacts),
                    stats,
                ),
            decreases nacts - i,
        {
            let a = actions[i];
            let ghost pre_ss = self.sections_view();
            let ghost pre_stats = stats;
            proof {
                assert(a == actions@[i as int]);
                assert(actions@[i as int].wf());
            }
            match a {
                Action::Reject(_) => {
                    stats.rejections = sat_add_u64(stats.rejections, 1);
                },
                Action::Merge(target) => {
                    let merged = self.resolve_merge(target);
                    proof {
                        lemma_sources_nonempty_iff(pre_ss, target);
                    }
                    if merged {
                        stats.merges = sat_add_u64(stats.merges, 1);
                    }
                },
                Action::Split(source) => {
                    stats.splits = sat_add_u64(stats.splits, 1);
                    match self.resolve_split(source) {
                        Ok(_) => {},
                        Err(f) => {
                            return Err(f);
                        },
                    }
                },
                Action::Send(msg) => {
                    let is_commit = match msg {
                        Message::RelocateCommit { .. } => true,
                        _ => false,
                    };
                    if is_commit {
                        stats.relocations = sat_add_u64(stats.relocations, 1);
                    }
                    match self.resolve_send(msg) {
                        Ok(_) => {},
                        Err(f) => {
                            return Err(f);
                        },
                    }
                },
            }
            proof {
                assert(self.sections_view() == spec_apply_action(pre_ss, a));
                assert(stats == spec_apply_stats(pre_ss, a, pre_stats));
                assert(actions@.subrange(i as int, nacts).first() == actions@[i as int]);
                assert(actions@.subrange(i as int, nacts).drop_first() =~= actions@.subrange(
                    i + 1,
                    nacts,
                ));
                assert(spec_apply_actions(pre_ss, actions@.subrange(i as int, nacts), pre_stats)
                    == spec_apply_actions(
                    self.sections_view(),
                    actions@.subrange(i + 1, nacts),
                    stats,
                ));
            }
            i = i + 1;
        }
        proof {
            assert(actions@.subrange(nacts, nacts) =~= Seq::<Action>::empty());
            assert(spec_apply_actions(
                self.sections_view(),
                actions@.subrange(nacts, nacts),
                stats,
            ) == (self.sections_view(), stats));
        }
        Ok(stats)
    }

    /// Admit a joining node into the one section responsible for its name.
    pub fn add_node(&mut self, node: Node)
        requires
            old(self).wf(),
        ensures
            final(self).wf(),
            final(self).spec_params() == old(self).spec_params(),
            final(self).spec_stats() == old(self).spec_stats(),
            exists|i: int|
                {
                    &&& covers_at(old(self).sections_view(), node.name, i)
                    &&& final(self).sections_view() == old(self).sections_view().update(
                        i,
                        (SectionView {
                            nodes: old(self).sections_view()[i].nodes.push(node),
                            ..old(self).sections_view()[i]
                        }),
                    )
                },
    {
        let ghost old_ss = self.sections_view();
        let i = self.matching_section_index(node.name);
        let mut s = self.sections.remove(i);
        proof {
            assert(old_ss[i as int] == s@);
            assert(s@.wf());
        }
        s.add_node(node);
        self.sections.insert(i, s);
        proof {
            let new_ss = self.sections_view();
            let tv = (SectionView { nodes: old_ss[i as int].nodes.push(node), ..old_ss[
                i as int
            ] });
            assert forall|j: int| 0 <= j < new_ss.len() implies new_ss[j] == old_ss.update(
                i as int,
                tv,
            )[j] by {
                assert(new_ss[j] == self.sections@[j]@);
            }
            assert(new_ss =~= old_ss.update(i as int, tv));
            assert forall|a: u64| #[trigger] unique_cover(new_ss, a) by {
                assert(unique_cover(old_ss, a));
                assert forall|p: int, q: int|
                    covers_at(new_ss, a, p) && covers_at(new_ss, a, q) implies p == q by {
                    assert(covers_at(old_ss, a, p));
                    assert(covers_at(old_ss, a, q));
                }
                let w = choose|k: int| covers_at(old_ss, a, k);
                assert(covers_at(new_ss, a, w));
            }
            assert forall|j: int| 0 <= j < new_ss.len() implies (#[trigger] new_ss[j]).wf() by {
                if j != i {
                    assert(new_ss[j] == old_ss[j]);
                    assert(old_ss[j].wf());
                }
            }
        }
    }
}

} // verus!
