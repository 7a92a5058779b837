//! Sections: the per-prefix state owned by one entry of the partition map.
//!
//! A section owns its member nodes and two relocation caches (incoming and
//! outgoing).  It is exclusively owned by its partition-map entry; merge and
//! split consume sections and produce new ones, never alias them.

use crate::message::{Action, Message};
use crate::node::Node;
use crate::params::Params;
use crate::prefix::{lemma_ancestor_covers, lemma_children_partition, Prefix};
use vstd::prelude::*;

verus! {

/// The mathematical content of a section.
pub struct SectionView {
    pub prefix: Prefix,
    pub nodes: Seq<Node>,
    pub incoming: Seq<u64>,
    pub outgoing: Seq<u64>,
}

impl SectionView {
    /// Everything a section holds lies under its own prefix.
    pub open spec fn wf(self) -> bool {
        &&& self.prefix.wf()
        &&& forall|i: int|
            0 <= i < self.nodes.len() ==> #[trigger] self.prefix.covers(self.nodes[i].name)
        &&& forall|i: int|
            0 <= i < self.incoming.len() ==> #[trigger] self.prefix.covers(self.incoming[i])
        &&& forall|i: int|
            0 <= i < self.outgoing.len() ==> #[trigger] self.prefix.covers(self.outgoing[i])
    }

    /// What one evaluation round of a section emits: a split once it is over
    /// the maximum size, a merge into its parent once it is under the
    /// minimum, nothing otherwise.
    pub open spec fn spec_evaluate(self, params: Params) -> Seq<Action> {
        if self.nodes.len() > params.max_section_size && self.prefix.len < 64 {
            seq![Action::Split(self.prefix)]
        } else if self.nodes.len() < params.min_section_size && self.prefix.len > 0 {
            seq![Action::Merge(self.prefix.spec_parent())]
        } else {
            Seq::empty()
        }
    }

    /// A complete section is one whose size needs no structural change.
    pub open spec fn spec_is_complete(self, params: Params) -> bool {
        params.min_section_size <= self.nodes.len() <= params.max_section_size
    }
}

/// The nodes of `ns` whose name lies under `p`, in order.
pub open spec fn nodes_under(ns: Seq<Node>, p: Prefix) -> Seq<Node>
    decreases ns.len(),
{
    if ns.len() == 0 {
        Seq::empty()
    } else {
        let rest = nodes_under(ns.drop_last(), p);
        if p.covers(ns.last().name) {
            rest.push(ns.last())
        } else {
            rest
        }
    }
}

/// The names of `s` that lie under `p`, in order.
pub open spec fn names_under(s: Seq<u64>, p: Prefix) -> Seq<u64>
    decreases s.len(),
{
    if s.len() == 0 {
        Seq::empty()
    } else {
        let rest = names_under(s.drop_last(), p);
        if p.covers(s.last()) {
            rest.push(s.last())
        } else {
            rest
        }
    }
}

/// A view is well formed as soon as every element of each of its parts lies
/// under its prefix.
pub proof fn lemma_wf_views(pre: SectionView, post: SectionView)
    requires
        pre.wf(),
        post.prefix == pre.prefix,
        forall|i: int|
            0 <= i < post.nodes.len() ==> #[trigger] pre.prefix.covers(post.nodes[i].name),
        forall|i: int| 0 <= i < post.incoming.len() ==> #[trigger] pre.prefix.covers(post.incoming[i]),
        forall|i: int| 0 <= i < post.outgoing.len() ==> #[trigger] pre.prefix.covers(post.outgoing[i]),
    ensures
        post.wf(),
{
    assert forall|i: int| 0 <= i < post.nodes.len() implies #[trigger] post.prefix.covers(
        post.nodes[i].name,
    ) by {
        assert(pre.prefix.covers(post.nodes[i].name));
    }
    assert forall|i: int| 0 <= i < post.incoming.len() implies #[trigger] post.prefix.covers(
        post.incoming[i],
    ) by {
        assert(pre.prefix.covers(post.incoming[i]));
    }
    assert forall|i: int| 0 <= i < post.outgoing.len() implies #[trigger] post.prefix.covers(
        post.outgoing[i],
    ) by {
        assert(pre.prefix.covers(post.outgoing[i]));
    }
}

/// Every node `nodes_under` keeps lies under the prefix it filters by.
pub proof fn lemma_nodes_under_covered(ns: Seq<Node>, p: Prefix, k: int)
    requires
        0 <= k < nodes_under(ns, p).len(),
    ensures
        p.covers(nodes_under(ns, p)[k].name),
    decreases ns.len(),
{
    if ns.len() > 0 {
        let rest = nodes_under(ns.drop_last(), p);
        if p.covers(ns.last().name) && k == rest.len() {
        } else {
            lemma_nodes_under_covered(ns.drop_last(), p, k);
        }
    }
}

/// Splitting a batch of nodes that all lie under `p` between `p`'s two
/// children loses none and duplicates none.
pub proof fn lemma_nodes_under_partition(ns: Seq<Node>, p: Prefix)
    requires
        p.wf(),
        p.len < 64,
        forall|i: int| 0 <= i < ns.len() ==> #[trigger] p.covers(ns[i].name),
    ensures
        nodes_under(ns, p.spec_child(false)).len() + nodes_under(ns, p.spec_child(true)).len()
            == ns.len(),
    decreases ns.len(),
{
    if ns.len() > 0 {
        assert forall|i: int| 0 <= i < ns.drop_last().len() implies #[trigger] p.covers(
            ns.drop_last()[i].name,
        ) by {
            assert(p.covers(ns[i].name));
        }
        lemma_nodes_under_partition(ns.drop_last(), p);
        assert(p.covers(ns[ns.len() - 1].name));
        crate::prefix::lemma_children_partition(p, ns.last().name);
    }
}

/// Every name `names_under` keeps lies under the prefix it filters by.
pub proof fn lemma_names_under_covered(s: Seq<u64>, p: Prefix, k: int)
    requires
        0 <= k < names_under(s, p).len(),
    ensures
        p.covers(names_under(s, p)[k]),
    decreases s.len(),
{
    if s.len() > 0 {
        let rest = names_under(s.drop_last(), p);
        if p.covers(s.last()) && k == rest.len() {
        } else {
            lemma_names_under_covered(s.drop_last(), p, k);
        }
    }
}

/// `s` with its first occurrence of `x` removed; `s` itself if `x` is absent.
pub open spec fn remove_first(s: Seq<u64>, x: u64) -> Seq<u64>
    decreases s.len(),
{
    if s.len() == 0 {
        s
    } else if s.first() == x {
        s.drop_first()
    } else {
        seq![s.first()] + remove_first(s.drop_first(), x)
    }
}

/// Removing an absent element changes nothing.
pub proof fn lemma_remove_first_absent(s: Seq<u64>, x: u64)
    requires
        forall|i: int| 0 <= i < s.len() ==> s[i] != x,
    ensures
        remove_first(s, x) == s,
    decreases s.len(),
{
    if s.len() > 0 {
        lemma_remove_first_absent(s.drop_first(), x);
        assert(seq![s.first()] + s.drop_first() =~= s);
    }
}

/// Removing the first occurrence of `x` is removing the index it sits at.
pub proof fn lemma_remove_first_at(s: Seq<u64>, x: u64, i: int)
    requires
        0 <= i < s.len(),
        s[i] == x,
        forall|j: int| 0 <= j < i ==> s[j] != x,
    ensures
        remove_first(s, x) == s.remove(i),
    decreases i,
{
    if i == 0 {
        assert(s.drop_first() =~= s.remove(0));
    } else {
        lemma_remove_first_at(s.drop_first(), x, i - 1);
        assert(seq![s.first()] + s.drop_first().remove(i - 1) =~= s.remove(i));
    }
}

/// Every element of `remove_first(s, x)` is an element of `s`.
pub proof fn lemma_remove_first_element_of(s: Seq<u64>, x: u64, k: int)
    requires
        0 <= k < remove_first(s, x).len(),
    ensures
        exists|j: int| 0 <= j < s.len() && s[j] == remove_first(s, x)[k],
    decreases s.len(),
{
    if s.len() == 0 {
    } else if s.first() == x {
        assert(s[k + 1] == remove_first(s, x)[k]);
    } else if k == 0 {
        assert(s[0] == remove_first(s, x)[0]);
    } else {
        lemma_remove_first_element_of(s.drop_first(), x, k - 1);
        let j = choose|j: int|
            0 <= j < s.drop_first().len() && s.drop_first()[j] == remove_first(
                s.drop_first(),
                x,
            )[k - 1];
        assert(s[j + 1] == remove_first(s, x)[k]);
    }
}

/// The mutable state owned by one prefix of the partition.
#[derive(Debug)]
pub struct Section {
    prefix: Prefix,
    nodes: Vec<Node>,
    incoming: Vec<u64>,
    outgoing: Vec<u64>,
}

impl View for Section {
    type V = SectionView;

    closed spec fn view(&self) -> SectionView {
        SectionView {
            prefix: self.prefix,
            nodes: self.nodes@,
            incoming: self.incoming@,
            outgoing: self.outgoing@,
        }
    }
}

/// Find the first index of `x` in `v`.
fn find_first(v: &Vec<u64>, x: u64) -> (r: Option<usize>)
    ensures
        match r {
            Some(i) => i < v@.len() && v@[i as int] == x && forall|j: int|
                0 <= j < i ==> v@[j] != x,
            None => forall|j: int| 0 <= j < v@.len() ==> v@[j] != x,
        },
{
    let mut i: usize = 0;
    while i < v.len()
        invariant
            i <= v@.len(),
            forall|j: int| 0 <= j < i ==> v@[j] != x,
        decreases v@.len() - i,
    {
        if v[i] == x {
            return Some(i);
        }
        i = i + 1;
    }
    None
}

impl Section {
    /// An empty section at the given prefix.
    pub fn new(prefix: Prefix) -> (r: Section)
        requires
            prefix.wf(),
        ensures
            r@.prefix == prefix,
            r@.nodes =~= Seq::<Node>::empty(),
            r@.incoming =~= Seq::<u64>::empty(),
            r@.outgoing =~= Seq::<u64>::empty(),
            r@.wf(),
    {
        Section { prefix, nodes: Vec::new(), incoming: Vec::new(), outgoing: Vec::new() }
    }

    pub fn prefix(&self) -> (r: Prefix)
        ensures
            r == self@.prefix,
    {
        self.prefix
    }

    /// Read-only access to the member nodes.
    pub fn nodes(&self) -> (r: &Vec<Node>)
        ensures
            r@ == self@.nodes,
    {
        &self.nodes
    }

    pub fn incoming_relocations(&self) -> (r: &Vec<u64>)
        ensures
            r@ == self@.incoming,
    {
        &self.incoming
    }

    pub fn outgoing_relocations(&self) -> (r: &Vec<u64>)
        ensures
            r@ == self@.outgoing,
    {
        &self.outgoing
    }

    /// Admit one node whose name lies under this section's prefix.
    pub fn add_node(&mut self, node: Node)
        requires
            old(self)@.wf(),
            old(self)@.prefix.covers(node.name),
        ensures
            final(self)@ == (SectionView { nodes: old(self)@.nodes.push(node), ..old(self)@ }),
            final(self)@.wf(),
    {
        self.nodes.push(node);
        proof {
            let pre = old(self)@;
            assert forall|i: int| 0 <= i < self@.nodes.len() implies #[trigger] pre.prefix.covers(
                self@.nodes[i].name,
            ) by {
                if i < pre.nodes.len() {
                    assert(self@.nodes[i] == pre.nodes[i]);
                    assert(pre.prefix.covers(pre.nodes[i].name));
                } else {
                    assert(self@.nodes[i] == node);
                }
            }
            assert forall|i: int| 0 <= i < self@.incoming.len()
                implies #[trigger] pre.prefix.covers(self@.incoming[i]) by {
                assert(self@.incoming[i] == pre.incoming[i]);
                assert(pre.prefix.covers(pre.incoming[i]));
            }
            assert forall|i: int| 0 <= i < self@.outgoing.len()
                implies #[trigger] pre.prefix.covers(self@.outgoing[i]) by {
                assert(self@.outgoing[i] == pre.outgoing[i]);
                assert(pre.prefix.covers(pre.outgoing[i]));
            }
            lemma_wf_views(pre, self@);
        }
    }

    /// Reset per-tick transient state: both relocation caches start a tick
    /// empty, so that anything still in them at the end of the tick is
    /// unfinished business.
    pub fn prepare(&mut self)
        requires
            old(self)@.wf(),
        ensures
            final(self)@.prefix == old(self)@.prefix,
            final(self)@.nodes == old(self)@.nodes,
            final(self)@.incoming =~= Seq::<u64>::empty(),
            final(self)@.outgoing =~= Seq::<u64>::empty(),
            final(self)@.wf(),
    {
        self.incoming.clear();
        self.outgoing.clear();
    }

    /// One evaluation round: emit the structural action this section's size
    /// currently calls for.
    pub fn evaluate(&self, params: &Params) -> (r: Vec<Action>)
        requires
            self@.wf(),
        ensures
            r@ == self@.spec_evaluate(*params),
            forall|k: int| 0 <= k < r@.len() ==> (#[trigger] r@[k]).wf(),
    {
        let mut r: Vec<Action> = Vec::new();
        if self.nodes.len() > params.max_section_size && self.prefix.len < 64 {
            r.push(Action::Split(self.prefix));
            proof {
                assert(r@ =~= self@.spec_evaluate(*params));
            }
        } else if self.nodes.len() < params.min_section_size && self.prefix.len > 0 {
            r.push(Action::Merge(self.prefix.parent()));
            proof {
                assert(r@ =~= self@.spec_evaluate(*params));
            }
        } else {
            proof {
                assert(r@ =~= self@.spec_evaluate(*params));
            }
        }
        r
    }

    /// Whether the section's size needs no structural change.
    pub fn is_complete(&self, params: &Params) -> (r: bool)
        ensures
            r == self@.spec_is_complete(*params),
    {
        params.min_section_size <= self.nodes.len() && self.nodes.len()
            <= params.max_section_size
    }

    /// Absorb `other`, a section strictly below this one: its nodes and both
    /// its relocation caches are appended, and `other` is consumed.
    pub fn merge(&mut self, _params: &Params, other: Section)
        requires
            old(self)@.wf(),
            other@.wf(),
            other@.prefix.is_strict_descendant_of(old(self)@.prefix),
        ensures
            final(self)@.prefix == old(self)@.prefix,
            final(self)@.nodes == old(self)@.nodes + other@.nodes,
            final(self)@.incoming == old(self)@.incoming + other@.incoming,
            final(self)@.outgoing == old(self)@.outgoing + other@.outgoing,
            final(self)@.wf(),
    {
        let ghost pre = old(self)@;
        let ghost ov = other@;
        let Section { prefix: _, nodes: mut n, incoming: mut inc, outgoing: mut out } = other;
        self.nodes.append(&mut n);
        self.incoming.append(&mut inc);
        self.outgoing.append(&mut out);
        proof {
            assert forall|i: int| 0 <= i < self@.nodes.len() implies #[trigger] self@.prefix.covers(
                self@.nodes[i].name,
            ) by {
                if i < pre.nodes.len() {
                    assert(pre.prefix.covers(pre.nodes[i].name));
                } else {
                    let j = i - pre.nodes.len();
                    assert(ov.prefix.covers(ov.nodes[j].name));
                    lemma_ancestor_covers(pre.prefix, ov.prefix, ov.nodes[j].name);
                }
            }
            assert forall|i: int| 0 <= i < self@.incoming.len()
                implies #[trigger] self@.prefix.covers(self@.incoming[i]) by {
                if i < pre.incoming.len() {
                    assert(pre.prefix.covers(pre.incoming[i]));
                } else {
                    let j = i - pre.incoming.len();
                    assert(ov.prefix.covers(ov.incoming[j]));
                    lemma_ancestor_covers(pre.prefix, ov.prefix, ov.incoming[j]);
                }
            }
            assert forall|i: int| 0 <= i < self@.outgoing.len()
                implies #[trigger] self@.prefix.covers(self@.outgoing[i]) by {
                if i < pre.outgoing.len() {
                    assert(pre.prefix.covers(pre.outgoing[i]));
                } else {
                    let j = i - pre.outgoing.len();
                    assert(ov.prefix.covers(ov.outgoing[j]));
                    lemma_ancestor_covers(pre.prefix, ov.prefix, ov.outgoing[j]);
                }
            }
        }
    }

    /// Split this section into its two children, consuming it.  Every node
    /// and cached relocation lands in the one child that covers it.
    pub fn split(self, _params: &Params) -> (r: (Section, Section))
        requires
            self@.wf(),
            self@.prefix.len < 64,
        ensures
            r.0@.prefix == self@.prefix.spec_child(false),
            r.1@.prefix == self@.prefix.spec_child(true),
            r.0@.nodes == nodes_under(self@.nodes, r.0@.prefix),
            r.1@.nodes == nodes_under(self@.nodes, r.1@.prefix),
            r.0@.nodes.len() + r.1@.nodes.len() == self@.nodes.len(),
            r.0@.incoming == names_under(self@.incoming, r.0@.prefix),
            r.1@.incoming == names_under(self@.incoming, r.1@.prefix),
            r.0@.outgoing == names_under(self@.outgoing, r.0@.prefix),
            r.1@.outgoing == names_under(self@.outgoing, r.1@.prefix),
            r.0@.wf(),
            r.1@.wf(),
    {
        let ghost old_view = self@;
        let (c0, c1) = self.prefix.split();

        let mut n0: Vec<Node> = Vec::new();
        let mut n1: Vec<Node> = Vec::new();
        let mut i: usize = 0;
        while i < self.nodes.len()
            invariant
                old_view.wf(),
                old_view.prefix.len < 64,
                c0 == old_view.prefix.spec_child(false),
                c1 == old_view.prefix.spec_child(true),
                c0.wf(),
                c1.wf(),
                self@ == old_view,
                i <= old_view.nodes.len(),
                n0@ == nodes_under(old_view.nodes.subrange(0, i as int), c0),
                n1@ == nodes_under(old_view.nodes.subrange(0, i as int), c1),
                n0@.len() + n1@.len() == i,
            decreases old_view.nodes.len() - i,
        {
            let n = self.nodes[i];
            proof {
                assert(old_view.prefix.covers(old_view.nodes[i as int].name));
                lemma_children_partition(old_view.prefix, n.name);
                assert(old_view.nodes.subrange(0, i + 1).drop_last() =~= old_view.nodes.subrange(
                    0,
                    i as int,
                ));
            }
            if c0.matches(n.name) {
                n0.push(n);
            } else {
                n1.push(n);
            }
            i = i + 1;
        }
        proof {
            assert(old_view.nodes.subrange(0, old_view.nodes.len() as int) =~= old_view.nodes);
        }

        let mut in0: Vec<u64> = Vec::new();
        let mut in1: Vec<u64> = Vec::new();
        let mut j: usize = 0;
        while j < self.incoming.len()
            invariant
                old_view.wf(),
                old_view.prefix.len < 64,
                c0 == old_view.prefix.spec_child(false),
                c1 == old_view.prefix.spec_child(true),
                c0.wf(),
                c1.wf(),
                self@ == old_view,
                j <= old_view.incoming.len(),
                in0@ == names_under(old_view.incoming.subrange(0, j as int), c0),
                in1@ == names_under(old_view.incoming.subrange(0, j as int), c1),
            decreases old_view.incoming.len() - j,
        {
            let name = self.incoming[j];
            proof {
                assert(old_view.prefix.covers(old_view.incoming[j as int]));
                lemma_children_partition(old_view.prefix, name);
                assert(old_view.incoming.subrange(0, j + 1).drop_last()
                    =~= old_view.incoming.subrange(0, j as int));
            }
            if c0.matches(name) {
                in0.push(name);
            } else {
                in1.push(name);
            }
            j = j + 1;
        }
        proof {
            assert(old_view.incoming.subrange(0, old_view.incoming.len() as int)
                =~= old_view.incoming);
        }

        let mut out0: Vec<u64> = Vec::new();
        let mut out1: Vec<u64> = Vec::new();
        let mut k: usize = 0;
        while k < self.outgoing.len()
            invariant
                old_view.wf(),
                old_view.prefix.len < 64,
                c0 == old_view.prefix.spec_child(false),
                c1 == old_view.prefix.spec_child(true),
                c0.wf(),
                c1.wf(),
                self@ == old_view,
                k <= old_view.outgoing.len(),
                out0@ == names_under(old_view.outgoing.subrange(0, k as int), c0),
                out1@ == names_under(old_view.outgoing.subrange(0, k as int), c1),
            decreases old_view.outgoing.len() - k,
        {
            let name = self.outgoing[k];
            proof {
                assert(old_view.prefix.covers(old_view.outgoing[k as int]));
                lemma_children_partition(old_view.prefix, name);
                assert(old_view.outgoing.subrange(0, k + 1).drop_last()
                    =~= old_view.outgoing.subrange(0, k as int));
            }
            if c0.matches(name) {
                out0.push(name);
            } else {
                out1.push(name);
            }
            k = k + 1;
        }
        proof {
            assert(old_view.outgoing.subrange(0, old_view.outgoing.len() as int)
                =~= old_view.outgoing);
            assert forall|m: int| 0 <= m < n0@.len() implies #[trigger] c0.covers(n0@[m].name) by {
                lemma_nodes_under_covered(old_view.nodes, c0, m);
            }
            assert forall|m: int| 0 <= m < n1@.len() implies #[trigger] c1.covers(n1@[m].name) by {
                lemma_nodes_under_covered(old_view.nodes, c1, m);
            }
            assert forall|m: int| 0 <= m < in0@.len() implies #[trigger] c0.covers(in0@[m]) by {
                lemma_names_under_covered(old_view.incoming, c0, m);
            }
            assert forall|m: int| 0 <= m < in1@.len() implies #[trigger] c1.covers(in1@[m]) by {
                lemma_names_under_covered(old_view.incoming, c1, m);
            }
            assert forall|m: int| 0 <= m < out0@.len() implies #[trigger] c0.covers(out0@[m]) by {
                lemma_names_under_covered(old_view.outgoing, c0, m);
            }
            assert forall|m: int| 0 <= m < out1@.len() implies #[trigger] c1.covers(out1@[m]) by {
                lemma_names_under_covered(old_view.outgoing, c1, m);
            }
        }

        (
            Section { prefix: c0, nodes: n0, incoming: in0, outgoing: out0 },
            Section { prefix: c1, nodes: n1, incoming: in1, outgoing: out1 },
        )
    }

    /// Deliver one message addressed to this section.  A request caches the
    /// relocation as pending; a commit admits the node and clears the
    /// pending entry, if one is cached.
    pub fn receive(&mut self, msg: Message)
        requires
            old(self)@.wf(),
            old(self)@.prefix.covers(msg.spec_target()),
        ensures
            final(self)@.prefix == old(self)@.prefix,
            final(self)@.wf(),
            (match msg {
                Message::RelocateRequest { node } => {
                    &&& final(self)@.nodes == old(self)@.nodes
                    &&& final(self)@.incoming == old(self)@.incoming.push(node.name)
                    &&& final(self)@.outgoing == old(self)@.outgoing
                },
                Message::RelocateCommit { node } => {
                    &&& final(self)@.nodes == old(self)@.nodes.push(node)
                    &&& final(self)@.incoming == remove_first(old(self)@.incoming, node.name)
                    &&& final(self)@.outgoing == old(self)@.outgoing
                },
            }),
    {
        match msg {
            Message::RelocateRequest { node } => {
                self.incoming.push(node.name);
                proof {
                    let pre = old(self)@;
                    assert(pre.prefix.covers(node.name));
                    assert forall|i: int| 0 <= i < self@.nodes.len()
                        implies #[trigger] pre.prefix.covers(self@.nodes[i].name) by {
                        assert(self@.nodes[i] == pre.nodes[i]);
                        assert(pre.prefix.covers(pre.nodes[i].name));
                    }
                    assert forall|i: int| 0 <= i < self@.incoming.len()
                        implies #[trigger] pre.prefix.covers(self@.incoming[i]) by {
                        if i < pre.incoming.len() {
                            assert(self@.incoming[i] == pre.incoming[i]);
                            assert(pre.prefix.covers(pre.incoming[i]));
                        } else {
                            assert(self@.incoming[i] == node.name);
                        }
                    }
                    assert forall|i: int| 0 <= i < self@.outgoing.len()
                        implies #[trigger] pre.prefix.covers(self@.outgoing[i]) by {
                        assert(self@.outgoing[i] == pre.outgoing[i]);
                        assert(pre.prefix.covers(pre.outgoing[i]));
                    }
                    lemma_wf_views(pre, self@);
                }
            },
            Message::RelocateCommit { node } => {
                match find_first(&self.incoming, node.name) {
                    Some(i) => {
                        self.incoming.remove(i);
                        proof {
                            lemma_remove_first_at(old(self)@.incoming, node.name, i as int);
                        }
                    },
                    None => {
                        proof {
                            lemma_remove_first_absent(old(self)@.incoming, node.name);
                        }
                    },
                }
                self.nodes.push(node);
                proof {
                    let pre = old(self)@;
                    assert(pre.prefix.covers(node.name));
                    assert forall|k: int| 0 <= k < self@.nodes.len()
                        implies #[trigger] pre.prefix.covers(self@.nodes[k].name) by {
                        if k < pre.nodes.len() {
                            assert(self@.nodes[k] == pre.nodes[k]);
                            assert(pre.prefix.covers(pre.nodes[k].name));
                        } else {
                            assert(self@.nodes[k] == node);
                        }
                    }
                    assert forall|k: int| 0 <= k < self@.incoming.len()
                        implies #[trigger] pre.prefix.covers(self@.incoming[k]) by {
                        lemma_remove_first_element_of(pre.incoming, node.name, k);
                        let j = choose|j: int|
                            0 <= j < pre.incoming.len() && pre.incoming[j] == remove_first(
                                pre.incoming,
                                node.name,
                            )[k];
                        assert(pre.prefix.covers(pre.incoming[j]));
                    }
                    assert forall|k: int| 0 <= k < self@.outgoing.len()
                        implies #[trigger] pre.prefix.covers(self@.outgoing[k]) by {
                        assert(self@.outgoing[k] == pre.outgoing[k]);
                        assert(pre.prefix.covers(pre.outgoing[k]));
                    }
                    lemma_wf_views(pre, self@);
                }
            },
        }
    }

    /// Start relocating the member with the given name away: the node leaves
    /// the section and the relocation is cached as outgoing until it is
    /// acknowledged.  Returns the departing node, or `None` if no member has
    /// that name.
    pub fn start_outgoing_relocation(&mut self, name: u64) -> (r: Option<Node>)
        requires
            old(self)@.wf(),
        ensures
            final(self)@.prefix == old(self)@.prefix,
            final(self)@.incoming == old(self)@.incoming,
            final(self)@.wf(),
            (match r {
                Some(n) => {
                    &&& n.name == name
                    &&& final(self)@.outgoing == old(self)@.outgoing.push(name)
                    &&& exists|i: int|
                        {
                            &&& 0 <= i < old(self)@.nodes.len()
                            &&& old(self)@.nodes[i] == n
                            &&& final(self)@.nodes == old(self)@.nodes.remove(i)
                            &&& forall|j: int| 0 <= j < i ==> old(self)@.nodes[j].name != name
                        }
                },
                None => {
                    &&& final(self)@ == old(self)@
                    &&& forall|i: int|
                        0 <= i < old(self)@.nodes.len() ==> old(self)@.nodes[i].name != name
                },
            }),
    {
        let mut i: usize = 0;
        while i < self.nodes.len()
            invariant
                self@ == old(self)@,
                old(self)@.wf(),
                i <= self@.nodes.len(),
                forall|j: int| 0 <= j < i ==> self@.nodes[j].name != name,
            decreases self@.nodes.len() - i,
        {
            if self.nodes[i].name == name {
                let n = self.nodes.remove(i);
                self.outgoing.push(name);
                proof {
                    let pre = old(self)@;
                    assert(pre.prefix.covers(pre.nodes[i as int].name));
                    assert forall|k: int| 0 <= k < self@.nodes.len()
                        implies #[trigger] pre.prefix.covers(self@.nodes[k].name) by {
                        if k < i {
                            assert(self@.nodes[k] == pre.nodes[k]);
                            assert(pre.prefix.covers(pre.nodes[k].name));
                        } else {
                            assert(self@.nodes[k] == pre.nodes[k + 1]);
                            assert(pre.prefix.covers(pre.nodes[k + 1].name));
                        }
                    }
                    assert forall|k: int| 0 <= k < self@.incoming.len()
                        implies #[trigger] pre.prefix.covers(self@.incoming[k]) by {
                        assert(self@.incoming[k] == pre.incoming[k]);
                        assert(pre.prefix.covers(pre.incoming[k]));
                    }
                    assert forall|k: int| 0 <= k < self@.outgoing.len()
                        implies #[trigger] pre.prefix.covers(self@.outgoing[k]) by {
                        if k < pre.outgoing.len() {
                            assert(self@.outgoing[k] == pre.outgoing[k]);
                            assert(pre.prefix.covers(pre.outgoing[k]));
                        } else {
                            assert(self@.outgoing[k] == name);
                        }
                    }
                    lemma_wf_views(pre, self@);
                }
                return Some(n);
            }
            i = i + 1;
        }
        None
    }

    /// Acknowledge an outgoing relocation: drop its cached entry, if any.
    pub fn complete_outgoing_relocation(&mut self, name: u64)
        requires
            old(self)@.wf(),
        ensures
            final(self)@.prefix == old(self)@.prefix,
            final(self)@.nodes == old(self)@.nodes,
            final(self)@.incoming == old(self)@.incoming,
            final(self)@.outgoing == remove_first(old(self)@.outgoing, name),
            final(self)@.wf(),
    {
        match find_first(&self.outgoing, name) {
            Some(i) => {
                self.outgoing.remove(i);
                proof {
                    lemma_remove_first_at(old(self)@.outgoing, name, i as int);
                }
            },
            None => {
                proof {
                    lemma_remove_first_absent(old(self)@.outgoing, name);
                }
            },
        }
        proof {
            let pre = old(self)@;
            assert forall|k: int| 0 <= k < self@.nodes.len() implies #[trigger] pre.prefix.covers(
                self@.nodes[k].name,
            ) by {
                assert(self@.nodes[k] == pre.nodes[k]);
                assert(pre.prefix.covers(pre.nodes[k].name));
            }
            assert forall|k: int| 0 <= k < self@.incoming.len()
                implies #[trigger] pre.prefix.covers(self@.incoming[k]) by {
                assert(self@.incoming[k] == pre.incoming[k]);
                assert(pre.prefix.covers(pre.incoming[k]));
            }
            assert forall|k: int| 0 <= k < self@.outgoing.len()
                implies #[trigger] pre.prefix.covers(self@.outgoing[k]) by {
                lemma_remove_first_element_of(pre.outgoing, name, k);
                let j = choose|j: int|
                    0 <= j < pre.outgoing.len() && pre.outgoing[j] == remove_first(
                        pre.outgoing,
                        name,
                    )[k];
                assert(pre.prefix.covers(pre.outgoing[j]));
            }
            lemma_wf_views(pre, self@);
        }
    }
}

} // verus!
