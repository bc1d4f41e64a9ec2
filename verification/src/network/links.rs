//! Links that open and close with the nodes at their ends.

use std::collections::HashSet;

use vstd::prelude::*;

use crate::network::topology_map::{lemma_filter_push, Link};
use crate::network::{Network, NetworkView};
use crate::node::Mode;

verus! {

broadcast use vstd::std_specs::hash::group_hash_axioms;

impl NetworkView {
    /// The link as the nodes at its ends allow it.
    pub open spec fn synced_link(self, l: Link) -> Link {
        Link { active: !self.cut(l.from as int) && !self.cut(l.to as int), ..l }
    }

    /// The network with every link open exactly where neither end is cut off.
    pub open spec fn synced(self) -> NetworkView {
        self.with_links(self.links.map_values(|l: Link| self.synced_link(l)))
    }

    /// The ids of those of the first `n` nodes that are cut off.
    pub open spec fn cut_ids(self, n: nat) -> Set<u32>
        decreases n,
    {
        if n == 0 {
            Set::empty()
        } else if self.cut(n - 1) {
            self.cut_ids((n - 1) as nat).insert(self.nodes[n - 1].id)
        } else {
            self.cut_ids((n - 1) as nat)
        }
    }

    /// The recovery ticks, with a new one for each of the first `n` nodes that was cut off before and
    /// is not so any more.
    pub open spec fn recoveries(self, previously_cut: Set<u32>, n: nat) -> Map<u32, u64>
        decreases n,
    {
        if n == 0 {
            self.recovered_at_tick
        } else {
            let before = self.recoveries(previously_cut, (n - 1) as nat);
            let id = self.nodes[n - 1].id;
            if !self.cut(n - 1) && previously_cut.contains(id) {
                before.insert(id, self.tick)
            } else {
                before
            }
        }
    }

    /// The network with its recovery ticks renewed.
    pub open spec fn marked(self, previously_cut: Set<u32>) -> NetworkView {
        NetworkView { recovered_at_tick: self.recoveries(previously_cut, self.nodes.len()), ..self }
    }

    /// A physical link leads from one position to the other, open or not.
    pub open spec fn physical(self, from: usize, to: usize) -> bool {
        exists|i: int|
            0 <= i < self.links.len() && !(#[trigger] self.links[i]).virtual_link && self.links[i].from == from
                && self.links[i].to == to
    }

    /// The node does not pass anything on.
    pub open spec fn down(self, i: int) -> bool {
        self.cut(i) || self.nodes[i].state.mode == Mode::Reconnecting
    }

    /// The two nodes have a physical neighbour in common.
    pub open spec fn between(self, u: usize, v: usize, w: usize) -> bool {
        self.physical(u, w) && self.physical(v, w)
    }

    /// The two nodes have physical neighbours in common, and all of these are up.
    pub open spec fn bridged(self, u: usize, v: usize) -> bool {
        &&& exists|w: usize| self.between(u, v, w)
        &&& forall|w: usize| self.between(u, v, w) ==> !self.down(w as int)
    }

    /// A virtual link, in one direction or the other, is open between the two positions.
    pub open spec fn virtually_joined(self, u: usize, v: usize) -> bool {
        exists|i: int|
            0 <= i < self.links.len() && (#[trigger] self.links[i]).virtual_link && self.links[i].active && (
            (self.links[i].from == u && self.links[i].to == v) || (self.links[i].from == v && self.links[i].to == u))
    }

    /// A virtual link that is no longer needed, because the nodes between its ends are up.
    pub open spec fn redundant(self, l: Link) -> bool {
        l.virtual_link && self.virtually_joined(l.from, l.to) && self.bridged(l.from, l.to)
    }

    /// The network without the virtual links that are no longer needed.
    pub open spec fn cleaned(self) -> NetworkView {
        self.with_links(self.links.filter(|l: Link| !self.redundant(l)))
    }
}

/// After the links were synced, exactly those are open that join two nodes of which neither is
/// isolated nor parted from the others by a scenario.
pub proof fn law_links_follow_nodes(net: NetworkView, i: int)
    requires
        0 <= i < net.links.len(),
    ensures
        ({
            let l = net.synced().links[i];
            &&& l == Link { active: l.active, ..net.links[i] }
            &&& l.active <==> !net.cut(l.from as int) && !net.cut(l.to as int)
        }),
{
}

/// Syncing the links twice is the same as syncing them once.
pub proof fn law_sync_once(net: NetworkView)
    ensures
        net.synced().synced() == net.synced(),
{
    let once = net.synced();
    assert forall|i: int| 0 <= i < once.links.len() implies once.synced().links[i] == once.links[i] by {
        let l = once.links[i];
        assert(once.cut(l.from as int) == net.cut(l.from as int));
        assert(once.cut(l.to as int) == net.cut(l.to as int));
    }
    assert(once.synced().links =~= once.links);
}

/// A node is among the cut off ones exactly if it is isolated or parted from the others.
pub proof fn law_cut_ids(net: NetworkView, n: nat, id: u32)
    requires
        n <= net.nodes.len(),
    ensures
        net.cut_ids(n).contains(id) <==> exists|i: int| 0 <= i < n && (#[trigger] net.nodes[i]).id == id && net.cut(i),
    decreases n,
{
    if n > 0 {
        law_cut_ids(net, (n - 1) as nat, id);
        let p = |i: int| 0 <= i < n && net.nodes[i].id == id && net.cut(i);
        if net.cut(n - 1) && net.nodes[n - 1].id == id {
            assert(p(n - 1));
        }
        if net.cut_ids((n - 1) as nat).contains(id) {
            let i = choose|i: int| 0 <= i < n - 1 && (#[trigger] net.nodes[i]).id == id && net.cut(i);
            assert(p(i));
        }
        if exists|i: int| 0 <= i < n && (#[trigger] net.nodes[i]).id == id && net.cut(i) {
            let i = choose|i: int| 0 <= i < n && (#[trigger] net.nodes[i]).id == id && net.cut(i);
            if i < n - 1 {
                assert(0 <= i < n - 1 && net.nodes[i].id == id && net.cut(i));
            }
        }
    }
}

/// Cleaning up takes exactly the virtual links out that are no longer needed.
pub proof fn law_cleaned_links(net: NetworkView, l: Link)
    ensures
        net.cleaned().links.contains(l) <==> net.links.contains(l) && !net.redundant(l),
{
    let p = |l: Link| !net.redundant(l);
    if net.links.contains(l) && p(l) {
        lemma_filter_keeps(net.links, p, l);
    }
    if net.links.filter(p).contains(l) {
        lemma_filter_from(net.links, p, l);
    }
}

/// Physical links are never taken out.
pub proof fn law_physical_links_stay(net: NetworkView, l: Link)
    requires
        net.links.contains(l),
        !l.virtual_link,
    ensures
        net.cleaned().links.contains(l),
{
    let p = |l: Link| !net.redundant(l);
    lemma_filter_keeps(net.links, p, l);
}

/// What passes stays in.
pub(crate) proof fn lemma_filter_keeps(s: Seq<Link>, p: spec_fn(Link) -> bool, l: Link)
    requires
        s.contains(l),
        p(l),
    ensures
        s.filter(p).contains(l),
    decreases s.len(),
{
    reveal(Seq::filter);
    let t = s.drop_last();
    if s.last() == l {
        assert(s.filter(p)[s.filter(p).len() - 1] == l);
    } else {
        let i = s.index_of(l);
        assert(t[i] == l);
        lemma_filter_keeps(t, p, l);
        let j = t.filter(p).index_of(l);
        assert(s.filter(p)[j] == l);
    }
}

/// What is in after filtering was in before.
pub(crate) proof fn lemma_filter_from(s: Seq<Link>, p: spec_fn(Link) -> bool, l: Link)
    requires
        s.filter(p).contains(l),
    ensures
        s.contains(l) && p(l),
    decreases s.len(),
{
    reveal(Seq::filter);
    if s.len() > 0 {
        let t = s.drop_last();
        let i = s.filter(p).index_of(l);
        if i < t.filter(p).len() {
            assert(t.filter(p)[i] == l);
            assert(t.filter(p).contains(l));
            lemma_filter_from(t, p, l);
            assert(s[t.index_of(l)] == l);
        } else {
            assert(s[s.len() - 1] == l);
        }
    }
}

impl Network {
    /// Whether the node at the position is cut off.
    fn is_cut(&self, i: usize) -> (b: bool)
        requires
            i < self.nodes@.len(),
        ensures
            b == self@.cut(i as int),
    {
        assert(self@.nodes[i as int] == self.nodes@[i as int]@);
        self.nodes[i].state.mode == Mode::Isolated || self.partitioned_nodes.contains(&self.nodes[i].id)
    }

    fn is_down(&self, i: usize) -> (b: bool)
        requires
            i < self.nodes@.len(),
        ensures
            b == self@.down(i as int),
    {
        assert(self@.nodes[i as int] == self.nodes@[i as int]@);
        self.is_cut(i) || self.nodes[i].state.mode == Mode::Reconnecting
    }

    /// Opens and closes the links by the nodes at their ends.
    pub(crate) fn sync_isolation_links(&mut self)
        requires
            old(self)@.wired(),
        ensures
            final(self)@ == old(self)@.synced(),
            final(self)@.wired(),
    {
        let ghost start = self@;
        let mut i: usize = 0;
        while i < self.links.len()
            invariant
                i <= self.links@.len(),
                start.wired(),
                self.links@.len() == start.links.len(),
                self@ == start.with_links(self.links@),
                forall|k: int| 0 <= k < i ==> (#[trigger] self.links@[k]) == start.synced_link(start.links[k]),
                forall|k: int| i <= k < start.links.len() ==> (#[trigger] self.links@[k]) == start.links[k],
            decreases self.links@.len() - i,
        {
            let l: Link = self.links[i];
            assert(start.links[i as int] == l);
            let active = !self.is_cut(l.from) && !self.is_cut(l.to);
            assert(self@.nodes == start.nodes && self@.partitioned_nodes == start.partitioned_nodes);
            self.links[i] = Link { active, ..l };
            i = i + 1;
        }
        proof {
            assert(self@.links =~= start.synced().links);
        }
    }

    /// The ids of the nodes that are cut off.
    pub(crate) fn currently_cut_node_ids(&self) -> (ids: HashSet<u32>)
        ensures
            ids@ == self@.cut_ids(self@.nodes.len()),
    {
        let mut ids: HashSet<u32> = HashSet::new();
        let mut i: usize = 0;
        assert(ids@ =~= Set::empty());
        while i < self.nodes.len()
            invariant
                i <= self.nodes@.len(),
                ids@ == self@.cut_ids(i as nat),
            decreases self.nodes@.len() - i,
        {
            assert(self@.nodes[i as int] == self.nodes@[i as int]@);
            if self.is_cut(i) {
                ids.insert(self.nodes[i].id);
            }
            i = i + 1;
        }
        ids
    }

    /// Notes the tick for every node that was cut off and is not so any more.
    pub(crate) fn refresh_recovery_markers(&mut self, previously_cut: &HashSet<u32>)
        ensures
            final(self)@ == old(self)@.marked(previously_cut@),
    {
        let ghost start = self@;
        let mut i: usize = 0;
        while i < self.nodes.len()
            invariant
                i <= self.nodes@.len(),
                self@.nodes == start.nodes,
                self@ == (NetworkView {
                    recovered_at_tick: start.recoveries(previously_cut@, i as nat),
                    ..start
                }),
            decreases self.nodes@.len() - i,
        {
            let id: u32 = self.nodes[i].id;
            assert(start.nodes[i as int] == self.nodes@[i as int]@);
            assert(self@.cut(i as int) == start.cut(i as int));
            if !self.is_cut(i) && previously_cut.contains(&id) {
                self.recovered_at_tick.insert(id, self.tick);
            }
            i = i + 1;
        }
    }

    /// Whether a physical link leads from one position to the other.
    fn has_physical_link(&self, from: usize, to: usize) -> (b: bool)
        ensures
            b == self@.physical(from, to),
    {
        let mut i: usize = 0;
        let ghost net = self@;
        while i < self.links.len()
            invariant
                i <= self.links@.len(),
                net == self@,
                forall|k: int|
                    0 <= k < i ==> !(!(#[trigger] net.links[k]).virtual_link && net.links[k].from == from
                        && net.links[k].to == to),
            decreases self.links@.len() - i,
        {
            let l: Link = self.links[i];
            assert(net.links[i as int] == l);
            if !l.virtual_link && l.from == from && l.to == to {
                return true;
            }
            i = i + 1;
        }
        false
    }

    /// Whether the nodes have physical neighbours in common, all of them up.
    fn is_bridged(&self, u: usize, v: usize) -> (b: bool)
        requires
            self@.wired(),
        ensures
            b == self@.bridged(u, v),
    {
        let ghost net = self@;
        let mut common = false;
        let mut i: usize = 0;
        while i < self.links.len()
            invariant
                i <= self.links@.len(),
                net == self@,
                net.wired(),
                common ==> exists|w: usize| net.between(u, v, w),
                forall|k: int|
                    #![trigger net.links[k]]
                    0 <= k < i && !net.links[k].virtual_link && net.links[k].from == u && net.physical(
                        v,
                        net.links[k].to,
                    ) ==> common && !net.down(net.links[k].to as int),
            decreases self.links@.len() - i,
        {
            let l: Link = self.links[i];
            assert(net.links[i as int] == l);
            if !l.virtual_link && l.from == u && self.has_physical_link(v, l.to) {
                assert(net.physical(u, l.to));
                assert(net.between(u, v, l.to));
                common = true;
                if self.is_down(l.to) {
                    return false;
                }
            }
            i = i + 1;
        }
        proof {
            assert forall|w: usize| net.between(u, v, w) implies common && !net.down(w as int) by {
                let k = choose|k: int|
                    0 <= k < net.links.len() && !(#[trigger] net.links[k]).virtual_link && net.links[k].from == u
                        && net.links[k].to == w;
                assert(net.links[k].to == w);
            }
        }
        common
    }

    /// Whether a virtual link is open between the positions.
    fn has_virtual_link(&self, u: usize, v: usize) -> (b: bool)
        ensures
            b == self@.virtually_joined(u, v),
    {
        let mut i: usize = 0;
        let ghost net = self@;
        while i < self.links.len()
            invariant
                i <= self.links@.len(),
                net == self@,
                forall|k: int|
                    0 <= k < i ==> !((#[trigger] net.links[k]).virtual_link && net.links[k].active && ((
                    net.links[k].from == u && net.links[k].to == v) || (net.links[k].from == v && net.links[k].to
                        == u))),
            decreases self.links@.len() - i,
        {
            let l: Link = self.links[i];
            assert(net.links[i as int] == l);
            if l.virtual_link && l.active && ((l.from == u && l.to == v) || (l.from == v && l.to == u)) {
                return true;
            }
            i = i + 1;
        }
        false
    }

    /// Takes out the virtual links that are no longer needed.
    pub(crate) fn cleanup_redundant_virtual_bridges(&mut self)
        requires
            old(self)@.wired(),
        ensures
            final(self)@ == old(self)@.cleaned(),
            final(self)@.wired(),
    {
        let ghost start = self@;
        let ghost p = |l: Link| !start.redundant(l);
        let mut kept: Vec<Link> = Vec::new();
        let mut i: usize = 0;
        proof {
            reveal(Seq::filter);
            assert(start.links.take(0) =~= seq![]);
            assert(kept@ =~= start.links.take(0).filter(p));
        }
        while i < self.links.len()
            invariant
                i <= self.links@.len(),
                self@ == start,
                start.wired(),
                p == (|l: Link| !start.redundant(l)),
                kept@ == start.links.take(i as int).filter(p),
            decreases self.links@.len() - i,
        {
            let l: Link = self.links[i];
            proof {
                assert(start.links.take(i + 1) =~= start.links.take(i as int).push(l));
                lemma_filter_push(start.links.take(i as int), l, p);
            }
            let redundant = l.virtual_link && self.has_virtual_link(l.from, l.to) && self.is_bridged(l.from, l.to);
            if !redundant {
                kept.push(l);
            }
            i = i + 1;
        }
        assert(start.links.take(i as int) =~= start.links);
        proof {
            assert forall|k: int| 0 <= k < kept@.len() implies (#[trigger] kept@[k]).from < start.nodes.len()
                && kept@[k].to < start.nodes.len() by {
                assert(start.links.filter(p).contains(kept@[k]));
                lemma_filter_from(start.links, p, kept@[k]);
                let j = start.links.index_of(kept@[k]);
                assert(start.links[j].from < start.nodes.len());
            }
        }
        self.links = kept;
    }
}

} // verus!
