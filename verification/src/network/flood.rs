//! Spreading what the nodes know of their links.

use vstd::prelude::*;

use crate::network::topology_map::{lemma_filter_push, Link, NodeSnapshot, NodeSnapshotView};
use crate::network::world::{lemma_steady, steady};
use crate::network::{lemma_node_views_update, Network, NetworkView};
use crate::node::topology::{leads_from, linked_ids, node_ids, LEAST_CONFIDENCE, RELAY_SHARE};
use crate::node::{Mode, NodeView};
use crate::single::{Single, ONE};

verus! {

/// Snapshots on their way, each with the position of its receiver.
pub type Mail = Seq<(usize, NodeSnapshotView)>;

impl NodeSnapshotView {
    /// The snapshot as it is passed on: with a little less confidence.
    pub open spec fn relayed(self) -> NodeSnapshotView {
        NodeSnapshotView {
            confidence: self.confidence.product(Single { bits: RELAY_SHARE }).larger(
                Single { bits: LEAST_CONFIDENCE },
            ),
            ..self
        }
    }
}

impl NodeView {
    /// The node after it has got a snapshot.
    pub open spec fn informed_of(self, snap: NodeSnapshotView, current_tick: u64) -> NodeView {
        if self.knows(snap) {
            self
        } else {
            NodeView { topology_map: self.topology_map.merged(snap, current_tick), ..self }
        }
    }
}

impl NetworkView {
    /// The snapshot that the node at a position sends of itself.
    pub open spec fn own_snapshot(self, i: int) -> NodeSnapshotView {
        NodeSnapshotView {
            node_id: self.nodes[i].id,
            neighbors: linked_ids(self.nodes[i].id, self.links, self.ids()),
            timestamp: self.tick,
            confidence: Single { bits: ONE },
        }
    }

    /// The snapshot goes along the active links from a position.
    pub open spec fn posted(self, from: usize, snap: NodeSnapshotView) -> Mail {
        self.links.filter(|l: Link| l.active && l.from == from).map_values(|l: Link| (l.to, snap))
    }

    /// What those of the first `n` nodes send that are not isolated.
    pub open spec fn announced(self, n: nat) -> Mail
        decreases n,
    {
        if n == 0 {
            seq![]
        } else {
            let before = self.announced((n - 1) as nat);
            if self.nodes[n - 1].state.mode == Mode::Isolated {
                before
            } else {
                before + self.posted((n - 1) as usize, self.own_snapshot(n - 1))
            }
        }
    }

    /// The first `n` snapshots reach their receivers, who pass on what is new to them.
    pub open spec fn first_round(self, mail: Mail, n: nat) -> (NetworkView, Mail)
        decreases n,
    {
        if n == 0 {
            (self, seq![])
        } else {
            let (before, relays) = self.first_round(mail, (n - 1) as nat);
            let (i, snap) = mail[n - 1];
            let node = before.nodes[i as int];
            (
                before.with_node(i as int, node.informed_of(snap, self.tick)),
                if node.knows(snap) { relays } else { relays + self.posted(i, snap.relayed()) },
            )
        }
    }

    /// The first `n` relayed snapshots reach their receivers.
    pub open spec fn second_round(self, mail: Mail, n: nat) -> NetworkView
        decreases n,
    {
        if n == 0 {
            self
        } else {
            let before = self.second_round(mail, (n - 1) as nat);
            let (i, snap) = mail[n - 1];
            before.with_node(i as int, before.nodes[i as int].informed_of(snap, self.tick))
        }
    }

    /// The network after every node has told its neighbours of its links, and these theirs.
    pub open spec fn flooded(self) -> NetworkView {
        let mail = self.announced(self.nodes.len());
        let (after, relays) = self.first_round(mail, mail.len());
        after.second_round(relays, relays.len())
    }
}

pub open spec fn mail_views(mail: Seq<(usize, NodeSnapshot)>) -> Mail {
    mail.map_values(|m: (usize, NodeSnapshot)| (m.0, m.1@))
}

impl Network {
    /// Sends a snapshot along the active links from a position.
    fn post(&self, from: usize, snap: &NodeSnapshot, mail: &mut Vec<(usize, NodeSnapshot)>)
        requires
            self@.wired(),
            forall|k: int| 0 <= k < old(mail)@.len() ==> (#[trigger] old(mail)@[k]).0 < self.nodes@.len(),
        ensures
            mail_views(final(mail)@) == mail_views(old(mail)@) + self@.posted(from, snap@),
            forall|k: int| 0 <= k < final(mail)@.len() ==> (#[trigger] final(mail)@[k]).0 < self.nodes@.len(),
    {
        let ghost net = self@;
        let ghost first = mail@;
        let ghost keep = |l: Link| l.active && l.from == from;
        let ghost f = |l: Link| (l.to, snap@);
        let mut i: usize = 0;
        proof {
            reveal(Seq::filter);
            assert(net.links.take(0) =~= seq![]);
            assert(mail_views(mail@) =~= mail_views(first) + net.links.take(0).filter(keep).map_values(f));
        }
        while i < self.links.len()
            invariant
                i <= self.links@.len(),
                net == self@,
                net.wired(),
                keep == (|l: Link| l.active && l.from == from),
                f == (|l: Link| (l.to, snap@)),
                forall|k: int| 0 <= k < mail@.len() ==> (#[trigger] mail@[k]).0 < self.nodes@.len(),
                mail_views(mail@) == mail_views(first) + net.links.take(i as int).filter(keep).map_values(f),
            decreases self.links@.len() - i,
        {
            let l: Link = self.links[i];
            let ghost kept = net.links.take(i as int).filter(keep);
            let ghost before = mail@;
            proof {
                assert(net.links[i as int] == l);
                assert(net.links.take(i + 1) =~= net.links.take(i as int).push(l));
                lemma_filter_push(net.links.take(i as int), l, keep);
            }
            if l.active && l.from == from {
                mail.push((l.to, snap.clone()));
                proof {
                    assert(mail_views(mail@) =~= mail_views(before).push(f(l)));
                    assert(kept.push(l).map_values(f) =~= kept.map_values(f).push(f(l)));
                    assert(mail_views(mail@) =~= mail_views(first) + kept.push(l).map_values(f));
                }
            }
            i = i + 1;
        }
        assert(net.links.take(i as int) =~= net.links);
    }

    /// Every node that is not isolated tells its neighbours of its links, and these tell theirs.
    pub fn tick_topology_flood(&mut self)
        requires
            old(self)@.wired(),
            old(self)@.numbered(),
        ensures
            final(self)@ == old(self)@.flooded(),
            steady(old(self)@, final(self)@),
    {
        let ghost start = self@;
        let tick: u64 = self.tick;
        let mut mail: Vec<(usize, NodeSnapshot)> = Vec::new();
        let mut i: usize = 0;
        assert(mail_views(mail@) =~= Seq::<(usize, NodeSnapshotView)>::empty());
        while i < self.nodes.len()
            invariant
                i <= self.nodes@.len(),
                start == self@,
                start.wired(),
                start.numbered(),
                tick == start.tick,
                forall|k: int| 0 <= k < mail@.len() ==> (#[trigger] mail@[k]).0 < self.nodes@.len(),
                mail_views(mail@) == start.announced(i as nat),
            decreases self.nodes@.len() - i,
        {
            let node = &self.nodes[i];
            proof {
                assert(start.nodes[i as int] == node@);
                assert(start.nodes[i as int].id >= 1);
                assert(node_ids(self.nodes@) =~= start.ids());
                assert forall|k: int| 0 <= k < self.links@.len() && leads_from(#[trigger] self.links@[k], node.id) implies self.links@[k].to
                    < self.nodes@.len() by {
                    assert(start.links[k].to < start.nodes.len());
                }
            }
            if node.state.mode != Mode::Isolated {
                let snap = node.broadcast_lsa(tick, &self.links, &self.nodes);
                self.post(i, &snap, &mut mail);
            }
            i = i + 1;
        }

        let mut relays: Vec<(usize, NodeSnapshot)> = Vec::new();
        let mut k: usize = 0;
        assert(mail_views(relays@) =~= Seq::<(usize, NodeSnapshotView)>::empty());
        let ghost sent = mail_views(mail@);
        while k < mail.len()
            invariant
                k <= mail@.len(),
                sent == mail_views(mail@),
                start.wired(),
                tick == start.tick,
                self.tick == tick,
                steady(start, self@),
                forall|k: int| 0 <= k < mail@.len() ==> (#[trigger] mail@[k]).0 < self.nodes@.len(),
                forall|k: int| 0 <= k < relays@.len() ==> (#[trigger] relays@[k]).0 < self.nodes@.len(),
                (self@, mail_views(relays@)) == start.first_round(sent, k as nat),
            decreases mail@.len() - k,
        {
            let i: usize = mail[k].0;
            let snap = mail[k].1.clone();
            let ghost s = snap@;
            let ghost before = self.nodes@;
            proof {
                assert(sent[k as int] == (i, s));
                assert(self@.nodes[i as int] == before[i as int]@);
            }
            let relayed = self.nodes[i].receive_lsa(snap, tick);
            proof {
                lemma_node_views_update(before, self.nodes@, i as int);
                lemma_steady(start, self@);
            }
            match relayed {
                Some(r) => {
                    assert(r@ =~= s.relayed());
                    self.post(i, &r, &mut relays);
                    assert(self@.posted(i, r@) == start.posted(i, s.relayed()));
                },
                None => {},
            }
            k = k + 1;
        }

        let ghost middle = self@;
        let ghost sent = mail_views(relays@);
        let mut k: usize = 0;
        while k < relays.len()
            invariant
                k <= relays@.len(),
                sent == mail_views(relays@),
                tick == middle.tick,
                steady(middle, self@),
                forall|k: int| 0 <= k < relays@.len() ==> (#[trigger] relays@[k]).0 < self.nodes@.len(),
                self@ == middle.second_round(sent, k as nat),
            decreases relays@.len() - k,
        {
            let i: usize = relays[k].0;
            let snap = relays[k].1.clone();
            let ghost s = snap@;
            let ghost before = self.nodes@;
            proof {
                assert(sent[k as int] == (i, s));
                assert(self@.nodes[i as int] == before[i as int]@);
            }
            let relayed = self.nodes[i].receive_lsa(snap, tick);
            proof {
                match relayed {
                    Some(r) => {
                        assert(r@ =~= s.relayed());
                    },
                    None => {},
                }
                lemma_node_views_update(before, self.nodes@, i as int);
            }
            k = k + 1;
        }
    }
}

/// A node passes nothing on twice: what it has got once it knows.
pub proof fn law_passed_on_once(node: NodeView, snap: NodeSnapshotView, current_tick: u64)
    ensures
        node.informed_of(snap, current_tick).knows(snap),
{
}

/// Passing a snapshot on leaves it the least confidence at least.
pub proof fn law_relayed_confidence(snap: NodeSnapshotView)
    ensures
        (Single { bits: LEAST_CONFIDENCE }).at_most(snap.relayed().confidence),
{
}

} // verus!
