//! How far the news of the nodes' links travels, and what it is worth then.

use vstd::prelude::*;

use crate::lists::{lemma_filtered, lemma_filters_agree};
use crate::network::ballots::open_way;
use crate::network::flood::Mail;
use crate::network::topology_map::{Link, NodeSnapshotView, TopologyView};
use crate::network::NetworkView;
use crate::node::topology::{leads_from, linked_ids, LEAST_CONFIDENCE, RELAY_SHARE};
use crate::node::{Mode, NodeView};
use crate::single::{Single, ONE};

verus! {

/// The ids to which active links lead from a node are those at the other ends, as often as there are links; a node's own
/// links are those from the position before its id.
pub proof fn law_linked_ids(net: NetworkView, id: u32, x: u32)
    ensures
        linked_ids(id, net.links, net.ids()).contains(x) <==> exists|i: int|
            0 <= i < net.links.len() && (#[trigger] net.links[i]).active && net.links[i].from + 1 == id
                && net.ids()[net.links[i].to as int] == x,
        linked_ids(id, net.links, net.ids()).len() == net.links.filter(|l: Link| l.active && l.from + 1 == id).len(),
{
    let keep = |l: Link| leads_from(l, id);
    let open = net.links.filter(keep);
    let ids = linked_ids(id, net.links, net.ids());
    lemma_filters_agree(net.links, keep, |l: Link| l.active && l.from + 1 == id);
    if ids.contains(x) {
        let k = ids.index_of(x);
        assert(open.contains(open[k]));
        lemma_filtered(net.links, keep, open[k]);
        let i = net.links.index_of(open[k]);
        assert(net.links[i].active);
    }
    if exists|i: int|
        0 <= i < net.links.len() && (#[trigger] net.links[i]).active && net.links[i].from + 1 == id
            && net.ids()[net.links[i].to as int] == x {
        let i = choose|i: int|
            0 <= i < net.links.len() && (#[trigger] net.links[i]).active && net.links[i].from + 1 == id
                && net.ids()[net.links[i].to as int] == x;
        assert(net.links.contains(net.links[i]));
        lemma_filtered(net.links, keep, net.links[i]);
        let k = open.index_of(net.links[i]);
        assert(ids[k] == x);
    }
}

/// After the votes every node has those for neighbours to whom its active links lead, and nothing else of the nodes changes
/// by that. What a node announces of itself are the same ids, with full confidence and this tick.
pub proof fn law_neighbors_known(net: NetworkView, i: int)
    requires
        0 <= i < net.nodes.len(),
    ensures
        net.acquainted().nodes[i] == (NodeView {
            neighbor_ids: linked_ids(net.nodes[i].id, net.links, net.ids()),
            ..net.nodes[i]
        }),
        net.acquainted() == (NetworkView { nodes: net.acquainted().nodes, ..net }),
        net.own_snapshot(i).node_id == net.nodes[i].id,
        net.own_snapshot(i).neighbors == linked_ids(net.nodes[i].id, net.links, net.ids()),
        net.own_snapshot(i).timestamp == net.tick,
        net.own_snapshot(i).confidence == (Single { bits: ONE }),
{
}

/// A snapshot that is passed on is the same but for its confidence: nine tenths of what it was, and a tenth at least.
pub proof fn law_relayed(snap: NodeSnapshotView)
    ensures
        snap.relayed() == (NodeSnapshotView { confidence: snap.relayed().confidence, ..snap }),
        snap.relayed().confidence == snap.confidence.product(Single { bits: RELAY_SHARE }) || snap.relayed().confidence
            == (Single { bits: LEAST_CONFIDENCE }),
        !snap.confidence.product(Single { bits: RELAY_SHARE }).nan() ==> snap.confidence.product(
            Single { bits: RELAY_SHARE },
        ).at_most(snap.relayed().confidence),
        (Single { bits: LEAST_CONFIDENCE }).at_most(snap.relayed().confidence),
{
}

/// What a node knows of another changes only by a newer snapshot of it, which then replaces the older one.
pub proof fn law_snapshot_taken_in(map: TopologyView, snap: NodeSnapshotView, tick: u64, id: u32)
    ensures
        ({
            let after = map.merged(snap, tick);
            let newer = !map.snapshots.contains_key(snap.node_id) || snap.timestamp
                > map.snapshots[snap.node_id].timestamp;
            &&& newer ==> after.snapshots.contains_key(snap.node_id) && after.snapshots[snap.node_id] == snap
                && after.last_updated == tick
            &&& !newer ==> after == map
            &&& id != snap.node_id ==> after.snapshots.contains_key(id) == map.snapshots.contains_key(id)
                && after.snapshots[id] == map.snapshots[id]
        }),
{
}

proof fn lemma_posted(net: NetworkView, from: usize, snap: NodeSnapshotView, p: (usize, NodeSnapshotView))
    ensures
        net.posted(from, snap).contains(p) <==> p.1 == snap && open_way(net, from as int, p.0 as int),
{
    let keep = |l: Link| l.active && l.from == from;
    let open = net.links.filter(keep);
    let post = net.posted(from, snap);
    if post.contains(p) {
        let k = post.index_of(p);
        assert(open.contains(open[k]));
        lemma_filtered(net.links, keep, open[k]);
        let i = net.links.index_of(open[k]);
        assert(net.links[i].active && net.links[i].from == from && net.links[i].to == p.0);
    }
    if p.1 == snap && open_way(net, from as int, p.0 as int) {
        let i = choose|i: int|
            0 <= i < net.links.len() && (#[trigger] net.links[i]).active && net.links[i].from == from && net.links[i].to
                == p.0;
        assert(net.links.contains(net.links[i]));
        lemma_filtered(net.links, keep, net.links[i]);
        let k = open.index_of(net.links[i]);
        assert(post[k] == p);
    }
}

/// The node at the position announces its links, and there is a way for it.
spec fn tells(net: NetworkView, i: int, p: (usize, NodeSnapshotView)) -> bool {
    net.nodes[i].state.mode != Mode::Isolated && p.1 == net.own_snapshot(i) && open_way(net, i, p.0 as int)
}

proof fn lemma_announced(net: NetworkView, n: nat, p: (usize, NodeSnapshotView))
    requires
        n <= net.nodes.len() <= u32::MAX,
    ensures
        net.announced(n).contains(p) <==> exists|i: int| 0 <= i < n && #[trigger] tells(net, i, p),
    decreases n,
{
    if n > 0 {
        let m = (n - 1) as nat;
        lemma_announced(net, m, p);
        let past = net.announced(m);
        let more = net.posted(m as usize, net.own_snapshot(n - 1));
        let all = net.announced(n);
        lemma_posted(net, m as usize, net.own_snapshot(n - 1), p);
        if net.nodes[n - 1].state.mode != Mode::Isolated {
            assert(all == past + more);
            if all.contains(p) {
                let k = all.index_of(p);
                if k < past.len() {
                    assert(past[k] == p);
                } else {
                    assert(more[k - past.len()] == p);
                    assert(tells(net, n - 1, p));
                }
            }
            if past.contains(p) {
                assert(all[past.index_of(p)] == p);
            }
            if more.contains(p) {
                assert(all[past.len() + more.index_of(p)] == p);
            }
        } else {
            assert(!tells(net, n - 1, p));
        }
        if exists|i: int| 0 <= i < n && #[trigger] tells(net, i, p) {
            let i = choose|i: int| 0 <= i < n && #[trigger] tells(net, i, p);
            if i == n - 1 {
                assert(more.contains(p));
            }
        }
    }
}

/// All mail on the node `id` says the same, and it is of this tick.
spec fn agrees(mail: Mail, s: NodeSnapshotView, tick: u64, nodes: nat) -> bool {
    &&& s.timestamp == tick
    &&& forall|k: int|
        0 <= k < mail.len() ==> (#[trigger] mail[k]).0 < nodes && (mail[k].1.node_id == s.node_id ==> mail[k].1 == s)
}

/// The node has heard nothing of this tick on the node `id`.
spec fn unaware(node: NodeView, id: u32, tick: u64) -> bool {
    node.topology_map.snapshots.contains_key(id) ==> node.topology_map.snapshots[id].timestamp < tick
}

/// The node has the same on the node `id` as before.
spec fn same_news(a: NodeView, b: NodeView, id: u32) -> bool {
    a.topology_map.snapshots.contains_key(id) == b.topology_map.snapshots.contains_key(id) && a.topology_map.snapshots[id]
        == b.topology_map.snapshots[id]
}

/// The node has this on the node that it is of.
spec fn has_news(node: NodeView, s: NodeSnapshotView) -> bool {
    node.topology_map.snapshots.contains_key(s.node_id) && node.topology_map.snapshots[s.node_id] == s
}

proof fn lemma_first_news(net: NetworkView, mail: Mail, n: nat, b: int, s: NodeSnapshotView)
    requires
        n <= mail.len(),
        0 <= b < net.nodes.len() <= u32::MAX,
        agrees(mail, s, net.tick, net.nodes.len()),
        unaware(net.nodes[b], s.node_id, net.tick),
    ensures
        ({
            let after = net.first_round(mail, n).0;
            &&& after.links == net.links
            &&& after.tick == net.tick
            &&& after.nodes.len() == net.nodes.len()
            &&& if mail.take(n as int).contains((b as usize, s)) {
                has_news(after.nodes[b], s)
            } else {
                same_news(net.nodes[b], after.nodes[b], s.node_id)
            }
        }),
    decreases n,
{
    if n > 0 {
        let m = (n - 1) as nat;
        lemma_first_news(net, mail, m, b, s);
        let part = mail.take(m as int);
        let p = (b as usize, s);
        assert(mail.take(n as int) =~= part.push(mail[n - 1]));
        assert(mail[n - 1].0 < net.nodes.len());
        if part.contains(p) {
            assert(part.push(mail[n - 1])[part.index_of(p)] == p);
        }
        if part.push(mail[n - 1]).contains(p) && mail[n - 1] != p {
            let k = part.push(mail[n - 1]).index_of(p);
            assert(part[k] == p);
        }
        if mail[n - 1] == p {
            assert(part.push(mail[n - 1])[m as int] == p);
        }
    } else {
        assert(mail.take(0) =~= seq![]);
    }
}

/// The position to which some mail on the node went first, and which passes it on.
spec fn passes_on(net: NetworkView, mail: Mail, n: nat, c: int, s: NodeSnapshotView, p: (usize, NodeSnapshotView)) -> bool {
    0 <= c < net.nodes.len() && mail.take(n as int).contains((c as usize, s)) && open_way(net, c, p.0 as int)
}

proof fn lemma_relays(net: NetworkView, mail: Mail, n: nat, s: NodeSnapshotView, p: (usize, NodeSnapshotView))
    requires
        n <= mail.len(),
        net.nodes.len() <= u32::MAX,
        agrees(mail, s, net.tick, net.nodes.len()),
        forall|c: int| 0 <= c < net.nodes.len() ==> unaware(#[trigger] net.nodes[c], s.node_id, net.tick),
        p.1.node_id == s.node_id,
    ensures
        net.first_round(mail, n).1.contains(p) <==> p.1 == s.relayed() && exists|c: int| #[trigger]
            passes_on(net, mail, n, c, s, p),
    decreases n,
{
    if n > 0 {
        let m = (n - 1) as nat;
        lemma_relays(net, mail, m, s, p);
        let (before, past) = net.first_round(mail, m);
        let all = net.first_round(mail, n).1;
        let (i, snap) = mail[n - 1];
        assert(mail[n - 1].0 < net.nodes.len());
        lemma_first_news(net, mail, m, i as int, s);
        assert(unaware(net.nodes[i as int], s.node_id, net.tick));
        let part = mail.take(m as int);
        let full = mail.take(n as int);
        assert(full =~= part.push(mail[n - 1]));
        let more = net.posted(i, snap.relayed());
        lemma_posted(net, i, snap.relayed(), p);
        assert forall|c: int| #[trigger] passes_on(net, mail, n, c, s, p) <==> passes_on(net, mail, m, c, s, p) || (c == i
            && snap == s && open_way(net, c, p.0 as int)) by {
            let q = (c as usize, s);
            if part.contains(q) {
                assert(full[part.index_of(q)] == q);
            }
            if full.contains(q) && mail[n - 1] != q {
                assert(part[full.index_of(q)] == q);
            }
            if mail[n - 1] == q {
                assert(full[m as int] == q);
            }
        }
        if past.contains(p) {
            if !before.nodes[i as int].knows(snap) {
                assert(all[past.index_of(p)] == p);
            }
            let c = choose|c: int| #[trigger] passes_on(net, mail, m, c, s, p);
            assert(passes_on(net, mail, n, c, s, p));
        }
        if all.contains(p) {
            let k = all.index_of(p);
            if k < past.len() {
                assert(past[k] == p);
            } else {
                assert(more[k - past.len()] == p);
                assert(more.contains(p));
                assert(snap.node_id == s.node_id);
                assert(passes_on(net, mail, n, i as int, s, p));
            }
        }
        if p.1 == s.relayed() && exists|c: int| #[trigger] passes_on(net, mail, n, c, s, p) {
            let c = choose|c: int| #[trigger] passes_on(net, mail, n, c, s, p);
            if passes_on(net, mail, m, c, s, p) {
                assert(past.contains(p));
            } else {
                assert(c == i && snap == s);
                assert(!part.contains((i, s))) by {
                    if part.contains((i, s)) {
                        assert(passes_on(net, mail, m, c, s, p));
                    }
                }
                assert(!before.nodes[i as int].knows(snap));
                assert(more.contains(p));
                assert(all[past.len() + more.index_of(p)] == p);
            }
        }
    } else {
        assert(mail.take(0) =~= seq![]);
    }
}

proof fn lemma_second_news(net: NetworkView, mail: Mail, n: nat, b: int, s: NodeSnapshotView)
    requires
        n <= mail.len(),
        0 <= b < net.nodes.len() <= u32::MAX,
        agrees(mail, s, net.tick, net.nodes.len()),
    ensures
        ({
            let after = net.second_round(mail, n);
            &&& after.nodes.len() == net.nodes.len()
            &&& if unaware(net.nodes[b], s.node_id, net.tick) && mail.take(n as int).contains((b as usize, s)) {
                has_news(after.nodes[b], s)
            } else {
                same_news(net.nodes[b], after.nodes[b], s.node_id)
            }
        }),
    decreases n,
{
    if n > 0 {
        let m = (n - 1) as nat;
        lemma_second_news(net, mail, m, b, s);
        let part = mail.take(m as int);
        let p = (b as usize, s);
        assert(mail.take(n as int) =~= part.push(mail[n - 1]));
        assert(mail[n - 1].0 < net.nodes.len());
        if part.contains(p) {
            assert(part.push(mail[n - 1])[part.index_of(p)] == p);
        }
        if part.push(mail[n - 1]).contains(p) && mail[n - 1] != p {
            let k = part.push(mail[n - 1]).index_of(p);
            assert(part[k] == p);
        }
        if mail[n - 1] == p {
            assert(part.push(mail[n - 1])[m as int] == p);
        }
    } else {
        assert(mail.take(0) =~= seq![]);
    }
}

/// In a flood that no node has heard anything of yet, the news of a node that is not isolated goes two steps along active
/// links, and no further. Whom a link leads to directly has it as it was announced; whom only two links lead to has it as
/// it is passed on, with less confidence; and of all others, and of the news of isolated nodes, nobody hears anything.
pub proof fn law_news_go_two_steps(net: NetworkView, a: int, b: int)
    requires
        net.wired(),
        net.ids().no_duplicates(),
        0 <= a < net.nodes.len(),
        0 <= b < net.nodes.len(),
        forall|c: int, id: u32|
            0 <= c < net.nodes.len() && #[trigger] net.nodes[c].topology_map.snapshots.contains_key(id)
                ==> net.nodes[c].topology_map.snapshots[id].timestamp < net.tick,
    ensures
        ({
            let id = net.nodes[a].id;
            let before = net.nodes[b].topology_map.snapshots;
            let after = net.flooded().nodes[b].topology_map.snapshots;
            let sends = net.nodes[a].state.mode != Mode::Isolated;
            let near = sends && open_way(net, a, b);
            let far = sends && exists|c: int|
                0 <= c < net.nodes.len() && #[trigger] open_way(net, a, c) && open_way(net, c, b);
            &&& near ==> after.contains_key(id) && after[id] == net.own_snapshot(a)
            &&& !near && far ==> after.contains_key(id) && after[id] == net.own_snapshot(a).relayed()
            &&& !near && !far ==> after.contains_key(id) == before.contains_key(id) && after[id] == before[id]
        }),
{
    let n = net.nodes.len();
    let mail = net.announced(n);
    let s = net.own_snapshot(a);
    let id = net.nodes[a].id;
    assert forall|c: int| 0 <= c < n implies unaware(#[trigger] net.nodes[c], id, net.tick) by {}
    assert forall|k: int| 0 <= k < mail.len() implies (#[trigger] mail[k]).0 < n && (mail[k].1.node_id == id ==> mail[k].1 == s) by {
        assert(mail.contains(mail[k]));
        lemma_announced(net, n, mail[k]);
        let i = choose|i: int| 0 <= i < n && #[trigger] tells(net, i, mail[k]);
        let j = choose|j: int|
            0 <= j < net.links.len() && (#[trigger] net.links[j]).active && net.links[j].from == i && net.links[j].to
                == mail[k].0;
        assert(net.links[j].to < n);
        if mail[k].1.node_id == id {
            assert(net.ids()[i] == net.ids()[a]);
        }
    }
    assert(agrees(mail, s, net.tick, n));
    let whole = mail.take(mail.len() as int);
    assert(whole =~= mail);
    let (after, relays) = net.first_round(mail, mail.len());
    lemma_first_news(net, mail, mail.len(), b, s);
    let sends = net.nodes[a].state.mode != Mode::Isolated;
    assert forall|c: int| 0 <= c < n implies (#[trigger] mail.contains((c as usize, s)) <==> sends && open_way(net, a, c)) by {
        let p = (c as usize, s);
        lemma_announced(net, n, p);
        if mail.contains(p) {
            let i = choose|i: int| 0 <= i < n && #[trigger] tells(net, i, p);
            assert(net.ids()[i] == net.ids()[a]);
        }
        if sends && open_way(net, a, c) {
            assert(tells(net, a, p));
        }
    }
    let r = s.relayed();
    assert forall|k: int| 0 <= k < relays.len() implies (#[trigger] relays[k]).0 < n && (relays[k].1.node_id == id ==> relays[k].1 == r) by {
        assert(relays.contains(relays[k]));
        lemma_relay_within(net, mail, mail.len(), k);
        if relays[k].1.node_id == id {
            lemma_relays(net, mail, mail.len(), s, relays[k]);
        }
    }
    lemma_relays(net, mail, mail.len(), s, (b as usize, r));
    lemma_second_news(after, relays, relays.len(), b, r);
    assert(relays.take(relays.len() as int) =~= relays);
    let p = (b as usize, r);
    if exists|c: int| #[trigger] passes_on(net, mail, mail.len(), c, s, p) {
        let c = choose|c: int| #[trigger] passes_on(net, mail, mail.len(), c, s, p);
        assert(mail.contains((c as usize, s)));
        assert(open_way(net, a, c) && open_way(net, c, b));
    }
    if sends && exists|c: int| 0 <= c < n && #[trigger] open_way(net, a, c) && open_way(net, c, b) {
        let c = choose|c: int| 0 <= c < n && #[trigger] open_way(net, a, c) && open_way(net, c, b);
        assert(mail.contains((c as usize, s)));
        assert(passes_on(net, mail, mail.len(), c, s, p));
    }
}

proof fn lemma_relay_within(net: NetworkView, mail: Mail, n: nat, k: int)
    requires
        net.wired(),
        n <= mail.len(),
        0 <= k < net.first_round(mail, n).1.len(),
    ensures
        net.first_round(mail, n).1[k].0 < net.nodes.len(),
    decreases n,
{
    if n > 0 {
        let (before, past) = net.first_round(mail, (n - 1) as nat);
        let (i, snap) = mail[n - 1];
        let more = net.posted(i, snap.relayed());
        if k < past.len() {
            lemma_relay_within(net, mail, (n - 1) as nat, k);
        } else {
            let p = more[k - past.len()];
            assert(more.contains(p));
            lemma_posted(net, i, snap.relayed(), p);
            let j = choose|j: int|
                0 <= j < net.links.len() && (#[trigger] net.links[j]).active && net.links[j].from == i && net.links[j].to == p.0;
            assert(net.links[j].to < net.nodes.len());
        }
    }
}

} // verus!
