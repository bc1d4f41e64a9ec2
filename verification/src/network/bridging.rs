//! Which bridges are asked for, granted, built and taken down.

use vstd::prelude::*;

use crate::lists::lemma_filtered;
use crate::network::ballots::lemma_own_position;
use crate::network::heal::{normalized, Answers};
use crate::network::links::law_cleaned_links;
use crate::network::topology_map::{law_stale, Link};
use crate::network::world::World;
use crate::network::NetworkView;
use crate::node::bridges::{attempted, bridge_links, lemma_position_exists, position, MIN_SNAPSHOT_CONFIDENCE};
use crate::node::{Mode, NodeView, SignalType, SignalView, VirtualBridgeAttempt};
use crate::single::Single;

verus! {

/// A node asks another for a bridge round a third one exactly where these hold. The third has been silent for longer than
/// is set; the node has a snapshot of it, with a confidence of 0.3 at least, by which both were its neighbours. The
/// other is neither itself nor excluded nor a neighbour of its own; it has not asked it already; and by its map there is
/// a way to it past those that are excluded.
pub proof fn law_bridges_asked_for(node: NodeView, tick: u64, excluded: Set<u32>, candidate: u32, fallen: u32)
    ensures
        node.bridges_to_ask(tick, excluded).contains((candidate, fallen)) <==> {
            let map = node.topology_map.snapshots;
            &&& map.contains_key(fallen)
            &&& tick > map[fallen].timestamp + node.config.security.node_stale_ttl
            &&& !map[fallen].confidence.below(Single { bits: MIN_SNAPSHOT_CONFIDENCE })
            &&& map[fallen].neighbors.contains(node.id)
            &&& map[fallen].neighbors.contains(candidate)
            &&& candidate != node.id
            &&& !excluded.contains(candidate)
            &&& !node.neighbor_ids.contains(candidate)
            &&& !(node.virtual_bridge_attempts.contains_key(candidate)
                && node.virtual_bridge_attempts[candidate].initiated_by_us)
            &&& exists|path: Seq<u32>|
                path.len() > 0 && path[0] == node.id && #[trigger] path.last() == candidate && forall|i: int|
                    0 <= i < path.len() - 1 ==> map.contains_key(#[trigger] path[i]) && map[path[i]].neighbors.contains(
                        path[i + 1],
                    ) && !excluded.contains(path[i + 1])
        },
{
    let stale = node.topology_map.stale(tick, node.config.security.node_stale_ttl);
    law_stale(node.topology_map, tick, node.config.security.node_stale_ttl, fallen);
    lemma_candidates(node, stale, excluded, stale.len(), candidate, fallen);
    let map = node.topology_map.snapshots;
    if node.topology_map.reachable(node.id, candidate, excluded) {
        let path = choose|path: Seq<u32>| node.topology_map.joins(path, node.id, candidate, excluded);
        assert forall|i: int| 0 <= i < path.len() - 1 implies map.contains_key(#[trigger] path[i]) && map[path[i]].neighbors.contains(
            path[i + 1],
        ) && !excluded.contains(path[i + 1]) by {
            assert(node.topology_map.step(path[i], path[i + 1], excluded));
        }
        assert(path.last() == candidate);
    }
    if exists|path: Seq<u32>|
        path.len() > 0 && path[0] == node.id && #[trigger] path.last() == candidate && forall|i: int|
            0 <= i < path.len() - 1 ==> map.contains_key(#[trigger] path[i]) && map[path[i]].neighbors.contains(path[i + 1])
                && !excluded.contains(path[i + 1]) {
        let path = choose|path: Seq<u32>|
            path.len() > 0 && path[0] == node.id && #[trigger] path.last() == candidate && forall|i: int|
                0 <= i < path.len() - 1 ==> map.contains_key(#[trigger] path[i]) && map[path[i]].neighbors.contains(
                    path[i + 1],
                ) && !excluded.contains(path[i + 1]);
        assert(node.topology_map.joins(path, node.id, candidate, excluded));
    }
}

proof fn lemma_candidates(node: NodeView, stale: Seq<u32>, excluded: Set<u32>, n: nat, c: u32, f: u32)
    requires
        n <= stale.len(),
    ensures
        node.candidates(stale, excluded, n).contains((c, f)) <==> stale.take(n as int).contains(f) && node.bereft_of(f)
            && node.topology_map.snapshots[f].neighbors.contains(c) && node.bridgeable(c, excluded),
        n == stale.len() ==> stale.take(n as int) == stale,
    decreases n,
{
    if n > 0 {
        let m = (n - 1) as nat;
        lemma_candidates(node, stale, excluded, m, c, f);
        let past = node.candidates(stale, excluded, m);
        let g = stale[n - 1];
        let more = node.candidates_via(g, excluded);
        let all = past + more;
        let keep = |c: u32| node.bridgeable(c, excluded);
        let part = stale.take(m as int);
        assert(stale.take(n as int) =~= part.push(g));
        if part.contains(f) {
            assert(part.push(g)[part.index_of(f)] == f);
        }
        if part.push(g).contains(f) && f != g {
            assert(part[part.push(g).index_of(f)] == f);
        }
        assert(part.push(g)[m as int] == g);
        let picked = node.topology_map.snapshots[g].neighbors.filter(keep);
        lemma_filtered(node.topology_map.snapshots[g].neighbors, keep, c);
        if all.contains((c, f)) {
            let k = all.index_of((c, f));
            if k < past.len() {
                assert(past[k] == (c, f));
            } else {
                assert(more[k - past.len()] == (c, f));
                assert(picked[k - past.len()] == c);
                assert(picked.contains(c));
            }
        }
        if past.contains((c, f)) {
            assert(all[past.index_of((c, f))] == (c, f));
        }
        if f == g && node.bereft_of(g) && picked.contains(c) {
            let k = picked.index_of(c);
            assert(more[k] == (c, f));
            assert(all[past.len() + k] == (c, f));
        }
    } else {
        assert(stale.take(0) =~= seq![]);
    }
    if n == stale.len() {
        assert(stale.take(n as int) =~= stale);
    }
}

/// A node grants a bridge exactly where neither side is isolated nor has found itself compromised, and the other side's
/// score is not above the limit.
pub proof fn law_bridge_granted(node: NodeView, request: SignalView)
    ensures
        node.accepts_bridge(request) <==> {
            &&& request.mode != Mode::Isolated
            &&& node.state.mode != Mode::Isolated
            &&& !node.config.security.threat_score_isolation.below(request.threat_score)
            &&& request.ai_state_reason != "malware_detected"@
            &&& request.ai_state_reason != "auth_bruteforce_detected"@
            &&& request.ai_state_reason != "integrity_violation"@
            &&& node.state.ai_state_reason != "malware_detected"@
            &&& node.state.ai_state_reason != "auth_bruteforce_detected"@
            &&& node.state.ai_state_reason != "integrity_violation"@
        },
{
}

/// The node at the position is isolated or on its way back.
pub open spec fn gone(net: NetworkView, i: int) -> bool {
    net.nodes[i].state.mode == Mode::Isolated || net.nodes[i].state.mode == Mode::Reconnecting
}

/// The node at the position has been back for less than the ticks after which a node counts as silent, or than one.
pub open spec fn lately_back(net: NetworkView, i: int) -> bool {
    let id = net.nodes[i].id;
    net.recovered_at_tick.contains_key(id) && (net.tick < net.recovered_at_tick[id] + net.config.security.node_stale_ttl
        || net.tick < net.recovered_at_tick[id] + 1)
}

/// Left out of bridges are exactly those parted from the others by a scenario, those gone, and those lately back. Of
/// these, those lately back may ask for bridges themselves, where nothing else speaks against it.
pub proof fn law_left_out(net: NetworkView, n: nat, id: u32)
    requires
        n <= net.nodes.len(),
    ensures
        net.excluded(n).contains(id) <==> net.partitioned_nodes.contains(id) || exists|i: int|
            0 <= i < n && (#[trigger] net.nodes[i]).id == id && (gone(net, i) || lately_back(net, i)),
        net.mute(n).contains(id) <==> net.partitioned_nodes.contains(id) || exists|i: int|
            0 <= i < n && (#[trigger] net.nodes[i]).id == id && gone(net, i),
    decreases n,
{
    if n > 0 {
        law_left_out(net, (n - 1) as nat, id);
        let m = n - 1;
        assert(net.in_grace(m) == lately_back(net, m));
        assert(net.nodes[m].away() == gone(net, m));
        if net.nodes[m].id == id && gone(net, m) {
            assert(net.nodes[m].id == id && gone(net, m));
        }
        if exists|i: int| 0 <= i < m && (#[trigger] net.nodes[i]).id == id && (gone(net, i) || lately_back(net, i)) {
            let i = choose|i: int| 0 <= i < m && (#[trigger] net.nodes[i]).id == id && (gone(net, i) || lately_back(net, i));
            assert(net.nodes[i].id == id);
        }
        if exists|i: int| 0 <= i < m && (#[trigger] net.nodes[i]).id == id && gone(net, i) {
            let i = choose|i: int| 0 <= i < m && (#[trigger] net.nodes[i]).id == id && gone(net, i);
            assert(net.nodes[i].id == id);
        }
        if exists|i: int| 0 <= i < n && (#[trigger] net.nodes[i]).id == id && (gone(net, i) || lately_back(net, i)) {
            let i = choose|i: int| 0 <= i < n && (#[trigger] net.nodes[i]).id == id && (gone(net, i) || lately_back(net, i));
            if i < m {
                assert(net.nodes[i].id == id && (gone(net, i) || lately_back(net, i)));
            }
        }
        if exists|i: int| 0 <= i < n && (#[trigger] net.nodes[i]).id == id && gone(net, i) {
            let i = choose|i: int| 0 <= i < n && (#[trigger] net.nodes[i]).id == id && gone(net, i);
            if i < m {
                assert(net.nodes[i].id == id && gone(net, i));
            }
        }
    }
}

/// A physical link leads from the one position to the other, active or not.
pub open spec fn wire(net: NetworkView, from: usize, to: usize) -> bool {
    exists|i: int|
        0 <= i < net.links.len() && !(#[trigger] net.links[i]).virtual_link && net.links[i].from == from && net.links[i].to
            == to
}

/// A link is taken down exactly where it is part of a bridge, some link of this bridge is active, physical links lead from
/// both of its ends to one node at least, and none of the nodes to which they do is isolated, on its way back or parted
/// from the others by a scenario. All other links stay.
pub proof fn law_bridge_taken_down(net: NetworkView, l: Link)
    ensures
        net.cleaned().links.contains(l) <==> net.links.contains(l) && !{
            &&& l.virtual_link
            &&& exists|i: int|
                0 <= i < net.links.len() && (#[trigger] net.links[i]).virtual_link && net.links[i].active && (
                (net.links[i].from == l.from && net.links[i].to == l.to) || (net.links[i].from == l.to && net.links[i].to
                    == l.from))
            &&& exists|v: usize| wire(net, l.from, v) && wire(net, l.to, v)
            &&& forall|v: usize|
                wire(net, l.from, v) && wire(net, l.to, v) ==> net.nodes[v as int].state.mode != Mode::Isolated
                    && net.nodes[v as int].state.mode != Mode::Reconnecting && !net.partitioned_nodes.contains(
                    net.nodes[v as int].id,
                )
        },
        net.cleaned() == (NetworkView { links: net.cleaned().links, ..net }),
{
    law_cleaned_links(net, l);
    assert forall|u: usize, v: usize| #[trigger] wire(net, u, v) == net.physical(u, v) by {}
    if net.bridged(l.from, l.to) {
        let v = choose|v: usize| net.between(l.from, l.to, v);
        assert(wire(net, l.from, v) && wire(net, l.to, v));
        assert forall|v: usize| wire(net, l.from, v) && wire(net, l.to, v) implies net.nodes[v as int].state.mode
            != Mode::Isolated && net.nodes[v as int].state.mode != Mode::Reconnecting && !net.partitioned_nodes.contains(
            net.nodes[v as int].id,
        ) by {
            assert(net.between(l.from, l.to, v));
            assert(!net.down(v as int));
        }
    }
    if (exists|v: usize| wire(net, l.from, v) && wire(net, l.to, v)) && (forall|v: usize|
        wire(net, l.from, v) && wire(net, l.to, v) ==> net.nodes[v as int].state.mode != Mode::Isolated
            && net.nodes[v as int].state.mode != Mode::Reconnecting && !net.partitioned_nodes.contains(
            net.nodes[v as int].id,
        )) {
        let v = choose|v: usize| wire(net, l.from, v) && wire(net, l.to, v);
        assert(net.between(l.from, l.to, v));
        assert forall|v: usize| net.between(l.from, l.to, v) implies !net.down(v as int) by {
            assert(wire(net, l.from, v) && wire(net, l.to, v));
        }
    }
}

/// Which ticks of recovery are noted: the present one for a node that was cut off before and is not so any more, and none
/// but that is new.
pub proof fn law_recovery_noted(net: NetworkView, previously_cut: Set<u32>, i: int)
    requires
        net.ids().no_duplicates(),
        0 <= i < net.nodes.len(),
    ensures
        ({
            let id = net.nodes[i].id;
            let after = net.marked(previously_cut);
            let back = previously_cut.contains(id) && net.nodes[i].state.mode != Mode::Isolated
                && !net.partitioned_nodes.contains(id);
            &&& after == NetworkView { recovered_at_tick: after.recovered_at_tick, ..net }
            &&& back ==> after.recovered_at_tick.contains_key(id) && after.recovered_at_tick[id] == net.tick
            &&& !back ==> after.recovered_at_tick.contains_key(id) == net.recovered_at_tick.contains_key(id)
                && after.recovered_at_tick[id] == net.recovered_at_tick[id]
        }),
{
    lemma_recoveries(net, previously_cut, net.nodes.len(), i);
}

proof fn lemma_recoveries(net: NetworkView, previously_cut: Set<u32>, n: nat, i: int)
    requires
        net.ids().no_duplicates(),
        0 <= i < net.nodes.len(),
        n <= net.nodes.len(),
    ensures
        ({
            let id = net.nodes[i].id;
            let after = net.recoveries(previously_cut, n);
            let back = i < n && previously_cut.contains(id) && !net.cut(i);
            &&& back ==> after.contains_key(id) && after[id] == net.tick
            &&& !back ==> after.contains_key(id) == net.recovered_at_tick.contains_key(id) && after[id]
                == net.recovered_at_tick[id]
        }),
    decreases n,
{
    if n > 0 {
        lemma_recoveries(net, previously_cut, (n - 1) as nat, i);
        if i != n - 1 {
            assert(net.ids()[i] != net.ids()[n - 1]);
            assert(net.nodes[i].id != net.nodes[n - 1].id);
        }
    }
}

/// The node at the one position asks that at the other for a bridge.
pub open spec fn asks(net: NetworkView, a: int, b: int) -> bool {
    &&& 0 <= a < net.nodes.len()
    &&& 0 <= b < net.nodes.len()
    &&& !net.partitioned_nodes.contains(net.nodes[a].id)
    &&& !gone(net, a)
    &&& exists|fallen: u32| #[trigger]
        net.nodes[a].bridges_to_ask(net.tick, net.excluded(net.nodes.len())).contains((net.nodes[b].id, fallen))
}

/// The node at the one position asks that at the other for a bridge and is granted it.
pub open spec fn agree(net: NetworkView, a: int, b: int) -> bool {
    asks(net, a, b) && net.nodes[b].accepts_bridge(
        net.nodes[a].signal(Some(net.nodes[b].id), SignalType::VirtualBridgeRequest, net.tick),
    )
}

/// Nothing of the nodes differs but their attempts at bridges.
pub open spec fn only_attempts(a: NetworkView, b: NetworkView) -> bool {
    &&& b == NetworkView { nodes: b.nodes, ..a }
    &&& a.nodes.len() == b.nodes.len()
    &&& a.ids() == b.ids()
    &&& forall|i: int|
        0 <= i < a.nodes.len() ==> #[trigger] b.nodes[i] == (NodeView {
            virtual_bridge_attempts: b.nodes[i].virtual_bridge_attempts,
            ..a.nodes[i]
        })
}

/// The signal is the answer of the one that was asked.
spec fn replies_to(net: NetworkView, request: SignalView, response: SignalView) -> bool {
    match net.addressee(request) {
        Some(j) => response == net.nodes[j as int].answer(request, net.tick),
        None => false,
    }
}

proof fn lemma_bridges_asked(w: World, start: NetworkView, sender: usize, requests: Seq<SignalView>, recorded_at: u64, n: nat)
    requires
        n <= requests.len(),
        only_attempts(start, w.net),
        start.nodes.len() <= u32::MAX,
    ensures
        ({
            let (after, answers) = w.bridges_asked(sender, requests, recorded_at, n);
            &&& only_attempts(start, after.net)
            &&& forall|k: int|
                0 <= k < answers.len() ==> (#[trigger] answers[k]).0 == sender && exists|m: int|
                    0 <= m < n && replies_to(start, #[trigger] requests[m], answers[k].1)
            &&& forall|m: int, r: SignalView|
                0 <= m < n && #[trigger] replies_to(start, #[trigger] requests[m], r) ==> answers.contains((sender, r))
        }),
    decreases n,
{
    if n > 0 {
        let m = (n - 1) as nat;
        lemma_bridges_asked(w, start, sender, requests, recorded_at, m);
        let (before, past) = w.bridges_asked(sender, requests, recorded_at, m);
        let (after, answers) = w.bridges_asked(sender, requests, recorded_at, n);
        let request = requests[n - 1];
        match w.net.addressee(request) {
            Some(j) => {
                lemma_position_exists(start.ids(), request.target_id->0);
                assert(w.net.ids() == start.ids());
                let node = before.net.nodes[j as int];
                assert(node == NodeView { virtual_bridge_attempts: node.virtual_bridge_attempts, ..start.nodes[j as int] });
                assert(node.answer(request, w.net.tick) == start.nodes[j as int].answer(request, start.tick));
                assert(after.net.ids() =~= start.ids());
                assert forall|i: int| 0 <= i < start.nodes.len() implies #[trigger] after.net.nodes[i] == (NodeView {
                    virtual_bridge_attempts: after.net.nodes[i].virtual_bridge_attempts,
                    ..start.nodes[i]
                }) by {
                    assert(before.net.nodes[i] == (NodeView {
                        virtual_bridge_attempts: before.net.nodes[i].virtual_bridge_attempts,
                        ..start.nodes[i]
                    }));
                }
            },
            None => {},
        }
        assert forall|k: int| 0 <= k < answers.len() implies (#[trigger] answers[k]).0 == sender && exists|m: int|
            0 <= m < n && replies_to(start, #[trigger] requests[m], answers[k].1) by {
            if k < past.len() {
                assert(answers[k] == past[k]);
                let m = choose|m: int| 0 <= m < n - 1 && replies_to(start, #[trigger] requests[m], past[k].1);
                assert(replies_to(start, requests[m], answers[k].1));
            } else {
                assert(replies_to(start, requests[n - 1], answers[k].1));
            }
        }
        assert forall|m: int, r: SignalView| 0 <= m < n && #[trigger] replies_to(start, #[trigger] requests[m], r) implies answers.contains(
            (sender, r),
        ) by {
            if m < n - 1 {
                assert(past.contains((sender, r)));
                assert(answers[past.index_of((sender, r))] == (sender, r));
            } else {
                assert(answers[answers.len() - 1] == (sender, r));
            }
        }
    }
}

/// The answer is one to a request of the node at that position.
spec fn answer_for(net: NetworkView, requests: Seq<Seq<SignalView>>, a: int, r: SignalView) -> bool {
    exists|m: int| 0 <= m < requests[a].len() && replies_to(net, #[trigger] requests[a][m], r)
}

proof fn lemma_all_bridges_asked(w: World, start: NetworkView, requests: Seq<Seq<SignalView>>, recorded_at: u64, n: nat)
    requires
        n <= requests.len(),
        n <= u32::MAX,
        only_attempts(start, w.net),
        start.nodes.len() <= u32::MAX,
    ensures
        ({
            let (after, answers) = w.all_bridges_asked(requests, recorded_at, n);
            &&& only_attempts(start, after.net)
            &&& forall|k: int|
                0 <= k < answers.len() ==> (#[trigger] answers[k]).0 < n && answer_for(
                    start,
                    requests,
                    answers[k].0 as int,
                    answers[k].1,
                )
            &&& forall|a: int, r: SignalView|
                0 <= a < n && #[trigger] answer_for(start, requests, a, r) ==> answers.contains((a as usize, r))
        }),
    decreases n,
{
    if n > 0 {
        let m = (n - 1) as nat;
        lemma_all_bridges_asked(w, start, requests, recorded_at, m);
        let (before, past) = w.all_bridges_asked(requests, recorded_at, m);
        let own = requests[n - 1];
        lemma_bridges_asked(before, start, m as usize, own, recorded_at, own.len());
        let more = before.bridges_asked(m as usize, own, recorded_at, own.len()).1;
        let answers = past + more;
        assert forall|k: int| 0 <= k < answers.len() implies (#[trigger] answers[k]).0 < n && answer_for(
            start,
            requests,
            answers[k].0 as int,
            answers[k].1,
        ) by {
            if k < past.len() {
                assert(answers[k] == past[k]);
            } else {
                assert(answers[k] == more[k - past.len()]);
                let j = choose|j: int| 0 <= j < own.len() && replies_to(start, #[trigger] own[j], more[k - past.len()].1);
                assert(replies_to(start, requests[m as int][j], answers[k].1));
            }
        }
        assert forall|a: int, r: SignalView| 0 <= a < n && #[trigger] answer_for(start, requests, a, r) implies answers.contains(
            (a as usize, r),
        ) by {
            if a < m {
                assert(past.contains((a as usize, r)));
                assert(answers[past.index_of((a as usize, r))] == (a as usize, r));
            } else {
                let j = choose|j: int| 0 <= j < requests[a].len() && replies_to(start, #[trigger] requests[a][j], r);
                assert(replies_to(start, own[j], r));
                assert(more.contains((a as usize, r)));
                assert(answers[past.len() + more.index_of((a as usize, r))] == (a as usize, r));
            }
        }
    }
}

/// One of the first `n` answers grants a bridge to the pair.
spec fn grants(net: NetworkView, answers: Answers, n: nat, p: (u32, u32)) -> bool {
    exists|k: int|
        0 <= k < n && (#[trigger] answers[k]).1.signal_type == SignalType::VirtualBridgeAck && p == normalized(
            net.nodes[answers[k].0 as int].id,
            answers[k].1.source_id,
        )
}

proof fn lemma_bridges_answered(w: World, start: NetworkView, answers: Answers, n: nat, p: (u32, u32))
    requires
        n <= answers.len(),
        only_attempts(start, w.net),
        forall|k: int| 0 <= k < answers.len() ==> (#[trigger] answers[k]).0 < start.nodes.len(),
    ensures
        only_attempts(start, w.bridges_answered(answers, n).0.net),
        w.bridges_answered(answers, n).1.contains(p) <==> grants(start, answers, n, p),
    decreases n,
{
    if n > 0 {
        let m = (n - 1) as nat;
        lemma_bridges_answered(w, start, answers, m, p);
        let (before, past) = w.bridges_answered(answers, m);
        let (after, pairs) = w.bridges_answered(answers, n);
        let (i, response) = answers[n - 1];
        assert(i < start.nodes.len());
        assert(after.net.ids() =~= start.ids()) by {
            assert(before.net.nodes[i as int].id == start.nodes[i as int].id);
        }
        assert forall|k: int| 0 <= k < start.nodes.len() implies #[trigger] after.net.nodes[k] == (NodeView {
            virtual_bridge_attempts: after.net.nodes[k].virtual_bridge_attempts,
            ..start.nodes[k]
        }) by {
            assert(before.net.nodes[k] == (NodeView {
                virtual_bridge_attempts: before.net.nodes[k].virtual_bridge_attempts,
                ..start.nodes[k]
            }));
        }
        let q = normalized(start.nodes[i as int].id, response.source_id);
        assert(before.net.nodes[i as int].id == start.nodes[i as int].id);
        if past.contains(p) && !past.contains(q) {
            assert(past.push(q)[past.index_of(p)] == p);
        }
        if pairs.contains(p) {
            let k = pairs.index_of(p);
            if k < past.len() {
                assert(past[k] == p);
            } else {
                assert(p == q);
                assert(answers[n - 1].1.signal_type == SignalType::VirtualBridgeAck);
            }
        }
        if grants(start, answers, m, p) {
            let k = choose|k: int|
                0 <= k < m && (#[trigger] answers[k]).1.signal_type == SignalType::VirtualBridgeAck && p == normalized(
                    start.nodes[answers[k].0 as int].id,
                    answers[k].1.source_id,
                );
            assert(answers[k].1.signal_type == SignalType::VirtualBridgeAck);
        }
        if grants(start, answers, n, p) {
            let k = choose|k: int|
                0 <= k < n && (#[trigger] answers[k]).1.signal_type == SignalType::VirtualBridgeAck && p == normalized(
                    start.nodes[answers[k].0 as int].id,
                    answers[k].1.source_id,
                );
            if k < m {
                assert(grants(start, answers, m, p));
            } else {
                assert(p == q);
                if !past.contains(q) {
                    assert(past.push(q)[past.len() as int] == p);
                }
            }
        }
    }
}

proof fn lemma_bridge_links(pairs: Seq<(u32, u32)>, ids: Seq<u32>, n: nat, l: Link)
    requires
        n <= pairs.len(),
    ensures
        bridge_links(pairs, ids, n).contains(l) <==> l.active && l.virtual_link && exists|k: int|
            0 <= k < n && joins_pair(#[trigger] pairs[k], ids, l),
    decreases n,
{
    if n > 0 {
        let m = (n - 1) as nat;
        lemma_bridge_links(pairs, ids, m, l);
        let past = bridge_links(pairs, ids, m);
        let all = bridge_links(pairs, ids, n);
        if past.contains(l) {
            assert(all[past.index_of(l)] == l);
            let k = choose|k: int| 0 <= k < m && joins_pair(#[trigger] pairs[k], ids, l);
            assert(joins_pair(pairs[k], ids, l));
        }
        if all.contains(l) {
            let i = all.index_of(l);
            if i < past.len() {
                assert(past[i] == l);
            } else {
                assert(joins_pair(pairs[n - 1], ids, l));
            }
        }
        if l.active && l.virtual_link && exists|k: int| 0 <= k < n && joins_pair(#[trigger] pairs[k], ids, l) {
            let k = choose|k: int| 0 <= k < n && joins_pair(#[trigger] pairs[k], ids, l);
            if k < m {
                assert(past.contains(l));
            } else {
                assert(all[all.len() - 1] == l || all[all.len() - 2] == l);
            }
        }
    }
}

/// The link joins the nodes of the pair, one way or the other.
spec fn joins_pair(p: (u32, u32), ids: Seq<u32>, l: Link) -> bool {
    (position(ids, p.0) == Some(l.from) && position(ids, p.1) == Some(l.to)) || (position(ids, p.0) == Some(l.to) && position(
        ids,
        p.1,
    ) == Some(l.from))
}

proof fn lemma_forgotten(net: NetworkView, pairs: Seq<(u32, u32)>, n: nat)
    ensures
        net.all_forgotten(pairs, n).links == net.links,
    decreases n,
{
    if n > 0 {
        lemma_forgotten(net, pairs, (n - 1) as nat);
    }
}

/// A node's request to another is there exactly where it asks it.
proof fn lemma_asks(net: NetworkView, a: int, b: int)
    requires
        0 <= a < net.nodes.len() <= u32::MAX,
        0 <= b < net.nodes.len(),
        net.ids().no_duplicates(),
    ensures
        asks(net, a, b) <==> net.requests_from(a).contains(
            net.nodes[a].signal(Some(net.nodes[b].id), SignalType::VirtualBridgeRequest, net.tick),
        ),
{
    let n = net.nodes.len();
    let id = net.nodes[a].id;
    law_left_out(net, n, id);
    if exists|i: int| 0 <= i < n && (#[trigger] net.nodes[i]).id == id && gone(net, i) {
        let i = choose|i: int| 0 <= i < n && (#[trigger] net.nodes[i]).id == id && gone(net, i);
        assert(net.ids()[i] == net.ids()[a]);
    }
    assert(net.mute(n).contains(id) <==> net.partitioned_nodes.contains(id) || gone(net, a));
    let asked = net.nodes[a].bridges_to_ask(net.tick, net.excluded(n));
    let sent = net.nodes[a].bridge_requests(net.tick, net.excluded(n));
    let s = net.nodes[a].signal(Some(net.nodes[b].id), SignalType::VirtualBridgeRequest, net.tick);
    if sent.contains(s) {
        let k = sent.index_of(s);
        assert(asked[k].0 == net.nodes[b].id);
        assert(asked.contains((net.nodes[b].id, asked[k].1)));
    }
    if exists|fallen: u32| #[trigger] asked.contains((net.nodes[b].id, fallen)) {
        let fallen = choose|fallen: u32| #[trigger] asked.contains((net.nodes[b].id, fallen));
        let k = asked.index_of((net.nodes[b].id, fallen));
        assert(sent[k] == s);
    }
}

/// Requests are addressed, and come from their sender.
proof fn lemma_request(net: NetworkView, a: int, m: int)
    requires
        0 <= a < net.nodes.len(),
        0 <= m < net.requests_from(a).len(),
    ensures
        net.requests_from(a)[m].target_id is Some,
        net.requests_from(a)[m] == net.nodes[a].signal(
            net.requests_from(a)[m].target_id,
            SignalType::VirtualBridgeRequest,
            net.tick,
        ),
{
}

/// In a tick of building bridges exactly those links are added that join, one way or the other, two nodes of which one has
/// asked the other for a bridge and was granted it; they are active and virtual. All links that were there stay.
pub proof fn law_bridges_built(w: World, recorded_at: u64, l: Link)
    requires
        w.net.wired(),
        w.net.ids().no_duplicates(),
    ensures
        ({
            let after = w.healed(recorded_at).net.links;
            let old = w.net.links;
            &&& after.len() >= old.len()
            &&& after.take(old.len() as int) == old
            &&& after.skip(old.len() as int).contains(l) <==> l.active && l.virtual_link && (agree(
                w.net,
                l.from as int,
                l.to as int,
            ) || agree(w.net, l.to as int, l.from as int))
        }),
{
    let net = w.net;
    let n = net.nodes.len();
    let requests = net.all_requests();
    let asking = World { net: net.all_asking(), ..w };
    let (asked, answers) = asking.all_bridges_asked(requests, recorded_at, requests.len());
    let (answered, pairs) = asked.bridges_answered(answers, answers.len());
    let more = bridge_links(pairs, net.ids(), pairs.len());
    assert(asking.net.ids() =~= net.ids());
    assert(only_attempts(net, asking.net));
    lemma_all_bridges_asked(asking, net, requests, recorded_at, n);
    lemma_bridges_answered(asked, net, answers, answers.len(), (0, 0));
    let bridged = answered.net.with_links(answered.net.links + more);
    lemma_forgotten(bridged, pairs, pairs.len());
    let after = w.healed(recorded_at).net.links;
    assert(after == net.links + more);
    assert(after.take(net.links.len() as int) =~= net.links);
    assert(after.skip(net.links.len() as int) =~= more);
    lemma_bridge_links(pairs, net.ids(), pairs.len(), l);
    if more.contains(l) {
        let k = choose|k: int| 0 <= k < pairs.len() && joins_pair(#[trigger] pairs[k], net.ids(), l);
        let p = pairs[k];
        assert(pairs.contains(p));
        lemma_bridges_answered(asked, net, answers, answers.len(), p);
        let j = choose|j: int|
            0 <= j < answers.len() && (#[trigger] answers[j]).1.signal_type == SignalType::VirtualBridgeAck && p
                == normalized(net.nodes[answers[j].0 as int].id, answers[j].1.source_id);
        let a = answers[j].0 as int;
        lemma_granted(net, requests, a, answers[j].1);
        let b = choose|b: int| #[trigger] agree(net, a, b) && answers[j].1.source_id == net.nodes[b].id;
        lemma_own_position(net, a);
        lemma_own_position(net, b);
        assert((l.from == a && l.to == b) || (l.from == b && l.to == a));
    }
    if l.active && l.virtual_link && agree(net, l.from as int, l.to as int) {
        lemma_agreed(asked, net, requests, answers, l.from as int, l.to as int);
        lemma_agreed_pair(net, pairs, l.from as int, l.to as int, l);
    }
    if l.active && l.virtual_link && agree(net, l.to as int, l.from as int) {
        lemma_agreed(asked, net, requests, answers, l.to as int, l.from as int);
        lemma_agreed_pair(net, pairs, l.to as int, l.from as int, l);
    }
}

/// An acknowledgement means that the two agree.
proof fn lemma_granted(net: NetworkView, requests: Seq<Seq<SignalView>>, a: int, r: SignalView)
    requires
        0 <= a < net.nodes.len() <= u32::MAX,
        net.ids().no_duplicates(),
        requests == net.all_requests(),
        answer_for(net, requests, a, r),
        r.signal_type == SignalType::VirtualBridgeAck,
    ensures
        exists|b: int| #[trigger] agree(net, a, b) && r.source_id == net.nodes[b].id,
{
    let m = choose|m: int| 0 <= m < requests[a].len() && replies_to(net, #[trigger] requests[a][m], r);
    let request = requests[a][m];
    lemma_request(net, a, m);
    lemma_position_exists(net.ids(), request.target_id->0);
    let b = net.addressee(request)->0 as int;
    assert(net.ids()[b] == request.target_id->0);
    assert(net.requests_from(a).contains(request));
    lemma_asks(net, a, b);
    assert(agree(net, a, b));
}

/// Where two agree, the bridge is granted.
proof fn lemma_agreed(asked: World, net: NetworkView, requests: Seq<Seq<SignalView>>, answers: Answers, a: int, b: int)
    requires
        net.nodes.len() <= u32::MAX,
        net.ids().no_duplicates(),
        requests == net.all_requests(),
        agree(net, a, b),
        only_attempts(net, asked.net),
        forall|k: int| 0 <= k < answers.len() ==> (#[trigger] answers[k]).0 < net.nodes.len(),
        forall|a: int, r: SignalView|
            0 <= a < net.nodes.len() && #[trigger] answer_for(net, requests, a, r) ==> answers.contains((a as usize, r)),
    ensures
        asked.bridges_answered(answers, answers.len()).1.contains(normalized(net.nodes[a].id, net.nodes[b].id)),
{
    let request = net.nodes[a].signal(Some(net.nodes[b].id), SignalType::VirtualBridgeRequest, net.tick);
    lemma_asks(net, a, b);
    lemma_own_position(net, b);
    let m = net.requests_from(a).index_of(request);
    let r = net.nodes[b].answer(request, net.tick);
    assert(requests[a][m] == request);
    assert(replies_to(net, requests[a][m], r));
    assert(answer_for(net, requests, a, r));
    let k = answers.index_of((a as usize, r));
    let p = normalized(net.nodes[a].id, net.nodes[b].id);
    assert(answers[k].1.signal_type == SignalType::VirtualBridgeAck);
    assert(grants(net, answers, answers.len(), p));
    lemma_bridges_answered(asked, net, answers, answers.len(), p);
}

proof fn lemma_agreed_pair(net: NetworkView, pairs: Seq<(u32, u32)>, a: int, b: int, l: Link)
    requires
        0 <= a < net.nodes.len() <= u32::MAX,
        0 <= b < net.nodes.len(),
        net.ids().no_duplicates(),
        pairs.contains(normalized(net.nodes[a].id, net.nodes[b].id)),
        (l.from == a && l.to == b) || (l.from == b && l.to == a),
    ensures
        exists|k: int| 0 <= k < pairs.len() && joins_pair(#[trigger] pairs[k], net.ids(), l),
{
    lemma_own_position(net, a);
    lemma_own_position(net, b);
    let k = pairs.index_of(normalized(net.nodes[a].id, net.nodes[b].id));
    assert(joins_pair(pairs[k], net.ids(), l));
}

/// Building bridges changes nothing but the links and the nodes' attempts at bridges.
pub(crate) proof fn lemma_healed_keeps(w: World, recorded_at: u64)
    requires
        w.net.wired(),
    ensures
        ({
            let after = w.healed(recorded_at).net;
            only_attempts(w.net, after.with_links(w.net.links))
        }),
{
    let net = w.net;
    let requests = net.all_requests();
    let asking = World { net: net.all_asking(), ..w };
    let (asked, answers) = asking.all_bridges_asked(requests, recorded_at, requests.len());
    let (answered, pairs) = asked.bridges_answered(answers, answers.len());
    assert(asking.net.ids() =~= net.ids());
    assert(only_attempts(net, asking.net));
    lemma_all_bridges_asked(asking, net, requests, recorded_at, net.nodes.len());
    lemma_bridges_answered(asked, net, answers, answers.len(), (0, 0));
    let more = bridge_links(pairs, net.ids(), pairs.len());
    let bridged = answered.net.with_links(answered.net.links + more);
    assert(only_attempts(bridged, bridged));
    lemma_all_forgotten(bridged, pairs, pairs.len());
    let after = w.healed(recorded_at).net;
    assert forall|i: int| 0 <= i < net.nodes.len() implies #[trigger] after.with_links(net.links).nodes[i] == (NodeView {
        virtual_bridge_attempts: after.nodes[i].virtual_bridge_attempts,
        ..net.nodes[i]
    }) by {
        assert(after.nodes[i] == (NodeView {
            virtual_bridge_attempts: after.nodes[i].virtual_bridge_attempts,
            ..bridged.nodes[i]
        }));
        assert(answered.net.nodes[i] == (NodeView {
            virtual_bridge_attempts: answered.net.nodes[i].virtual_bridge_attempts,
            ..net.nodes[i]
        }));
    }
    assert(after.with_links(net.links).ids() == after.ids());
}

proof fn lemma_all_forgotten(net: NetworkView, pairs: Seq<(u32, u32)>, n: nat)
    requires
        net.nodes.len() <= u32::MAX,
    ensures
        only_attempts(net, net.all_forgotten(pairs, n)),
    decreases n,
{
    if n > 0 {
        let m = (n - 1) as nat;
        lemma_all_forgotten(net, pairs, m);
        let before = net.all_forgotten(pairs, m);
        let (a, b) = pairs[n - 1];
        lemma_position_exists(net.ids(), a);
        lemma_position_exists(net.ids(), b);
        let mid = before.forgotten(position(net.ids(), a), b);
        lemma_one_forgotten(net, before, position(net.ids(), a), b);
        lemma_one_forgotten(net, mid, position(net.ids(), b), a);
    }
}

proof fn lemma_one_forgotten(start: NetworkView, net: NetworkView, at: Option<usize>, id: u32)
    requires
        only_attempts(start, net),
        at matches Some(i) ==> i < start.nodes.len(),
    ensures
        only_attempts(start, net.forgotten(at, id)),
{
    let after = net.forgotten(at, id);
    assert(after.ids() =~= start.ids()) by {
        assert forall|k: int| 0 <= k < start.nodes.len() implies after.ids()[k] == start.ids()[k] by {
            assert(net.ids()[k] == start.ids()[k]);
        }
    }
    assert forall|k: int| 0 <= k < start.nodes.len() implies #[trigger] after.nodes[k] == (NodeView {
        virtual_bridge_attempts: after.nodes[k].virtual_bridge_attempts,
        ..start.nodes[k]
    }) by {
        assert(net.nodes[k] == (NodeView {
            virtual_bridge_attempts: net.nodes[k].virtual_bridge_attempts,
            ..start.nodes[k]
        }));
    }
}

/// A node that has asked another for a bridge keeps it in mind, and does not ask it again until it has forgotten it. It
/// forgets it when the other refuses; when the other agrees it is kept in mind until the bridge is built.
pub proof fn law_asked_once(
    node: NodeView,
    tick: u64,
    excluded: Set<u32>,
    candidate: u32,
    fallen: u32,
    later: u64,
    left_out: Set<u32>,
    other: u32,
)
    requires
        node.bridges_to_ask(tick, excluded).contains((candidate, fallen)),
    ensures
        ({
            let after = node.asking(tick, excluded);
            &&& after == NodeView { virtual_bridge_attempts: after.virtual_bridge_attempts, ..node }
            &&& after.virtual_bridge_attempts.contains_key(candidate)
            &&& after.virtual_bridge_attempts[candidate].initiated_by_us
            &&& after.virtual_bridge_attempts[candidate].started_at_tick == tick
            &&& !after.bridges_to_ask(later, left_out).contains((candidate, other))
        }),
{
    let asked = node.bridges_to_ask(tick, excluded);
    let k = asked.index_of((candidate, fallen));
    lemma_attempted(node.virtual_bridge_attempts, asked, tick, asked.len(), k, candidate);
    law_bridges_asked_for(node.asking(tick, excluded), later, left_out, candidate, other);
}

proof fn lemma_attempted(
    attempts: Map<u32, VirtualBridgeAttempt>,
    asked: Seq<(u32, u32)>,
    tick: u64,
    n: nat,
    k: int,
    candidate: u32,
)
    requires
        0 <= k < n <= asked.len(),
        asked[k].0 == candidate,
    ensures
        attempted(attempts, asked, tick, n).contains_key(candidate),
        attempted(attempts, asked, tick, n)[candidate].initiated_by_us,
        attempted(attempts, asked, tick, n)[candidate].started_at_tick == tick,
    decreases n,
{
    if k < n - 1 {
        lemma_attempted(attempts, asked, tick, (n - 1) as nat, k, candidate);
    }
}

/// What is said to a request for a bridge, and what the asking node makes of it: it forgets its attempt exactly where it was
/// refused. The asked node keeps in mind whom it has agreed with, as an attempt of the other's.
pub proof fn law_bridge_answered(node: NodeView, asker: NodeView, request: SignalView, tick: u64)
    requires
        request.source_id == asker.id,
    ensures
        ({
            let answer = node.answer(request, tick);
            let after = node.asked(request, tick);
            let told = asker.answered(answer);
            &&& answer.source_id == node.id
            &&& answer.target_id == Some(asker.id)
            &&& answer.timestamp == tick
            &&& answer.signal_type == if node.accepts_bridge(request) {
                SignalType::VirtualBridgeAck
            } else {
                SignalType::VirtualBridgeReject
            }
            &&& node.accepts_bridge(request) ==> told == asker && after.virtual_bridge_attempts.contains_key(asker.id)
                && !after.virtual_bridge_attempts[asker.id].initiated_by_us
            &&& !node.accepts_bridge(request) ==> after == node && !told.virtual_bridge_attempts.contains_key(node.id)
        }),
{
}

} // verus!
