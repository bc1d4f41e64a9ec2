//! Who is let back into the network, and by whom.

use vstd::prelude::*;

use crate::lists::lemma_filtered;
use crate::network::ballots::lemma_own_position;
use crate::network::reconnect::Acks;
use crate::network::world::World;
use crate::network::NetworkView;
use crate::node::bridges::lemma_position_exists;
use crate::node::reconnect::lemma_reconnected_keeps;
use crate::node::{Mode, NodeView, ReconnectView, SignalType, SignalView, StateView};
use crate::scenarios::targets::lemma_filter_distinct;
use crate::single::{Single, ONE};
use crate::verdicts::law_mode_changes_allowed;

verus! {

/// A node lets another back in exactly where it is itself at work with its model, and the other does not name malware, has
/// no more failed logins than are allowed and has a score below the limit.
pub proof fn law_lets_in(node: NodeView, request: SignalView)
    ensures
        node.lets_in(request) <==> (node.state.mode == Mode::Normal || node.state.mode == Mode::Throttled
            || node.state.mode == Mode::Boosted) && request.ai_state_reason != "malware_detected"@
            && request.failed_auth_count <= node.config.security.max_failed_auth && request.threat_score.below(
            node.config.security.threat_score_isolation,
        ),
{
}

/// How many neighbours a node counts: those that it last announced, or else those that it knows.
pub open spec fn neighbors_counted(node: NodeView) -> nat {
    if node.topology_map.snapshots.contains_key(node.id) {
        node.topology_map.snapshots[node.id].neighbors.len()
    } else {
        node.neighbor_ids.len()
    }
}

/// A node has enough neighbours that let it in exactly where there is one at least, and they are two thirds of all.
pub proof fn law_quorum(node: NodeView)
    ensures
        node.has_quorum() <==> node.reconnect is Some && node.reconnect->0.confirmed_by.len() >= 1 && 3
            * node.reconnect->0.confirmed_by.len() >= 2 * neighbors_counted(node),
{
}

/// A node on its way back asks each of the other nodes that it last announced as its neighbours, once for each time it
/// has announced it, and no one else; a node that is not on its way back asks nobody.
pub proof fn law_asks_its_neighbors(node: NodeView, tick: u64, id: u32)
    ensures
        ({
            let asked = node.reconnect_requests(tick);
            let announced = node.topology_map.snapshots[node.id].neighbors;
            &&& (exists|k: int| 0 <= k < asked.len() && (#[trigger] asked[k]).target_id == Some(id)) <==> node.state.mode
                == Mode::Reconnecting && node.topology_map.snapshots.contains_key(node.id) && announced.contains(id) && id
                != node.id
            &&& forall|k: int|
                0 <= k < asked.len() ==> (#[trigger] asked[k]).source_id == node.id && asked[k].signal_type
                    == SignalType::ReconnectRequest && asked[k].timestamp == tick && asked[k].failed_auth_count
                    == node.state.failed_auth_count && asked[k].threat_score == node.state.last_threat_score
                    && asked[k].ai_state_reason == node.state.ai_state_reason
        }),
{
    let asked = node.reconnect_requests(tick);
    let known = node.known_neighbors();
    let keep = |id: u32| id != node.id;
    if node.topology_map.snapshots.contains_key(node.id) {
        lemma_filtered(node.topology_map.snapshots[node.id].neighbors, keep, id);
    }
    if exists|k: int| 0 <= k < asked.len() && (#[trigger] asked[k]).target_id == Some(id) {
        let k = choose|k: int| 0 <= k < asked.len() && (#[trigger] asked[k]).target_id == Some(id);
        assert(known[k] == id);
        assert(known.contains(id));
    }
    if node.state.mode == Mode::Reconnecting && known.contains(id) {
        let k = known.index_of(id);
        assert(asked[k].target_id == Some(id));
    }
}

/// The node at the one position is asked by that at the other, and lets it in.
pub open spec fn welcomes(net: NetworkView, j: int, i: int) -> bool {
    &&& 0 <= j < net.nodes.len()
    &&& net.nodes[i].state.mode == Mode::Reconnecting
    &&& net.nodes[i].topology_map.snapshots.contains_key(net.nodes[i].id)
    &&& net.nodes[i].topology_map.snapshots[net.nodes[i].id].neighbors.contains(net.nodes[j].id)
    &&& net.nodes[j].id != net.nodes[i].id
    &&& net.nodes[j].lets_in(
        net.nodes[i].signal(Some(net.nodes[j].id), SignalType::ReconnectRequest, net.tick),
    )
}

/// The answer of a node that lets the other in.
spec fn ack_of(net: NetworkView, j: int, i: int) -> SignalView {
    net.nodes[j].signal(Some(net.nodes[i].id), SignalType::ReconnectAck, net.tick)
}

proof fn lemma_requested(w: World, i: usize, requests: Seq<SignalView>, recorded_at: u64, n: nat)
    requires
        n <= requests.len(),
    ensures
        ({
            let (after, acks) = w.requested(i, requests, recorded_at, n);
            &&& after.net == w.net
            &&& forall|k: int|
                0 <= k < acks.len() ==> (#[trigger] acks[k]).0 == i && exists|m: int|
                    0 <= m < n && answers_to(w.net, #[trigger] requests[m], acks[k].1)
            &&& forall|m: int|
                0 <= m < n ==> (w.net.addressee(#[trigger] requests[m]) matches Some(j) ==> w.net.nodes[j as int].lets_in(
                    requests[m],
                ) ==> acks.contains(
                    (
                        i,
                        w.net.nodes[j as int].signal(Some(requests[m].source_id), SignalType::ReconnectAck, w.net.tick),
                    ),
                ))
        }),
    decreases n,
{
    if n > 0 {
        let m = (n - 1) as nat;
        lemma_requested(w, i, requests, recorded_at, m);
        let (before, past) = w.requested(i, requests, recorded_at, m);
        let (after, acks) = w.requested(i, requests, recorded_at, n);
        assert forall|k: int| 0 <= k < acks.len() implies (#[trigger] acks[k]).0 == i && exists|m: int|
            0 <= m < n && answers_to(w.net, #[trigger] requests[m], acks[k].1) by {
            if k < past.len() {
                assert(acks[k] == past[k]);
                let m = choose|m: int| 0 <= m < n - 1 && answers_to(w.net, #[trigger] requests[m], past[k].1);
                assert(answers_to(w.net, requests[m], acks[k].1));
            } else {
                assert(answers_to(w.net, requests[n - 1], acks[k].1));
            }
        }
        assert forall|m: int| 0 <= m < n implies (w.net.addressee(#[trigger] requests[m]) matches Some(j) ==> w.net.nodes[j as int].lets_in(
            requests[m],
        ) ==> acks.contains(
            (i, w.net.nodes[j as int].signal(Some(requests[m].source_id), SignalType::ReconnectAck, w.net.tick)),
        )) by {
            match w.net.addressee(requests[m]) {
                Some(j) => {
                    if w.net.nodes[j as int].lets_in(requests[m]) {
                        let a = (
                            i,
                            w.net.nodes[j as int].signal(Some(requests[m].source_id), SignalType::ReconnectAck, w.net.tick),
                        );
                        if m < n - 1 {
                            assert(past.contains(a));
                            assert(acks[past.index_of(a)] == a);
                        } else {
                            assert(acks[acks.len() - 1] == a);
                        }
                    }
                },
                None => {},
            }
        }
    }
}

/// The signal is the answer of the one that was asked, who lets the sender in.
spec fn answers_to(net: NetworkView, request: SignalView, ack: SignalView) -> bool {
    match net.addressee(request) {
        Some(j) => net.nodes[j as int].lets_in(request) && ack == net.nodes[j as int].signal(
            Some(request.source_id),
            SignalType::ReconnectAck,
            net.tick,
        ),
        None => false,
    }
}

/// Every answer is one of a node that lets the asking one in.
spec fn true_acks(net: NetworkView, acks: Acks) -> bool {
    forall|k: int|
        0 <= k < acks.len() ==> (#[trigger] acks[k]).0 < net.nodes.len() && exists|j: int|
            #[trigger] welcomes(net, j, acks[k].0 as int) && acks[k].1 == ack_of(net, j, acks[k].0 as int)
}

proof fn lemma_acks_of(w: World, i: usize, recorded_at: u64)
    requires
        w.net.wired(),
        w.net.ids().no_duplicates(),
        i < w.net.nodes.len(),
    ensures
        ({
            let requests = w.net.nodes[i as int].reconnect_requests(w.net.tick);
            let (after, acks) = w.requested(i, requests, recorded_at, requests.len());
            &&& after.net == w.net
            &&& true_acks(w.net, acks)
            &&& forall|k: int| 0 <= k < acks.len() ==> (#[trigger] acks[k]).0 == i
            &&& forall|j: int| #[trigger] welcomes(w.net, j, i as int) ==> acks.contains((i, ack_of(w.net, j, i as int)))
        }),
{
    let net = w.net;
    let node = net.nodes[i as int];
    let requests = node.reconnect_requests(net.tick);
    let (after, acks) = w.requested(i, requests, recorded_at, requests.len());
    let known = node.known_neighbors();
    let keep = |id: u32| id != node.id;
    lemma_requested(w, i, requests, recorded_at, requests.len());
    assert forall|k: int| 0 <= k < acks.len() implies (#[trigger] acks[k]).0 < net.nodes.len() && exists|j: int|
        #[trigger] welcomes(net, j, acks[k].0 as int) && acks[k].1 == ack_of(net, j, acks[k].0 as int) by {
        let m = choose|m: int| 0 <= m < requests.len() && answers_to(net, #[trigger] requests[m], acks[k].1);
        let j = net.addressee(requests[m])->0;
        lemma_position_exists(net.ids(), known[m]);
        assert(known.contains(known[m]));
        lemma_filtered(node.topology_map.snapshots[node.id].neighbors, keep, known[m]);
        assert(net.ids()[j as int] == known[m]);
        assert(requests[m] == node.signal(Some(net.nodes[j as int].id), SignalType::ReconnectRequest, net.tick));
        assert(welcomes(net, j as int, i as int));
    }
    assert forall|j: int| #[trigger] welcomes(net, j, i as int) implies acks.contains((i, ack_of(net, j, i as int))) by {
        let id = net.nodes[j].id;
        lemma_filtered(node.topology_map.snapshots[node.id].neighbors, keep, id);
        let m = known.index_of(id);
        lemma_own_position(net, j);
        assert(requests[m] == node.signal(Some(id), SignalType::ReconnectRequest, net.tick));
        assert(net.addressee(requests[m]) == Some(j as usize));
    }
}

proof fn lemma_all_acks(w: World, requesters: Seq<usize>, recorded_at: u64, n: nat)
    requires
        w.net.wired(),
        w.net.ids().no_duplicates(),
        n <= requesters.len(),
        forall|k: int| 0 <= k < requesters.len() ==> (#[trigger] requesters[k]) < w.net.nodes.len(),
    ensures
        ({
            let (after, acks) = w.all_requested(requesters, recorded_at, n);
            &&& after.net == w.net
            &&& true_acks(w.net, acks)
            &&& forall|k: int, j: int|
                0 <= k < n && #[trigger] welcomes(w.net, j, #[trigger] requesters[k] as int) ==> acks.contains(
                    (requesters[k], ack_of(w.net, j, requesters[k] as int)),
                )
        }),
    decreases n,
{
    if n > 0 {
        let m = (n - 1) as nat;
        lemma_all_acks(w, requesters, recorded_at, m);
        let (before, past) = w.all_requested(requesters, recorded_at, m);
        let i = requesters[n - 1];
        assert(i < w.net.nodes.len());
        lemma_acks_of(before, i, recorded_at);
        let requests = w.net.nodes[i as int].reconnect_requests(w.net.tick);
        let more = before.requested(i, requests, recorded_at, requests.len()).1;
        let acks = past + more;
        assert forall|k: int| 0 <= k < acks.len() implies (#[trigger] acks[k]).0 < w.net.nodes.len() && exists|j: int|
            #[trigger] welcomes(w.net, j, acks[k].0 as int) && acks[k].1 == ack_of(w.net, j, acks[k].0 as int) by {
            if k < past.len() {
                assert(acks[k] == past[k]);
            } else {
                assert(acks[k] == more[k - past.len()]);
            }
        }
        assert forall|k: int, j: int| 0 <= k < n && #[trigger] welcomes(w.net, j, #[trigger] requesters[k] as int) implies acks.contains(
            (requesters[k], ack_of(w.net, j, requesters[k] as int)),
        ) by {
            let a = (requesters[k], ack_of(w.net, j, requesters[k] as int));
            if k < n - 1 {
                assert(past.contains(a));
                assert(acks[past.index_of(a)] == a);
            } else {
                assert(more.contains(a));
                assert(acks[past.len() + more.index_of(a)] == a);
            }
        }
    }
}

/// Nothing of a node but its handshake differs.
spec fn only_handshake(a: NodeView, b: NodeView) -> bool {
    b == NodeView { reconnect: b.reconnect, ..a }
}

/// One of the first `n` answers is for the node at the position.
spec fn answered_to(acks: Acks, n: nat, i: int) -> bool {
    exists|k: int| 0 <= k < n && (#[trigger] acks[k]).0 == i
}

proof fn lemma_acknowledged(w: World, acks: Acks, recorded_at: u64, n: nat, i: int)
    requires
        n <= acks.len(),
        forall|k: int| 0 <= k < acks.len() ==> (#[trigger] acks[k]).0 < w.net.nodes.len(),
        0 <= i < w.net.nodes.len() <= u32::MAX,
        w.net.nodes[i].reconnect matches Some(r) ==> r.confirmed_by.finite(),
    ensures
        ({
            let (after, completed) = w.acknowledged(acks, recorded_at, n);
            let old = w.net.nodes[i];
            let new = after.net.nodes[i];
            &&& after.net == NetworkView { nodes: after.net.nodes, ..w.net }
            &&& after.net.nodes.len() == w.net.nodes.len()
            &&& only_handshake(old, new)
            &&& old.reconnect is None ==> new.reconnect is None
            &&& old.reconnect matches Some(r) ==> {
                &&& new.reconnect matches Some(s) && s == ReconnectView { confirmed_by: s.confirmed_by, ..r }
                    && s.confirmed_by.finite() && r.confirmed_by.subset_of(s.confirmed_by)
                &&& forall|id: u32| #[trigger]
                    new.reconnect->0.confirmed_by.contains(id) <==> r.confirmed_by.contains(id) || exists|k: int|
                        0 <= k < n && (#[trigger] acks[k]).0 == i && acks[k].1.source_id == id
            }
            &&& forall|k: int| 0 <= k < completed.len() ==> (#[trigger] completed[k]) < w.net.nodes.len()
            &&& completed.contains(i as usize) <==> answered_to(acks, n, i) && new.has_quorum()
        }),
    decreases n,
{
    if n > 0 {
        let m = (n - 1) as nat;
        lemma_acknowledged(w, acks, recorded_at, m, i);
        let (before, past) = w.acknowledged(acks, recorded_at, m);
        let (after, completed) = w.acknowledged(acks, recorded_at, n);
        let (t, ack) = acks[n - 1];
        assert(t < w.net.nodes.len());
        let old = w.net.nodes[i];
        let mid = before.net.nodes[i];
        let new = after.net.nodes[i];
        if t == i {
            assert(answered_to(acks, n, i));
            match old.reconnect {
                Some(r) => {
                    let was = mid.reconnect->0.confirmed_by;
                    let now = new.reconnect->0.confirmed_by;
                    assert(now == was.insert(ack.source_id));
                    assert(was.len() <= now.len());
                    assert forall|id: u32| #[trigger] now.contains(id) <==> r.confirmed_by.contains(id) || exists|k: int|
                        0 <= k < n && (#[trigger] acks[k]).0 == i && acks[k].1.source_id == id by {
                        if id == ack.source_id {
                            assert(acks[n - 1].0 == i && acks[n - 1].1.source_id == id);
                        } else if was.contains(id) && !r.confirmed_by.contains(id) {
                            let k = choose|k: int| 0 <= k < m && (#[trigger] acks[k]).0 == i && acks[k].1.source_id == id;
                            assert(acks[k].0 == i);
                        }
                    }
                },
                None => {},
            }
            if new.has_quorum() {
                assert(completed[completed.len() - 1] == i as usize);
            }
            if completed.contains(i as usize) && !new.has_quorum() {
                assert(completed == past);
                assert(mid.has_quorum());
            }
        } else {
            assert(new == mid);
            if completed.contains(i as usize) {
                let k = completed.index_of(i as usize);
                assert(past[k] == i as usize);
            }
            if past.contains(i as usize) {
                assert(completed[past.index_of(i as usize)] == i as usize);
            }
            if answered_to(acks, n, i) {
                let k = choose|k: int| 0 <= k < n && (#[trigger] acks[k]).0 == i;
                assert(k < m);
                assert(answered_to(acks, m, i));
            }
            if answered_to(acks, m, i) {
                let k = choose|k: int| 0 <= k < m && (#[trigger] acks[k]).0 == i;
                assert(acks[k].0 == i);
            }
            match old.reconnect {
                Some(r) => {
                    assert forall|id: u32| #[trigger] new.reconnect->0.confirmed_by.contains(id) <==> r.confirmed_by.contains(
                        id,
                    ) || exists|k: int| 0 <= k < n && (#[trigger] acks[k]).0 == i && acks[k].1.source_id == id by {
                        if exists|k: int| 0 <= k < n && (#[trigger] acks[k]).0 == i && acks[k].1.source_id == id {
                            let k = choose|k: int| 0 <= k < n && (#[trigger] acks[k]).0 == i && acks[k].1.source_id == id;
                            assert(k < m);
                        }
                        if exists|k: int| 0 <= k < m && (#[trigger] acks[k]).0 == i && acks[k].1.source_id == id {
                            let k = choose|k: int| 0 <= k < m && (#[trigger] acks[k]).0 == i && acks[k].1.source_id == id;
                            assert(acks[k].0 == i);
                        }
                    }
                },
                None => {},
            }
        }
    }
}

/// What coming back makes of a node: it has its usual connections, is in step with the tick and no longer asks; it works
/// normally, with the finding of it, exactly where it was on its way back and is no threat. Else its mode and finding
/// stay.
pub proof fn law_coming_back(node: NodeView, tick: u64, recorded_at: u64)
    ensures
        ({
            let after = node.reconnected(tick, recorded_at);
            let sec = node.config.security;
            let threat = sec.threat_score_isolation.at_most(node.state.last_threat_score) || node.state.failed_auth_count
                > sec.max_failed_auth;
            let back = node.state.mode == Mode::Reconnecting && !threat;
            &&& after.reconnect is None
            &&& after.state == StateView {
                mode: if back { Mode::Normal } else { node.state.mode },
                ai_state_reason: if back { "network_partition_healing"@ } else { node.state.ai_state_reason },
                state_entered_tick: if back { tick } else { node.state.state_entered_tick },
                active_connections: node.config.node_defaults.active_connections,
                last_sync_time: tick,
                ..node.state
            }
        }),
{
    reveal(NodeView::reconnected);
}

proof fn lemma_all_welcomed(net: NetworkView, completed: Seq<usize>, recorded_at: u64, n: nat, i: int)
    requires
        n <= completed.len(),
        forall|k: int| 0 <= k < completed.len() ==> (#[trigger] completed[k]) < net.nodes.len(),
        0 <= i < net.nodes.len() <= u32::MAX,
    ensures
        ({
            let after = net.all_welcomed(completed, recorded_at, n);
            let old = net.nodes[i];
            let new = after.nodes[i];
            let sec = old.config.security;
            let threat = sec.threat_score_isolation.at_most(old.state.last_threat_score) || old.state.failed_auth_count
                > sec.max_failed_auth;
            &&& after == NetworkView { nodes: after.nodes, ..net }
            &&& after.nodes.len() == net.nodes.len()
            &&& new.config == old.config
            &&& new.state.last_threat_score == old.state.last_threat_score
            &&& new.state.failed_auth_count == old.state.failed_auth_count
            &&& !completed.take(n as int).contains(i as usize) ==> new == old
            &&& completed.take(n as int).contains(i as usize) ==> new.reconnect is None
            &&& completed.take(n as int).contains(i as usize) && old.state.mode == Mode::Reconnecting ==> new.state.mode
                == if threat { Mode::Reconnecting } else { Mode::Normal }
        }),
    decreases n,
{
    if n > 0 {
        let m = (n - 1) as nat;
        lemma_all_welcomed(net, completed, recorded_at, m, i);
        let before = net.all_welcomed(completed, recorded_at, m);
        let t = completed[n - 1];
        assert(t < net.nodes.len());
        let part = completed.take(m as int);
        let all = completed.take(n as int);
        assert(all =~= part.push(t));
        if part.contains(i as usize) {
            assert(all[part.index_of(i as usize)] == i as usize);
        }
        if all.contains(i as usize) && t != i {
            assert(part[all.index_of(i as usize)] == i as usize);
        }
        if t == i {
            assert(all[n - 1] == i as usize);
            law_coming_back(before.nodes[i], net.tick, recorded_at);
            lemma_reconnected_keeps(before.nodes[i], net.tick, recorded_at);
        }
    } else {
        assert(completed.take(0) =~= seq![]);
    }
}

proof fn lemma_others_turned_away(
    net: NetworkView,
    requesters: Seq<usize>,
    completed: Seq<usize>,
    recorded_at: u64,
    n: nat,
    i: int,
)
    requires
        n <= requesters.len(),
        requesters.no_duplicates(),
        forall|k: int| 0 <= k < requesters.len() ==> (#[trigger] requesters[k]) < net.nodes.len(),
        0 <= i < net.nodes.len() <= u32::MAX,
    ensures
        ({
            let after = net.others_turned_away(requesters, completed, recorded_at, n);
            &&& after == NetworkView { nodes: after.nodes, ..net }
            &&& after.nodes.len() == net.nodes.len()
            &&& after.nodes[i] == if requesters.take(n as int).contains(i as usize) && !completed.contains(i as usize) {
                net.nodes[i].turned_away(net.tick, recorded_at)
            } else {
                net.nodes[i]
            }
        }),
    decreases n,
{
    if n > 0 {
        let m = (n - 1) as nat;
        lemma_others_turned_away(net, requesters, completed, recorded_at, m, i);
        let t = requesters[n - 1];
        assert(t < net.nodes.len());
        let part = requesters.take(m as int);
        let all = requesters.take(n as int);
        assert(all =~= part.push(t));
        if part.contains(i as usize) {
            let k = part.index_of(i as usize);
            assert(requesters[k] == i as usize);
            assert(all[k] == i as usize);
        }
        if all.contains(i as usize) && t != i {
            assert(part[all.index_of(i as usize)] == i as usize);
        }
        if t == i {
            assert(all[n - 1] == i as usize);
        }
    } else {
        assert(requesters.take(0) =~= seq![]);
    }
}

/// The positions of the nodes on their way back are listed once each.
proof fn lemma_reconnecting(net: NetworkView, i: int)
    requires
        net.nodes.len() <= u32::MAX,
        0 <= i < net.nodes.len(),
    ensures
        net.reconnecting().no_duplicates(),
        forall|k: int| 0 <= k < net.reconnecting().len() ==> (#[trigger] net.reconnecting()[k]) < net.nodes.len(),
        net.reconnecting().contains(i as usize) <==> net.nodes[i].state.mode == Mode::Reconnecting,
{
    let all = Seq::new(net.nodes.len(), |i: int| i as usize);
    let keep = |i: usize| net.nodes[i as int].state.mode == Mode::Reconnecting;
    assert(all.no_duplicates());
    lemma_filter_distinct(all, keep);
    lemma_filtered(all, keep, i as usize);
    assert(all[i] == i as usize);
    assert(net.reconnecting() == all.filter(keep));
    assert forall|k: int| 0 <= k < net.reconnecting().len() implies (#[trigger] net.reconnecting()[k]) < net.nodes.len() by {
        let x = net.reconnecting()[k];
        assert(net.reconnecting().contains(x));
        lemma_filtered(all, keep, x);
        let m = all.index_of(x);
    }
}

/// Who has let the node in by now: those from earlier, and those that it has asked in this tick and that do.
pub open spec fn supporters(net: NetworkView, i: int) -> Set<u32> {
    net.nodes[i].reconnect->0.confirmed_by.union(
        Set::new(|id: u32| exists|j: int| #[trigger] welcomes(net, j, i) && net.nodes[j].id == id),
    )
}

/// In a tick of the handshakes a node that is on its way back arrives exactly where one at least of the neighbours that it
/// has announced lets it in, and those that do, the earlier ones among them, are two thirds of these neighbours; it
/// works normally then, unless it is a threat. Where they are not enough, it has been turned away once more. Nodes that
/// are not on their way back are left as they are.
pub proof fn law_handshake(w: World, recorded_at: u64, i: int)
    requires
        w.net.wired(),
        w.net.ids().no_duplicates(),
        0 <= i < w.net.nodes.len(),
        w.net.nodes[i].reconnect matches Some(r) ==> r.confirmed_by.finite(),
    ensures
        ({
            let node = w.net.nodes[i];
            let after = w.handshaken(recorded_at).net.nodes[i];
            let sec = node.config.security;
            let threat = sec.threat_score_isolation.at_most(node.state.last_threat_score) || node.state.failed_auth_count
                > sec.max_failed_auth;
            let invited = exists|j: int| #[trigger] welcomes(w.net, j, i);
            let enough = invited && node.reconnect is Some && 3 * supporters(w.net, i).len() >= 2 * neighbors_counted(node);
            &&& node.state.mode != Mode::Reconnecting ==> after == node
            &&& node.state.mode == Mode::Reconnecting && enough ==> after.reconnect is None && after.state.mode == if threat {
                Mode::Reconnecting
            } else {
                Mode::Normal
            }
            &&& node.state.mode == Mode::Reconnecting && !enough ==> after == node.turned_away(w.net.tick, recorded_at)
        }),
{
    let net = w.net;
    let requesters = net.reconnecting();
    let (asked, acks) = w.all_requested(requesters, recorded_at, requesters.len());
    let (answered, completed) = asked.acknowledged(acks, recorded_at, acks.len());
    let welcomed = answered.net.all_welcomed(completed, recorded_at, completed.len());
    lemma_reconnecting(net, i);
    lemma_all_acks(w, requesters, recorded_at, requesters.len());
    lemma_acknowledged(asked, acks, recorded_at, acks.len(), i);
    lemma_all_welcomed(answered.net, completed, recorded_at, completed.len(), i);
    lemma_others_turned_away(welcomed, requesters, completed, recorded_at, requesters.len(), i);
    assert(completed.take(completed.len() as int) =~= completed);
    assert(requesters.take(requesters.len() as int) =~= requesters);
    let node = net.nodes[i];
    let mid = answered.net.nodes[i];
    let invited = exists|j: int| #[trigger] welcomes(net, j, i);
    lemma_invited(net, acks, requesters, i);
    if node.state.mode == Mode::Reconnecting {
        match node.reconnect {
            Some(r) => {
                let now = mid.reconnect->0.confirmed_by;
                assert(now =~= supporters(net, i)) by {
                    assert forall|id: u32| #[trigger] now.contains(id) <==> supporters(net, i).contains(id) by {
                        lemma_supporter(net, acks, requesters, i, id);
                    }
                }
                law_quorum(mid);
                if invited {
                    let j = choose|j: int| #[trigger] welcomes(net, j, i);
                    assert(supporters(net, i).contains(net.nodes[j].id));
                    assert(now.contains(net.nodes[j].id));
                    if now.len() == 0 {
                        assert(now =~= Set::empty());
                    }
                }
            },
            None => {},
        }
        lemma_turned_alike(node, mid, net.tick, recorded_at);
    }
}

/// A node is answered exactly where one lets it in.
proof fn lemma_invited(net: NetworkView, acks: Acks, requesters: Seq<usize>, i: int)
    requires
        true_acks(net, acks),
        0 <= i < net.nodes.len() <= u32::MAX,
        requesters.contains(i as usize) <==> net.nodes[i].state.mode == Mode::Reconnecting,
        forall|k: int, j: int|
            0 <= k < requesters.len() && #[trigger] welcomes(net, j, #[trigger] requesters[k] as int) ==> acks.contains(
                (requesters[k], ack_of(net, j, requesters[k] as int)),
            ),
    ensures
        answered_to(acks, acks.len(), i) <==> exists|j: int| #[trigger] welcomes(net, j, i),
{
    if answered_to(acks, acks.len(), i) {
        let k = choose|k: int| 0 <= k < acks.len() && (#[trigger] acks[k]).0 == i;
        let j = choose|j: int|
            #[trigger] welcomes(net, j, acks[k].0 as int) && acks[k].1 == ack_of(net, j, acks[k].0 as int);
        assert(welcomes(net, j, i));
    }
    if exists|j: int| #[trigger] welcomes(net, j, i) {
        let j = choose|j: int| #[trigger] welcomes(net, j, i);
        let k = requesters.index_of(i as usize);
        assert(welcomes(net, j, requesters[k] as int));
        let a = (requesters[k], ack_of(net, j, requesters[k] as int));
        assert(acks[acks.index_of(a)].0 == i);
    }
}

proof fn lemma_supporter(net: NetworkView, acks: Acks, requesters: Seq<usize>, i: int, id: u32)
    requires
        true_acks(net, acks),
        0 <= i < net.nodes.len() <= u32::MAX,
        requesters.contains(i as usize),
        forall|k: int, j: int|
            0 <= k < requesters.len() && #[trigger] welcomes(net, j, #[trigger] requesters[k] as int) ==> acks.contains(
                (requesters[k], ack_of(net, j, requesters[k] as int)),
            ),
    ensures
        (exists|k: int| 0 <= k < acks.len() && (#[trigger] acks[k]).0 == i && acks[k].1.source_id == id) <==> exists|j: int| #[trigger]
            welcomes(net, j, i) && net.nodes[j].id == id,
{
    if exists|k: int| 0 <= k < acks.len() && (#[trigger] acks[k]).0 == i && acks[k].1.source_id == id {
        let k = choose|k: int| 0 <= k < acks.len() && (#[trigger] acks[k]).0 == i && acks[k].1.source_id == id;
        let j = choose|j: int|
            #[trigger] welcomes(net, j, acks[k].0 as int) && acks[k].1 == ack_of(net, j, acks[k].0 as int);
        assert(welcomes(net, j, i) && net.nodes[j].id == id);
    }
    if exists|j: int| #[trigger] welcomes(net, j, i) && net.nodes[j].id == id {
        let j = choose|j: int| #[trigger] welcomes(net, j, i) && net.nodes[j].id == id;
        let k = requesters.index_of(i as usize);
        assert(welcomes(net, j, requesters[k] as int));
        let a = (requesters[k], ack_of(net, j, requesters[k] as int));
        let m = acks.index_of(a);
        assert(acks[m].0 == i && acks[m].1.source_id == id);
    }
}

/// Being turned away does not depend on who has let the node in.
proof fn lemma_turned_alike(a: NodeView, b: NodeView, tick: u64, recorded_at: u64)
    requires
        only_handshake(a, b),
        a.reconnect is None ==> b.reconnect is None,
        a.reconnect matches Some(r) ==> (b.reconnect matches Some(s) && s == ReconnectView {
            confirmed_by: s.confirmed_by,
            ..r
        }),
    ensures
        a.turned_away(tick, recorded_at) == b.turned_away(tick, recorded_at),
{
    reveal(NodeView::turned_away);
}

/// A node that is turned away counts it and starts over with its mode and load as they are, until it has been turned away
/// as often as is set. Then it leaves the network again, where the limit for its score is below one or too many logins
/// have failed; and it stops asking then.
pub proof fn law_turned_away(node: NodeView, tick: u64, recorded_at: u64)
    requires
        node.reconnect is Some,
        node.state.mode == Mode::Reconnecting,
    ensures
        ({
            let after = node.turned_away(tick, recorded_at);
            let last = node.reconnect->0.attempts + 1 >= node.config.security.max_reconnect_attempts;
            let sec = node.config.security;
            let reason = sec.threat_score_isolation.below(Single { bits: ONE }) || node.state.failed_auth_count
                > sec.max_failed_auth;
            &&& !last ==> after.state == node.state && after.reconnect is Some && after.reconnect->0.attempts
                == node.reconnect->0.attempts + 1 && after.reconnect->0.confirmed_by == Set::<u32>::empty()
            &&& last && reason ==> after.state.mode == Mode::Isolated && after.reconnect is None
                && after.state.state_entered_tick == tick
            &&& last && !reason ==> after.state.mode == Mode::Reconnecting
            &&& after.state.load == node.state.load
        }),
{
    let r = node.reconnect->0;
    let attempts = if r.attempts < u32::MAX { (r.attempts + 1) as u32 } else { r.attempts };
    let counted = NodeView { reconnect: Some(ReconnectView { attempts, confirmed_by: Set::empty(), ..r }), ..node };
    lemma_giving_up(counted, tick);
    lemma_turned_away(node, tick, recorded_at);
}

/// Giving up is allowed only for the score or for failed logins.
proof fn lemma_giving_up(node: NodeView, tick: u64)
    requires
        node.state.mode == Mode::Reconnecting,
    ensures
        node.judgement(NodeView::give_up_proposal(), tick).allowed <==> node.config.security.threat_score_isolation.below(
            Single { bits: ONE },
        ) || node.state.failed_auth_count > node.config.security.max_failed_auth,
{
    reveal_strlit("reconnect_timeout");
    reveal_strlit("malware_detected");
    reveal_strlit("auth_bruteforce_detected");
    reveal_strlit("integrity_violation");
    reveal_strlit("peer_consensus_isolation");
    reveal_strlit("neighbor_cascade_failure");
    reveal_strlit("reconnect_timeout_failure");
    let p = NodeView::give_up_proposal();
    law_mode_changes_allowed(p, node.state, node.config, tick, node.neighbor_signals);
}

proof fn lemma_turned_away(node: NodeView, tick: u64, recorded_at: u64)
    requires
        node.reconnect is Some,
    ensures
        ({
            let r = node.reconnect->0;
            let attempts = if r.attempts < u32::MAX { (r.attempts + 1) as u32 } else { r.attempts };
            let counted = NodeView {
                reconnect: Some(ReconnectView { attempts, confirmed_by: Set::empty(), ..r }),
                ..node
            };
            let after = node.turned_away(tick, recorded_at);
            let allowed = counted.judgement(NodeView::give_up_proposal(), tick).allowed;
            &&& attempts < node.config.security.max_reconnect_attempts ==> after == counted
            &&& attempts >= node.config.security.max_reconnect_attempts && allowed ==> after.state.mode == Mode::Isolated
                && after.state.load == node.state.load && after.state.state_entered_tick == tick && after.reconnect is None
            &&& attempts >= node.config.security.max_reconnect_attempts && !allowed ==> after.state == node.state
        }),
{
    reveal(NodeView::turned_away);
}

} // verus!
