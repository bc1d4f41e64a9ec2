//! Direct links round a node that has gone silent.

use std::collections::HashSet;

use vstd::prelude::*;

use crate::network::topology_map::{lemma_filter_push, Link};
use crate::node::signals::signal_views;
use crate::node::topology::{compromised, has_id};
use crate::node::{Mode, Node, NodeSignal, NodeView, SignalType, SignalView, VirtualBridgeAttempt};
use crate::single::Single;
use crate::text::is_text;

verus! {

broadcast use vstd::std_specs::hash::group_hash_axioms;

/// The pattern of 0.3: a snapshot with less confidence is no ground for a bridge.
pub const MIN_SNAPSHOT_CONFIDENCE: u32 = 0x3e99_999a;

impl NodeView {
    /// The node may ask `candidate` for a bridge: another node that is up and can be reached, that is
    /// no neighbour and that it has not asked yet.
    pub open spec fn bridgeable(self, candidate: u32, excluded: Set<u32>) -> bool {
        &&& candidate != self.id
        &&& !excluded.contains(candidate)
        &&& !self.neighbor_ids.contains(candidate)
        &&& !(self.virtual_bridge_attempts.contains_key(candidate)
            && self.virtual_bridge_attempts[candidate].initiated_by_us)
        &&& self.topology_map.reachable(self.id, candidate, excluded)
    }

    /// The node was a neighbour of the fallen one, by a snapshot that it trusts.
    pub open spec fn bereft_of(self, fallen: u32) -> bool {
        let map = self.topology_map.snapshots;
        &&& map.contains_key(fallen)
        &&& !map[fallen].confidence.below(Single { bits: MIN_SNAPSHOT_CONFIDENCE })
        &&& map[fallen].neighbors.contains(self.id)
    }

    /// Whom the node may ask on account of one fallen node.
    pub open spec fn candidates_via(self, fallen: u32, excluded: Set<u32>) -> Seq<(u32, u32)> {
        if self.bereft_of(fallen) {
            self.topology_map.snapshots[fallen].neighbors.filter(|c: u32| self.bridgeable(c, excluded)).map_values(
                |c: u32| (c, fallen),
            )
        } else {
            seq![]
        }
    }

    /// Whom the node may ask on account of the first `n` fallen nodes.
    pub open spec fn candidates(self, stale: Seq<u32>, excluded: Set<u32>, n: nat) -> Seq<(u32, u32)>
        decreases n,
    {
        if n == 0 {
            seq![]
        } else {
            self.candidates(stale, excluded, (n - 1) as nat) + self.candidates_via(stale[n - 1], excluded)
        }
    }

    /// Whom the node asks for a bridge in this tick, and round which fallen node.
    pub open spec fn bridges_to_ask(self, current_tick: u64, excluded: Set<u32>) -> Seq<(u32, u32)> {
        let stale = self.topology_map.stale(current_tick, self.config.security.node_stale_ttl);
        self.candidates(stale, excluded, stale.len())
    }

    /// The signal asks for a bridge that neither side has reason to refuse.
    pub open spec fn accepts_bridge(self, request: SignalView) -> bool {
        &&& !self.config.security.threat_score_isolation.below(request.threat_score)
        &&& request.mode != Mode::Isolated
        &&& !compromised(request.ai_state_reason)
        &&& self.state.mode != Mode::Isolated
        &&& !compromised(self.state.ai_state_reason)
    }
}

/// The attempts after the first `n` requests were sent.
pub open spec fn attempted(
    attempts: Map<u32, VirtualBridgeAttempt>,
    asked: Seq<(u32, u32)>,
    current_tick: u64,
    n: nat,
) -> Map<u32, VirtualBridgeAttempt>
    decreases n,
{
    if n == 0 {
        attempts
    } else {
        let (bridge_to, via_fallen_node) = asked[n - 1];
        attempted(attempts, asked, current_tick, (n - 1) as nat).insert(
            bridge_to,
            VirtualBridgeAttempt {
                bridge_to,
                via_fallen_node,
                started_at_tick: current_tick,
                attempts: 1,
                initiated_by_us: true,
            },
        )
    }
}

/// The first position of `id`.
pub open spec fn is_position(ids: Seq<u32>, id: u32, at: Option<usize>) -> bool {
    match at {
        Some(i) => i < ids.len() && ids[i as int] == id && forall|k: int| 0 <= k < i ==> ids[k] != id,
        None => !ids.contains(id),
    }
}

pub open spec fn position(ids: Seq<u32>, id: u32) -> Option<usize> {
    choose|at: Option<usize>| is_position(ids, id, at)
}

/// The links of the first `n` pairs, one each way; none where an id is unknown.
pub open spec fn bridge_links(pairs: Seq<(u32, u32)>, ids: Seq<u32>, n: nat) -> Seq<Link>
    decreases n,
{
    if n == 0 {
        seq![]
    } else {
        let before = bridge_links(pairs, ids, (n - 1) as nat);
        match (position(ids, pairs[n - 1].0), position(ids, pairs[n - 1].1)) {
            (Some(a), Some(b)) => before.push(Link { from: a, to: b, active: true, virtual_link: true }).push(
                Link { from: b, to: a, active: true, virtual_link: true },
            ),
            _ => before,
        }
    }
}

/// Finds the first position of `id`.
pub fn position_of(ids: &Vec<u32>, id: u32) -> (at: Option<usize>)
    ensures
        at == position(ids@, id),
        is_position(ids@, id, at),
{
    let mut i: usize = 0;
    while i < ids.len()
        invariant
            i <= ids@.len(),
            forall|k: int| 0 <= k < i ==> ids@[k] != id,
        decreases ids@.len() - i,
    {
        if ids[i] == id {
            proof {
                lemma_position(ids@, id, Some(i));
            }
            return Some(i);
        }
        i = i + 1;
    }
    proof {
        lemma_position(ids@, id, None);
    }
    None
}

/// Every id has a first position or none.
pub proof fn lemma_position_exists(ids: Seq<u32>, id: u32)
    requires
        ids.len() <= usize::MAX,
    ensures
        is_position(ids, id, position(ids, id)),
{
    if ids.contains(id) {
        lemma_first_position(ids, id, ids.index_of(id));
    } else {
        assert(is_position(ids, id, None));
    }
}

proof fn lemma_first_position(ids: Seq<u32>, id: u32, i: int)
    requires
        ids.len() <= usize::MAX,
        0 <= i < ids.len(),
        ids[i] == id,
    ensures
        exists|at: Option<usize>| is_position(ids, id, at),
    decreases i,
{
    if exists|k: int| 0 <= k < i && ids[k] == id {
        let k = choose|k: int| 0 <= k < i && ids[k] == id;
        lemma_first_position(ids, id, k);
    } else {
        assert(is_position(ids, id, Some(i as usize)));
    }
}

/// There is one first position.
pub proof fn lemma_position(ids: Seq<u32>, id: u32, at: Option<usize>)
    requires
        is_position(ids, id, at),
    ensures
        position(ids, id) == at,
{
    let other = position(ids, id);
    assert(is_position(ids, id, other));
    match (at, other) {
        (Some(i), Some(j)) => {
            if i < j {
                assert(ids[i as int] == id);
            }
        },
        (Some(i), None) => {
            assert(ids[i as int] == id);
        },
        (None, Some(j)) => {
            assert(ids[j as int] == id);
        },
        (None, None) => {},
    }
}

impl Node {
    /// Whom the node may ask for a bridge, with the fallen node between them.
    pub fn find_virtual_bridge_candidates(&self, stale_ids: &Vec<u32>, excluded_bridges: &HashSet<u32>) -> (found: Vec<
        (u32, u32),
    >)
        ensures
            found@ == self@.candidates(stale_ids@, excluded_bridges@, stale_ids@.len()),
    {
        let mut found: Vec<(u32, u32)> = Vec::new();
        let ghost node = self@;
        let ghost excluded = excluded_bridges@;
        let mut i: usize = 0;
        while i < stale_ids.len()
            invariant
                i <= stale_ids@.len(),
                node == self@,
                excluded == excluded_bridges@,
                found@ == node.candidates(stale_ids@, excluded, i as nat),
            decreases stale_ids@.len() - i,
        {
            let fallen: u32 = stale_ids[i];
            let ghost start = found@;
            match self.topology_map.snapshots.get(&fallen) {
                Some(snap) => {
                    assert(node.topology_map.snapshots[fallen] == snap@);
                    if !snap.confidence.lt(Single { bits: MIN_SNAPSHOT_CONFIDENCE }) && has_id(&snap.neighbors, self.id) {
                        let ghost p = |c: u32| node.bridgeable(c, excluded);
                        let ghost f = |c: u32| (c, fallen);
                        let ghost around = snap.neighbors@;
                        let mut k: usize = 0;
                        proof {
                            reveal(Seq::filter);
                            assert(around.take(0) =~= seq![]);
                            assert(found@ =~= start + around.take(0).filter(p).map_values(f));
                        }
                        while k < snap.neighbors.len()
                            invariant
                                k <= around.len(),
                                around == snap.neighbors@,
                                node == self@,
                                excluded == excluded_bridges@,
                                p == (|c: u32| node.bridgeable(c, excluded)),
                                f == (|c: u32| (c, fallen)),
                                found@ == start + around.take(k as int).filter(p).map_values(f),
                            decreases around.len() - k,
                        {
                            let c: u32 = snap.neighbors[k];
                            let ghost kept = around.take(k as int).filter(p);
                            proof {
                                assert(around.take(k + 1) =~= around.take(k as int).push(c));
                                lemma_filter_push(around.take(k as int), c, p);
                            }
                            let asked = match self.virtual_bridge_attempts.get(&c) {
                                Some(a) => a.initiated_by_us,
                                None => false,
                            };
                            if c != self.id && !excluded_bridges.contains(&c) && !has_id(&self.neighbor_ids, c) && !asked
                                && self.topology_map.find_path(self.id, c, excluded_bridges).is_some() {
                                assert(p(c));
                                found.push((c, fallen));
                                assert(kept.push(c).map_values(f) =~= kept.map_values(f).push((c, fallen)));
                                assert(found@ =~= start + kept.push(c).map_values(f));
                            } else {
                                assert(!p(c));
                            }
                            k = k + 1;
                        }
                        assert(around.take(k as int) =~= around);
                        assert(found@ == start + node.candidates_via(fallen, excluded));
                    }
                },
                None => {},
            }
            proof {
                if !node.bereft_of(fallen) {
                    assert(found@ =~= start + node.candidates_via(fallen, excluded));
                }
            }
            i = i + 1;
        }
        found
    }

    /// Asks for a bridge round every node that has gone silent.
    pub fn initiate_virtual_bridges(&mut self, current_tick: u64, excluded_bridges: &HashSet<u32>) -> (requests: Vec<
        NodeSignal,
    >)
        ensures
            ({
                let asked = old(self)@.bridges_to_ask(current_tick, excluded_bridges@);
                &&& signal_views(requests@) == asked.map_values(
                    |a: (u32, u32)| old(self)@.signal(Some(a.0), SignalType::VirtualBridgeRequest, current_tick),
                )
                &&& final(self)@ == (NodeView {
                    virtual_bridge_attempts: attempted(
                        old(self)@.virtual_bridge_attempts,
                        asked,
                        current_tick,
                        asked.len(),
                    ),
                    ..old(self)@
                })
            }),
    {
        let ghost node = self@;
        let stale_ids = self.topology_map.detect_stale_nodes(current_tick, self.config.security.node_stale_ttl);
        let asked = self.find_virtual_bridge_candidates(&stale_ids, excluded_bridges);
        let mut requests: Vec<NodeSignal> = Vec::new();
        let mut i: usize = 0;
        let ghost request = |a: (u32, u32)| node.signal(Some(a.0), SignalType::VirtualBridgeRequest, current_tick);
        assert(signal_views(requests@) =~= asked@.take(0).map_values(request));
        while i < asked.len()
            invariant
                i <= asked@.len(),
                request == (|a: (u32, u32)| node.signal(Some(a.0), SignalType::VirtualBridgeRequest, current_tick)),
                signal_views(requests@) == asked@.take(i as int).map_values(request),
                self@ == (NodeView {
                    virtual_bridge_attempts: attempted(
                        node.virtual_bridge_attempts,
                        asked@,
                        current_tick,
                        i as nat,
                    ),
                    ..node
                }),
            decreases asked@.len() - i,
        {
            let (bridge_to, via_fallen_node) = asked[i];
            self.virtual_bridge_attempts.insert(
                bridge_to,
                VirtualBridgeAttempt {
                    bridge_to,
                    via_fallen_node,
                    started_at_tick: current_tick,
                    attempts: 1,
                    initiated_by_us: true,
                },
            );
            let ghost before = requests@;
            let signal = self.new_signal(Some(bridge_to), SignalType::VirtualBridgeRequest, current_tick);
            let ghost sent = signal@;
            requests.push(signal);
            proof {
                assert(sent =~= request(asked@[i as int]));
                assert(signal_views(requests@) =~= signal_views(before).push(sent));
                assert(asked@.take(i + 1) =~= asked@.take(i as int).push(asked@[i as int]));
                assert(asked@.take(i + 1).map_values(request) =~= asked@.take(i as int).map_values(request).push(sent));
            }
            i = i + 1;
        }
        assert(asked@.take(i as int) =~= asked@);
        requests
    }

    /// Answers a request for a bridge.
    pub fn handle_virtual_bridge_request(&mut self, request: &NodeSignal, current_tick: u64) -> (answer: NodeSignal)
        ensures
            answer@ == old(self)@.signal(
                Some(request.source_id),
                if old(self)@.accepts_bridge(request@) {
                    SignalType::VirtualBridgeAck
                } else {
                    SignalType::VirtualBridgeReject
                },
                current_tick,
            ),
            final(self)@ == if old(self)@.accepts_bridge(request@) {
                NodeView {
                    virtual_bridge_attempts: old(self)@.virtual_bridge_attempts.insert(
                        request.source_id,
                        VirtualBridgeAttempt {
                            bridge_to: request.source_id,
                            via_fallen_node: 0,
                            started_at_tick: current_tick,
                            attempts: 1,
                            initiated_by_us: false,
                        },
                    ),
                    ..old(self)@
                }
            } else {
                old(self)@
            },
    {
        let finding = &request.ai_state_reason;
        let requester_untrusted = request.threat_score.gt(self.config.security.threat_score_isolation) || request.mode
            == Mode::Isolated || is_text(finding, "malware_detected") || is_text(finding, "auth_bruteforce_detected")
            || is_text(finding, "integrity_violation");
        let own_finding = &self.state.ai_state_reason;
        let self_untrusted = self.state.mode == Mode::Isolated || is_text(own_finding, "malware_detected") || is_text(
            own_finding,
            "auth_bruteforce_detected",
        ) || is_text(own_finding, "integrity_violation");
        let accepted = !requester_untrusted && !self_untrusted;
        assert(accepted == self@.accepts_bridge(request@));
        if accepted {
            self.virtual_bridge_attempts.insert(
                request.source_id,
                VirtualBridgeAttempt {
                    bridge_to: request.source_id,
                    via_fallen_node: 0,
                    started_at_tick: current_tick,
                    attempts: 1,
                    initiated_by_us: false,
                },
            );
        }
        let signal_type = if accepted { SignalType::VirtualBridgeAck } else { SignalType::VirtualBridgeReject };
        self.new_signal(Some(request.source_id), signal_type, current_tick)
    }

    /// Takes the answer to a request in; tells whether the bridge is granted.
    pub fn handle_virtual_bridge_response(&mut self, response: &NodeSignal) -> (granted: bool)
        ensures
            granted == (response.signal_type == SignalType::VirtualBridgeAck),
            final(self)@ == if response.signal_type == SignalType::VirtualBridgeReject {
                NodeView {
                    virtual_bridge_attempts: old(self)@.virtual_bridge_attempts.remove(response.source_id),
                    ..old(self)@
                }
            } else {
                old(self)@
            },
    {
        match response.signal_type {
            SignalType::VirtualBridgeAck => true,
            SignalType::VirtualBridgeReject => {
                self.virtual_bridge_attempts.remove(&response.source_id);
                false
            },
            _ => false,
        }
    }

    /// The links of the confirmed pairs, one each way. `ids` holds the ids of the nodes by position.
    pub fn build_confirmed_links(confirmed_pairs: &Vec<(u32, u32)>, ids: &Vec<u32>) -> (links: Vec<Link>)
        ensures
            links@ == bridge_links(confirmed_pairs@, ids@, confirmed_pairs@.len()),
    {
        let mut links: Vec<Link> = Vec::new();
        let mut i: usize = 0;
        while i < confirmed_pairs.len()
            invariant
                i <= confirmed_pairs@.len(),
                links@ == bridge_links(confirmed_pairs@, ids@, i as nat),
            decreases confirmed_pairs@.len() - i,
        {
            let (a, b) = confirmed_pairs[i];
            match (position_of(ids, a), position_of(ids, b)) {
                (Some(ia), Some(ib)) => {
                    links.push(Link { from: ia, to: ib, active: true, virtual_link: true });
                    links.push(Link { from: ib, to: ia, active: true, virtual_link: true });
                },
                _ => {},
            }
            i = i + 1;
        }
        links
    }
}

/// Every link of a bridge has one back.
pub proof fn law_bridges_both_ways(pairs: Seq<(u32, u32)>, ids: Seq<u32>, n: nat)
    requires
        n <= pairs.len(),
    ensures
        forall|l: Link| #[trigger] bridge_links(pairs, ids, n).contains(l) ==> bridge_links(pairs, ids, n).contains(
            Link { from: l.to, to: l.from, ..l },
        ),
    decreases n,
{
    if n > 0 {
        law_bridges_both_ways(pairs, ids, (n - 1) as nat);
        let before = bridge_links(pairs, ids, (n - 1) as nat);
        let after = bridge_links(pairs, ids, n);
        assert forall|l: Link| #[trigger] after.contains(l) implies after.contains(
            Link { from: l.to, to: l.from, ..l },
        ) by {
            let i = after.index_of(l);
            let back = Link { from: l.to, to: l.from, ..l };
            if i < before.len() {
                assert(before[i] == l);
                assert(before.contains(l));
                assert(before.contains(back));
                let j = before.index_of(back);
                assert(after[j] == back);
            } else if i == before.len() {
                assert(after[i + 1] == back);
            } else {
                assert(after[i - 1] == back);
            }
        }
    }
}

/// A node asks for bridges only those that it may ask, and only round nodes that have gone silent.
pub proof fn law_candidates(node: NodeView, stale: Seq<u32>, excluded: Set<u32>, n: nat)
    requires
        n <= stale.len(),
    ensures
        forall|i: int|
            #![trigger node.candidates(stale, excluded, n)[i]]
            0 <= i < node.candidates(stale, excluded, n).len() ==> {
                let (candidate, fallen) = node.candidates(stale, excluded, n)[i];
                &&& node.bridgeable(candidate, excluded)
                &&& node.bereft_of(fallen)
                &&& stale.contains(fallen)
            },
    decreases n,
{
    if n > 0 {
        law_candidates(node, stale, excluded, (n - 1) as nat);
        let before = node.candidates(stale, excluded, (n - 1) as nat);
        let after = node.candidates(stale, excluded, n);
        let fallen = stale[n - 1];
        let p = |c: u32| node.bridgeable(c, excluded);
        assert forall|i: int| #![trigger after[i]] 0 <= i < after.len() implies {
            &&& node.bridgeable(after[i].0, excluded)
            &&& node.bereft_of(after[i].1)
            &&& stale.contains(after[i].1)
        } by {
            if i < before.len() {
                assert(after[i] == before[i]);
            } else {
                lemma_filter_ids(node.topology_map.snapshots[fallen].neighbors, p, i - before.len());
                assert(stale[n - 1] == after[i].1);
            }
        }
    }
}

/// What passes a filter meets its condition.
proof fn lemma_filter_ids(s: Seq<u32>, p: spec_fn(u32) -> bool, i: int)
    requires
        0 <= i < s.filter(p).len(),
    ensures
        p(s.filter(p)[i]),
    decreases s.len(),
{
    reveal(Seq::filter);
    if s.len() > 0 {
        if i < s.drop_last().filter(p).len() {
            lemma_filter_ids(s.drop_last(), p, i);
        }
    }
}

} // verus!
