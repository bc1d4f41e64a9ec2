//! The way back into the network.

use vstd::prelude::*;

use crate::executor::carried_out;
use crate::network::topology_map::lemma_filter_push;
use crate::node::signals::signal_views;
use crate::node::{Mode, Node, NodeSignal, NodeView, ReconnectView, SignalType, SignalView, StateView};
use crate::persistence::{DecisionSource, SourceView};
use crate::proposal::{Proposal, ProposalAction, ProposalView};
use crate::single::{Single, ONE};
use crate::supervisor::security_threat;
use crate::text::is_text;

verus! {

broadcast use vstd::std_specs::hash::group_hash_axioms;

impl NodeView {
    /// The other nodes that the node has on its own snapshot.
    pub open spec fn known_neighbors(self) -> Seq<u32> {
        let map = self.topology_map.snapshots;
        if map.contains_key(self.id) {
            map[self.id].neighbors.filter(|id: u32| id != self.id)
        } else {
            seq![]
        }
    }

    /// The node lets the sender back in: it is at work itself, and the sender is in order.
    pub open spec fn lets_in(self, request: SignalView) -> bool {
        let sec = self.config.security;
        &&& self.state.mode != Mode::Isolated
        &&& self.state.mode != Mode::Reconnecting
        &&& self.state.mode != Mode::Degraded
        &&& request.ai_state_reason != "malware_detected"@
        &&& request.failed_auth_count <= sec.max_failed_auth
        &&& request.threat_score.below(sec.threat_score_isolation)
    }

    /// How many neighbours have to let the node back in: two thirds, and one at least.
    pub open spec fn quorum(self) -> int {
        let map = self.topology_map.snapshots;
        let n = if map.contains_key(self.id) { map[self.id].neighbors.len() } else { self.neighbor_ids.len() };
        if n == 0 { 1 } else { (2 * n + 2) as int / 3 }
    }

    /// The node with one more neighbour that lets it in.
    pub open spec fn confirmed(self, by: u32) -> NodeView {
        match self.reconnect {
            Some(r) => NodeView {
                reconnect: Some(ReconnectView { confirmed_by: r.confirmed_by.insert(by), ..r }),
                ..self
            },
            None => self,
        }
    }

    /// Enough neighbours let the node in.
    pub open spec fn has_quorum(self) -> bool {
        match self.reconnect {
            Some(r) => r.confirmed_by.len() >= self.quorum(),
            None => false,
        }
    }

    /// The node when the handshake is done: with its usual connections and in step again.
    pub open spec fn welcomed(self, tick: u64) -> NodeView {
        NodeView {
            reconnect: None,
            state: StateView {
                active_connections: self.config.node_defaults.active_connections,
                last_sync_time: tick,
                ..self.state
            },
            ..self
        }
    }

    pub open spec fn return_proposal(self) -> ProposalView {
        ProposalView {
            action: ProposalAction::ExitIsolation,
            threat_score: self.state.last_threat_score,
            predicted_state: "network_partition_healing"@,
            event_reason: "Reconnect handshake completed — returning to normal operation"@,
            confidence: Single { bits: ONE },
        }
    }

    /// The node after it has come back: at work again if the supervisor agrees.
    #[verifier::opaque]
    pub open spec fn reconnected(self, tick: u64, recorded_at: u64) -> NodeView {
        let node = self.welcomed(tick);
        let p = self.return_proposal();
        let decision = node.judgement(p, tick);
        let state = if decision.allowed {
            StateView {
                ai_state_reason: p.predicted_state,
                ..carried_out(p.action, node.state, node.config, tick)
            }
        } else {
            node.state
        };
        node.noted(
            state,
            decision,
            SourceView::DeterministicReconnectComplete,
            self.state.snapshot().diff(state.snapshot()),
            recorded_at,
        )
    }

    pub open spec fn give_up_proposal() -> ProposalView {
        ProposalView {
            action: ProposalAction::EnterIsolation,
            threat_score: Single { bits: ONE },
            predicted_state: "reconnect_timeout"@,
            event_reason: "Integrity check failed — node state cannot be trusted"@,
            confidence: Single { bits: ONE },
        }
    }

    /// The node after a tick in which it was not let in: it starts over, or gives up after the last
    /// attempt.
    #[verifier::opaque]
    pub open spec fn turned_away(self, current_tick: u64, recorded_at: u64) -> NodeView {
        match self.reconnect {
            None => self,
            Some(r) => {
                let attempts = if r.attempts < u32::MAX { (r.attempts + 1) as u32 } else { r.attempts };
                let node = NodeView {
                    reconnect: Some(ReconnectView { attempts, confirmed_by: Set::empty(), ..r }),
                    ..self
                };
                if attempts < self.config.security.max_reconnect_attempts {
                    node
                } else {
                    let p = NodeView::give_up_proposal();
                    let decision = node.judgement(p, current_tick);
                    let state = if decision.allowed {
                        StateView {
                            ai_state_reason: p.predicted_state,
                            ..carried_out(p.action, node.state, node.config, current_tick)
                        }
                    } else {
                        node.state
                    };
                    NodeView {
                        reconnect: if decision.allowed { None } else { node.reconnect },
                        ..node.noted(
                            state,
                            decision,
                            SourceView::DeterministicReconnectTimeout,
                            node.state.snapshot().diff(state.snapshot()),
                            recorded_at,
                        )
                    }
                }
            },
        }
    }
}

impl Node {
    /// Asks every known neighbour to be let in.
    pub fn generate_reconnect_requests(&self, tick: u64) -> (requests: Vec<NodeSignal>)
        ensures
            signal_views(requests@) == if self.state.mode == Mode::Reconnecting {
                self@.known_neighbors().map_values(
                    |id: u32| self@.signal(Some(id), SignalType::ReconnectRequest, tick),
                )
            } else {
                seq![]
            },
    {
        let mut requests: Vec<NodeSignal> = Vec::new();
        assert(signal_views(requests@) =~= seq![]);
        if self.state.mode != Mode::Reconnecting {
            return requests;
        }
        let ghost node = self@;
        let ghost p = |id: u32| id != node.id;
        let ghost f = |id: u32| node.signal(Some(id), SignalType::ReconnectRequest, tick);
        match self.topology_map.snapshots.get(&self.id) {
            Some(snap) => {
                let ghost all = snap.neighbors@;
                assert(node.topology_map.snapshots[self.id] == snap@);
                let mut i: usize = 0;
                proof {
                    reveal(Seq::filter);
                    assert(all.take(0) =~= seq![]);
                    assert(signal_views(requests@) =~= all.take(0).filter(p).map_values(f));
                }
                while i < snap.neighbors.len()
                    invariant
                        i <= all.len(),
                        all == snap.neighbors@,
                        node == self@,
                        p == (|id: u32| id != node.id),
                        f == (|id: u32| node.signal(Some(id), SignalType::ReconnectRequest, tick)),
                        signal_views(requests@) == all.take(i as int).filter(p).map_values(f),
                    decreases all.len() - i,
                {
                    let target: u32 = snap.neighbors[i];
                    let ghost kept = all.take(i as int).filter(p);
                    let ghost before = requests@;
                    proof {
                        assert(all.take(i + 1) =~= all.take(i as int).push(target));
                        lemma_filter_push(all.take(i as int), target, p);
                    }
                    if target != self.id {
                        requests.push(self.new_signal(Some(target), SignalType::ReconnectRequest, tick));
                        proof {
                            assert(signal_views(requests@) =~= signal_views(before).push(f(target)));
                            assert(kept.push(target).map_values(f) =~= kept.map_values(f).push(f(target)));
                        }
                    }
                    i = i + 1;
                }
                assert(all.take(i as int) =~= all);
                assert(p =~= (|id: u32| id != self@.id));
            },
            None => {
                assert(node.known_neighbors().map_values(f) =~= seq![]);
            },
        }
        requests
    }

    /// Answers a node that wants to be let in.
    pub fn handle_reconnect_request(&self, request: &NodeSignal, tick: u64) -> (ack: Option<NodeSignal>)
        ensures
            ack is Some <==> self@.lets_in(request@),
            ack matches Some(s) ==> s@ == self@.signal(Some(request.source_id), SignalType::ReconnectAck, tick),
    {
        if matches!(self.state.mode, Mode::Isolated | Mode::Reconnecting | Mode::Degraded) {
            return None;
        }
        let acceptable = !is_text(&request.ai_state_reason, "malware_detected") && request.failed_auth_count
            <= self.config.security.max_failed_auth && request.threat_score.lt(
            self.config.security.threat_score_isolation,
        );
        if !acceptable {
            return None;
        }
        Some(self.new_signal(Some(request.source_id), SignalType::ReconnectAck, tick))
    }

    /// Takes an answer in; tells whether enough neighbours let the node in.
    pub fn handle_reconnect_ack(&mut self, ack: &NodeSignal) -> (quorum: bool)
        ensures
            final(self)@ == old(self)@.confirmed(ack.source_id),
            quorum == final(self)@.has_quorum(),
    {
        let known: usize = match self.topology_map.snapshots.get(&self.id) {
            Some(snap) => snap.neighbors.len(),
            None => self.neighbor_ids.len(),
        };
        let two_thirds: usize = known - known / 3;
        assert(two_thirds == (2 * known + 2) / 3);
        let needed: usize = if two_thirds < 1 { 1 } else { two_thirds };
        assert(needed == self@.quorum());
        match &mut self.reconnect {
            Some(r) => {
                r.confirmed_by.insert(ack.source_id);
                r.confirmed_by.len() >= needed
            },
            None => false,
        }
    }

    /// Ends the way back: the node works again if the supervisor agrees.
    pub fn complete_reconnect(&mut self, tick: u64, recorded_at: u64)
        ensures
            final(self)@ == old(self)@.reconnected(tick, recorded_at),
    {
        reveal(NodeView::reconnected);
        let ghost start = self@;
        let before = self.snapshot_state();
        self.reconnect = None;
        self.state.active_connections = self.config.node_defaults.active_connections;
        self.state.last_sync_time = tick;
        assert(self@ =~= start.welcomed(tick));
        let proposal = Proposal {
            action: ProposalAction::ExitIsolation,
            threat_score: self.state.last_threat_score,
            predicted_state: "network_partition_healing".to_string(),
            event_reason: "Reconnect handshake completed — returning to normal operation".to_string(),
            confidence: Single { bits: ONE },
        };
        let decision = self.judge(&proposal, tick);
        if decision.allowed {
            self.executor.apply(&proposal, &mut self.state, &self.config, tick);
            self.state.ai_state_reason = proposal.predicted_state.clone();
        }
        self.note_since(&before, decision, DecisionSource::DeterministicReconnectComplete, recorded_at);
    }

    /// Counts an attempt in which the node was not let in; after the last one it gives up.
    pub fn tick_failed_reconnect(&mut self, current_tick: u64, recorded_at: u64)
        ensures
            final(self)@ == old(self)@.turned_away(current_tick, recorded_at),
    {
        reveal(NodeView::turned_away);
        let attempts: u32 = match &mut self.reconnect {
            Some(r) => {
                r.attempts = r.attempts.saturating_add(1);
                r.confirmed_by.clear();
                r.attempts
            },
            None => {
                return;
            },
        };
        if attempts < self.config.security.max_reconnect_attempts {
            return;
        }
        let proposal = Proposal {
            action: ProposalAction::EnterIsolation,
            threat_score: Single { bits: ONE },
            predicted_state: "reconnect_timeout".to_string(),
            event_reason: "Integrity check failed — node state cannot be trusted".to_string(),
            confidence: Single { bits: ONE },
        };
        let before = self.snapshot_state();
        let decision = self.judge(&proposal, current_tick);
        if decision.allowed {
            self.executor.apply(&proposal, &mut self.state, &self.config, current_tick);
            self.state.ai_state_reason = proposal.predicted_state.clone();
            self.reconnect = None;
        }
        self.note_since(&before, decision, DecisionSource::DeterministicReconnectTimeout, recorded_at);
    }
}

/// A node that has its quorum and is no threat works normally again.
pub proof fn law_welcome_returns(node: NodeView, tick: u64, recorded_at: u64)
    requires
        node.state.mode == Mode::Reconnecting,
        !security_threat(node.state, node.config),
    ensures
        node.reconnected(tick, recorded_at).state.mode == Mode::Normal,
        node.reconnected(tick, recorded_at).reconnect is None,
{
    reveal(NodeView::reconnected);
}

/// A node that is not let in within its attempts is isolated again, where a score of one, or its
/// failed logins, are reason enough for isolation.
pub proof fn law_last_attempt_isolates(node: NodeView, tick: u64, recorded_at: u64)
    requires
        node.reconnect is Some,
        node.reconnect->0.attempts + 1 >= node.config.security.max_reconnect_attempts,
        node.state.mode != Mode::Isolated,
        node.config.security.threat_score_isolation.below(Single { bits: ONE }) || node.state.failed_auth_count
            > node.config.security.max_failed_auth,
    ensures
        node.turned_away(tick, recorded_at).state.mode == Mode::Isolated,
        node.turned_away(tick, recorded_at).reconnect is None,
{
    reveal(NodeView::turned_away);
}

/// Before its last attempt a node that is not let in starts over.
pub proof fn law_earlier_attempt_starts_over(node: NodeView, tick: u64, recorded_at: u64)
    requires
        node.reconnect is Some,
        node.reconnect->0.attempts + 1 < node.config.security.max_reconnect_attempts,
    ensures
        node.turned_away(tick, recorded_at).state == node.state,
        node.turned_away(tick, recorded_at).reconnect == Some(
            ReconnectView {
                attempts: (node.reconnect->0.attempts + 1) as u32,
                confirmed_by: Set::empty(),
                ..node.reconnect->0
            },
        ),
{
    reveal(NodeView::turned_away);
}

/// Coming back changes neither the node's id nor its settings.
pub(crate) proof fn lemma_reconnected_keeps(node: NodeView, tick: u64, recorded_at: u64)
    ensures
        node.reconnected(tick, recorded_at).id == node.id,
        node.reconnected(tick, recorded_at).config == node.config,
        node.reconnected(tick, recorded_at).pending_ai_decisions == node.pending_ai_decisions,
{
    reveal(NodeView::reconnected);
}

/// A failed attempt changes neither the node's id nor its settings.
pub(crate) proof fn lemma_turned_away_keeps(node: NodeView, tick: u64, recorded_at: u64)
    ensures
        node.turned_away(tick, recorded_at).id == node.id,
        node.turned_away(tick, recorded_at).config == node.config,
        node.turned_away(tick, recorded_at).pending_ai_decisions == node.pending_ai_decisions,
{
    reveal(NodeView::turned_away);
}

} // verus!
