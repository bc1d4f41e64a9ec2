//! What a node tells its neighbours and what it takes from them.

use std::collections::VecDeque;

use vstd::prelude::*;

use crate::ai_module::{neighbor_features, suspects, AIFeatureBuilder, NeighborAIInput, NeighborInputView};
use crate::config::Config;
use crate::network::topology_map::{Link, NodeSnapshot, NodeSnapshotView};
use crate::node::heuristics::proposed;
use crate::node::signals::{
    all_of, all_signals, count_sources, fresh, referred, select, signal_views, sources, };
use crate::node::{HistoryView, Mode, NeighborHistory, Node, NodeSignal, NodeView, SignalType, SignalView};
use crate::persistence::since;
use crate::proposal::{Proposal, ProposalAction, ProposalView};
use crate::single::{Single, ONE};
use crate::text::is_text;

verus! {

broadcast use vstd::std_specs::hash::group_hash_axioms;

/// The pattern of 0.9: what a relay leaves of a snapshot's confidence.
pub const RELAY_SHARE: u32 = 0x3f66_6666;

/// The pattern of 0.1: the least confidence of a relayed snapshot.
pub const LEAST_CONFIDENCE: u32 = 0x3dcc_cccd;

/// The pattern of 0.4: what a finding that may come from others adds to a neighbour's threat score.
pub const PASSED_ON: u32 = 0x3ecc_cccd;

/// The pattern of 0.7: what a finding of its own adds to a neighbour's threat score.
pub const OWN_FINDING: u32 = 0x3f33_3333;

/// The pattern of 0.2: what a failed login, or an alarm, adds to a neighbour's threat score.
pub const FAILED_LOGIN: u32 = 0x3e4c_cccd;

/// The list has this id in it.
pub(crate) fn has_id(ids: &Vec<u32>, id: u32) -> (b: bool)
    ensures
        b == ids@.contains(id),
{
    let mut i: usize = 0;
    while i < ids.len()
        invariant
            i <= ids@.len(),
            forall|k: int| 0 <= k < i ==> ids@[k] != id,
        decreases ids@.len() - i,
    {
        if ids[i] == id {
            assert(ids@[i as int] == id);
            return true;
        }
        i = i + 1;
    }
    false
}

pub open spec fn neighbor_input_views(inputs: Seq<NeighborAIInput>) -> Seq<NeighborInputView> {
    inputs.map_values(|x: NeighborAIInput| x@)
}

/// The ids of the nodes, by position.
pub open spec fn node_ids(nodes: Seq<Node>) -> Seq<u32> {
    nodes.map_values(|n: Node| n.id)
}

/// The link leads from the node with this id.
pub open spec fn leads_from(l: Link, id: u32) -> bool {
    l.active && l.from == id - 1
}

/// The nodes at the other end of the active links of the node `id`.
pub open spec fn linked_ids(id: u32, links: Seq<Link>, ids: Seq<u32>) -> Seq<u32> {
    links.filter(|l: Link| leads_from(l, id)).map_values(|l: Link| ids[l.to as int])
}

/// A list with one more at its end and, where that is more than `most`, without its first.
pub open spec fn pushed<T>(s: Seq<T>, x: T, most: usize) -> Seq<T> {
    if s.len() + 1 > most {
        s.push(x).drop_first()
    } else {
        s.push(x)
    }
}

/// What is known of the neighbour.
pub open spec fn history_of(histories: Map<u32, HistoryView>, id: u32) -> HistoryView {
    if histories.contains_key(id) { histories[id] } else { HistoryView::nothing() }
}

/// What is known of the neighbours after the first `n` votes: each counts as one suspicion more of the
/// one that it is against.
pub open spec fn blamed(histories: Map<u32, HistoryView>, votes: Seq<SignalView>, n: nat) -> Map<u32, HistoryView>
    decreases n,
{
    if n == 0 {
        histories
    } else {
        let before = blamed(histories, votes, (n - 1) as nat);
        match votes[n - 1].target_id {
            Some(id) => before.insert(id, history_of(before, id).suspected()),
            None => before,
        }
    }
}

impl HistoryView {
    /// The history with one suspicion more; the count stays at its largest value.
    pub open spec fn suspected(self) -> HistoryView {
        HistoryView {
            suspicion_votes_cast: if self.suspicion_votes_cast < u32::MAX {
                (self.suspicion_votes_cast + 1) as u32
            } else {
                self.suspicion_votes_cast
            },
            ..self
        }
    }

    /// The history after a signal.
    pub open spec fn with(self, signal: SignalView, current_tick: u64, most: usize) -> HistoryView {
        let changed = match self.last_signal {
            Some(p) => p.mode != signal.mode,
            None => true,
        };
        HistoryView {
            last_signal: Some(signal),
            mode_entered_tick: if changed { current_tick } else { self.mode_entered_tick },
            recent_timestamps: pushed(self.recent_timestamps, current_tick, most),
            times_isolated: if changed && signal.mode == Mode::Isolated && self.times_isolated < u32::MAX {
                (self.times_isolated + 1) as u32
            } else {
                self.times_isolated
            },
            ..self
        }
    }
}

/// The findings that a node may have caught from its neighbours.
pub open spec fn passed_on(finding: Seq<char>) -> bool {
    ||| finding == "peer_consensus_isolation"@
    ||| finding == "neighbor_cascade_failure"@
    ||| finding == "reconnect_timeout_failure"@
}

/// The findings of a compromised node.
pub open spec fn compromised(finding: Seq<char>) -> bool {
    ||| finding == "malware_detected"@
    ||| finding == "auth_bruteforce_detected"@
    ||| finding == "integrity_violation"@
}

/// The sum, where the condition holds.
pub open spec fn plus_if(b: bool, x: Single, y: Single) -> Single {
    if b { x.sum(y) } else { x }
}

/// A neighbour's threat score as it follows from its signal alone.
pub open spec fn estimated_threat(signal: SignalView, cfg: Config) -> Single {
    let first = plus_if(passed_on(signal.ai_state_reason), signal.threat_score, Single { bits: PASSED_ON });
    let second = plus_if(compromised(signal.ai_state_reason), first, Single { bits: OWN_FINDING });
    let third = plus_if(
        signal.failed_auth_count > cfg.security.max_failed_auth,
        second,
        Single { bits: FAILED_LOGIN }.product(Single::whole(signal.failed_auth_count as nat)),
    );
    let fourth = plus_if(
        signal.signal_type == SignalType::Alert || signal.signal_type == SignalType::Isolation,
        third,
        Single { bits: FAILED_LOGIN },
    );
    fourth.smaller(Single { bits: ONE })
}

/// A neighbour's threat score: what the model says, or an estimate where it does not answer.
pub open spec fn assessed_threat(signal: SignalView, cfg: Config, reply: Option<Single>) -> Single {
    match reply {
        Some(score) => score,
        None => estimated_threat(signal, cfg),
    }
}

/// The node `id` judges the sender by this signal.
pub open spec fn watches(x: SignalView, id: u32, tick: u64, ttl: u64) -> bool {
    fresh(x, tick, ttl) && x.source_id != id && x.target_id != Some(id)
}

/// The `i`th reply; none where the list is too short.
pub open spec fn reply_at(replies: Seq<Option<Single>>, i: int) -> Option<Single> {
    if 0 <= i < replies.len() { replies[i] } else { None }
}

impl NodeView {
    /// A signal of the node in its present state.
    pub open spec fn signal(self, target_id: Option<u32>, signal_type: SignalType, tick: u64) -> SignalView {
        SignalView {
            source_id: self.id,
            target_id,
            mode: self.state.mode,
            load: self.state.load,
            active_connections: self.state.active_connections,
            failed_auth_count: self.state.failed_auth_count,
            threat_score: self.state.last_threat_score,
            ai_state_reason: self.state.ai_state_reason,
            signal_type,
            timestamp: tick,
        }
    }

    /// The node has a snapshot of that node that is at least as new.
    pub open spec fn knows(self, snap: NodeSnapshotView) -> bool {
        let map = self.topology_map.snapshots;
        map.contains_key(snap.node_id) && map[snap.node_id].timestamp >= snap.timestamp
    }

    /// What the node tells its neighbours about itself.
    pub open spec fn broadcast_type(self) -> SignalType {
        match self.state.mode {
            Mode::Normal => SignalType::Normal,
            Mode::Isolated => SignalType::Isolation,
            Mode::Throttled => if self.state.load > self.config.node_defaults.load {
                SignalType::LoadReduced
            } else {
                SignalType::Normal
            },
            Mode::Boosted => SignalType::LoadBoosted,
            Mode::Degraded => SignalType::Alert,
            Mode::Reconnecting => SignalType::ReconnectRequest,
        }
    }

    /// The signals by which the node judges its neighbours: fresh ones, not its own and not
    /// addressed to it.
    pub open spec fn watched(self, tick: u64) -> Seq<SignalView> {
        all_of(self.neighbor_signals).filter(
            |x: SignalView| watches(x, self.id, tick, self.config.security.stale_ttl),
        )
    }

    /// What the neighbour model is to be asked, one question for each watched signal.
    pub open spec fn suspicion_questions(self, tick: u64) -> Seq<NeighborInputView> {
        self.watched(tick).map_values(
            |x: SignalView|
                neighbor_features(
                    x,
                    tick,
                    history_of(self.neighbor_history, x.source_id),
                    self.neighbor_signals,
                    self.config.security.stale_ttl,
                ),
        )
    }

    /// A vote against a neighbour.
    pub open spec fn accusation(self, accused: u32, threat: Single, tick: u64) -> SignalView {
        SignalView { threat_score: threat, ..self.signal(Some(accused), SignalType::PeerSuspicion, tick) }
    }

    /// The votes that follow from the first `n` watched signals.
    pub open spec fn accusations(self, tick: u64, replies: Seq<Option<Single>>, n: nat) -> Seq<SignalView>
        decreases n,
    {
        if n == 0 {
            seq![]
        } else {
            let before = self.accusations(tick, replies, (n - 1) as nat);
            let x = self.watched(tick)[n - 1];
            let threat = assessed_threat(x, self.config, reply_at(replies, n - 1));
            if self.config.security.threat_score_isolation.at_most(threat) && x.mode != Mode::Isolated {
                before.push(self.accusation(x.source_id, threat, tick))
            } else {
                before
            }
        }
    }

    /// The node after it has cast its votes: it remembers whom it has suspected.
    pub open spec fn accusing(self, tick: u64, replies: Seq<Option<Single>>) -> NodeView {
        let votes = self.accusations(tick, replies, self.watched(tick).len());
        NodeView { neighbor_history: blamed(self.neighbor_history, votes, votes.len()), ..self }
    }

    /// Who votes against the node in this tick.
    pub open spec fn accusers(self, current_tick: u64) -> Set<u32> {
        sources(all_of(self.neighbor_signals).filter(|x: SignalView| suspects(x, self.id, current_tick)))
    }

    /// How many votes isolate the node: two thirds of its neighbours, and the configured number at
    /// least.
    pub open spec fn isolation_threshold(self) -> int {
        let two_thirds = (2 * self.neighbor_ids.len() + 2) as int / 3;
        let least = self.config.security.peer_suspicion_threshold as int;
        if two_thirds < least { least } else { two_thirds }
    }

    /// The neighbours' verdict on the node.
    pub open spec fn consensus_proposal(self, current_tick: u64) -> Option<ProposalView> {
        if self.neighbor_ids.len() > 0 && self.accusers(current_tick).len() >= self.isolation_threshold() {
            Some(
                ProposalView {
                    action: ProposalAction::EnterIsolation,
                    threat_score: Single { bits: ONE },
                    predicted_state: "peer_consensus_isolation"@,
                    event_reason: "Multiple neighbors flagged this node as compromised"@,
                    confidence: Single { bits: ONE },
                },
            )
        } else {
            None
        }
    }

    /// The node takes signals of this source.
    pub open spec fn listens_to(self, source_id: u32) -> bool {
        self.neighbor_ids.contains(source_id) || self.neighbor_history.contains_key(source_id)
    }

    /// The node after a signal has come: stale ones and those of strangers are dropped.
    pub open spec fn received(self, signal: SignalView, current_tick: u64) -> NodeView {
        let sec = self.config.security;
        let id = signal.source_id;
        if !fresh(signal, current_tick, sec.stale_ttl) || !self.listens_to(id) {
            self
        } else {
            let bucket = if self.neighbor_signals.contains_key(id) { self.neighbor_signals[id] } else { seq![] };
            NodeView {
                neighbor_history: self.neighbor_history.insert(
                    id,
                    history_of(self.neighbor_history, id).with(signal, current_tick, sec.max_len_neighbor_signals),
                ),
                neighbor_signals: self.neighbor_signals.insert(
                    id,
                    pushed(bucket, signal, sec.max_count_signals_from_neighbor),
                ),
                ..self
            }
        }
    }
}

impl Node {
    /// A signal of the node in its present state.
    pub(crate) fn new_signal(&self, target_id: Option<u32>, signal_type: SignalType, tick: u64) -> (s: NodeSignal)
        ensures
            s@ == self@.signal(target_id, signal_type, tick),
    {
        NodeSignal {
            source_id: self.id,
            target_id,
            mode: self.state.mode,
            load: self.state.load,
            active_connections: self.state.active_connections,
            failed_auth_count: self.state.failed_auth_count,
            threat_score: self.state.last_threat_score,
            ai_state_reason: self.state.ai_state_reason.clone(),
            signal_type,
            timestamp: tick,
        }
    }

    /// The node's links, for the others' maps.
    pub fn broadcast_lsa(&self, current_tick: u64, links: &Vec<Link>, nodes: &Vec<Node>) -> (snap: NodeSnapshot)
        requires
            self.id >= 1,
            forall|i: int|
                0 <= i < links@.len() && leads_from(#[trigger] links@[i], self.id) ==> links@[i].to < nodes@.len(),
        ensures
            snap@ == (NodeSnapshotView {
                node_id: self.id,
                neighbors: linked_ids(self.id, links@, node_ids(nodes@)),
                timestamp: current_tick,
                confidence: Single { bits: ONE },
            }),
    {
        NodeSnapshot {
            node_id: self.id,
            neighbors: self.current_neighbors(links, nodes),
            timestamp: current_tick,
            confidence: Single { bits: ONE },
        }
    }

    /// Takes a snapshot of another node in as it came and hands on what is to be relayed, with a little
    /// less confidence, unless the node knows as much already.
    pub fn receive_lsa(&mut self, snap: NodeSnapshot, current_tick: u64) -> (relayed: Option<NodeSnapshot>)
        ensures
            relayed is None <==> old(self)@.knows(snap@),
            relayed is None ==> final(self)@ == old(self)@,
            relayed matches Some(r) ==> {
                &&& r@ == (NodeSnapshotView {
                    confidence: snap.confidence.product(Single { bits: RELAY_SHARE }).larger(
                        Single { bits: LEAST_CONFIDENCE },
                    ),
                    ..snap@
                })
                &&& final(self)@ == (NodeView {
                    topology_map: old(self)@.topology_map.merged(snap@, current_tick),
                    ..old(self)@
                })
            },
    {
        let known = match self.topology_map.snapshots.get(&snap.node_id) {
            Some(existing) => existing.timestamp >= snap.timestamp,
            None => false,
        };
        if known {
            return None;
        }
        let mut relayed = snap.clone();
        relayed.confidence = snap.confidence.times(Single { bits: RELAY_SHARE }).max(Single { bits: LEAST_CONFIDENCE });
        self.topology_map.merge(snap, current_tick);
        Some(relayed)
    }

    /// The ids of the nodes to which the node has an active link.
    pub fn current_neighbors(&self, links: &Vec<Link>, nodes: &Vec<Node>) -> (ids: Vec<u32>)
        requires
            self.id >= 1,
            forall|i: int|
                0 <= i < links@.len() && leads_from(#[trigger] links@[i], self.id) ==> links@[i].to < nodes@.len(),
        ensures
            ids@ == linked_ids(self.id, links@, node_ids(nodes@)),
    {
        let mut ids: Vec<u32> = Vec::new();
        let mut i: usize = 0;
        let ghost p = |l: Link| leads_from(l, self.id);
        let ghost f = |l: Link| node_ids(nodes@)[l.to as int];
        proof {
            reveal(Seq::filter);
            assert(links@.take(0) =~= seq![]);
            assert(ids@ =~= links@.take(0).filter(p).map_values(f));
        }
        while i < links.len()
            invariant
                i <= links@.len(),
                self.id >= 1,
                forall|k: int|
                    0 <= k < links@.len() && leads_from(#[trigger] links@[k], self.id) ==> links@[k].to < nodes@.len(),
                p == (|l: Link| leads_from(l, self.id)),
                f == (|l: Link| node_ids(nodes@)[l.to as int]),
                ids@ == links@.take(i as int).filter(p).map_values(f),
            decreases links@.len() - i,
        {
            let l: Link = links[i];
            proof {
                assert(links@.take(i + 1) =~= links@.take(i as int).push(l));
                crate::network::topology_map::lemma_filter_push(links@.take(i as int), l, p);
            }
            if l.active && l.from as u64 == self.id as u64 - 1 {
                assert(leads_from(links@[i as int], self.id));
                let ghost before = links@.take(i as int).filter(p);
                ids.push(nodes[l.to].id);
                assert(before.push(l).map_values(f) =~= before.map_values(f).push(f(l)));
            }
            i = i + 1;
        }
        assert(links@.take(i as int) =~= links@);
        ids
    }

    /// What the node tells all of its neighbours in every tick.
    pub fn generate_broadcast_signal(&self, tick: u64) -> (s: NodeSignal)
        ensures
            s@ == self@.signal(None, self@.broadcast_type(), tick),
    {
        let signal_type = match self.state.mode {
            Mode::Normal => SignalType::Normal,
            Mode::Isolated => SignalType::Isolation,
            Mode::Throttled => if self.state.load > self.config.node_defaults.load {
                SignalType::LoadReduced
            } else {
                SignalType::Normal
            },
            Mode::Boosted => SignalType::LoadBoosted,
            Mode::Degraded => SignalType::Alert,
            Mode::Reconnecting => SignalType::ReconnectRequest,
        };
        self.new_signal(None, signal_type, tick)
    }

    fn watched_signals(&self, tick: u64) -> (list: Vec<&NodeSignal>)
        ensures
            referred(list@) == self@.watched(tick),
    {
        let id: u32 = self.id;
        let ttl: u64 = self.config.security.stale_ttl;
        let all = all_signals(&self.neighbor_signals);
        let keep = |x: &NodeSignal| -> (b: bool)
            ensures
                b == watches(x@, id, tick, ttl),
            { tick.saturating_sub(x.timestamp) <= ttl && x.source_id != id && x.target_id != Some(id) };
        select(&all, keep, Ghost(|x: SignalView| watches(x, id, tick, ttl)))
    }

    /// What the neighbour model is to be asked, one question for each watched signal.
    pub fn suspicion_inputs(&self, tick: u64) -> (inputs: Vec<NeighborAIInput>)
        ensures
            neighbor_input_views(inputs@) == self@.suspicion_questions(tick),
    {
        let list = self.watched_signals(tick);
        let ghost node = self@;
        assert(referred(list@).len() == list@.len());
        let mut inputs: Vec<NeighborAIInput> = Vec::new();
        let mut i: usize = 0;
        while i < list.len()
            invariant
                i <= list@.len(),
                node == self@,
                referred(list@) == node.watched(tick),
                referred(list@).len() == list@.len(),
                inputs@.len() == i,
                forall|k: int|
                    0 <= k < i ==> (#[trigger] inputs@[k])@ == neighbor_features(
                        node.watched(tick)[k],
                        tick,
                        history_of(node.neighbor_history, node.watched(tick)[k].source_id),
                        node.neighbor_signals,
                        node.config.security.stale_ttl,
                    ),
            decreases list@.len() - i,
        {
            let s: &NodeSignal = list[i];
            assert(s@ == node.watched(tick)[i as int]);
            let ttl: u64 = self.config.security.stale_ttl;
            let input = match self.neighbor_history.get(&s.source_id) {
                Some(history) => AIFeatureBuilder::build_neighbour_signs(s, tick, history, &self.neighbor_signals, ttl),
                None => {
                    let nothing: NeighborHistory = NeighborHistory::default();
                    AIFeatureBuilder::build_neighbour_signs(s, tick, &nothing, &self.neighbor_signals, ttl)
                },
            };
            inputs.push(input);
            i = i + 1;
        }
        assert(neighbor_input_views(inputs@) =~= node.suspicion_questions(tick));
        inputs
    }

    /// Votes against the neighbours that are a threat, given the neighbour model's replies to
    /// [`Node::suspicion_inputs`], `None` where it did not answer. The node remembers whom it has
    /// suspected.
    pub fn generate_peer_suspicion_signals(&mut self, tick: u64, replies: &Vec<Option<Single>>) -> (votes: Vec<
        NodeSignal,
    >)
        ensures
            signal_views(votes@) == old(self)@.accusations(tick, replies@, old(self)@.watched(tick).len()),
            final(self)@ == old(self)@.accusing(tick, replies@),
    {
        let ghost node = self@;
        let votes = self.suspicions(tick, replies);
        let ghost all = signal_views(votes@);
        let mut i: usize = 0;
        while i < votes.len()
            invariant
                i <= votes@.len(),
                all == signal_views(votes@),
                self@ == (NodeView { neighbor_history: blamed(node.neighbor_history, all, i as nat), ..node }),
            decreases votes@.len() - i,
        {
            assert(all[i as int] == votes@[i as int]@);
            match votes[i].target_id {
                Some(id) => {
                    let ghost before = self@.neighbor_history;
                    assert(before.contains_key(id) == self.neighbor_history@.contains_key(id));
                    let mut history: NeighborHistory = match self.neighbor_history.remove(&id) {
                        Some(h) => h,
                        None => NeighborHistory::default(),
                    };
                    assert(history@ == history_of(before, id));
                    history.suspicion_votes_cast = history.suspicion_votes_cast.saturating_add(1);
                    let ghost h = history@;
                    assert(h =~= history_of(before, id).suspected());
                    self.neighbor_history.insert(id, history);
                    assert(self@.neighbor_history =~= before.insert(id, h));
                },
                None => {},
            }
            i = i + 1;
        }
        votes
    }

    /// The votes that the node has reason to cast.
    fn suspicions(&self, tick: u64, replies: &Vec<Option<Single>>) -> (votes: Vec<NodeSignal>)
        ensures
            signal_views(votes@) == self@.accusations(tick, replies@, self@.watched(tick).len()),
    {
        let list = self.watched_signals(tick);
        let ghost node = self@;
        assert(referred(list@).len() == list@.len());
        let mut votes: Vec<NodeSignal> = Vec::new();
        assert(signal_views(votes@) =~= node.accusations(tick, replies@, 0));
        let mut i: usize = 0;
        while i < list.len()
            invariant
                i <= list@.len(),
                node == self@,
                referred(list@) == node.watched(tick),
                signal_views(votes@) == node.accusations(tick, replies@, i as nat),
            decreases list@.len() - i,
        {
            let s: &NodeSignal = list[i];
            assert(s@ == node.watched(tick)[i as int]);
            let reply = if i < replies.len() { replies[i] } else { None };
            let threat = Self::assess_neighbor_threat(s, &self.config, reply);
            let ghost before = votes@;
            if threat.ge(self.config.security.threat_score_isolation) && s.mode != Mode::Isolated {
                let mut vote = self.new_signal(Some(s.source_id), SignalType::PeerSuspicion, tick);
                vote.threat_score = threat;
                assert(vote@ =~= node.accusation(s.source_id, threat, tick));
                votes.push(vote);
                assert(signal_views(votes@) =~= signal_views(before).push(vote@));
            }
            i = i + 1;
        }
        votes
    }

    /// How much of a threat a neighbour is, by its signal: the model's reply, or an estimate where
    /// it did not answer.
    pub fn assess_neighbor_threat(signal: &NodeSignal, cfg: &Config, reply: Option<Single>) -> (threat: Single)
        ensures
            threat == assessed_threat(signal@, *cfg, reply),
    {
        match reply {
            Some(score) => score,
            None => {
                let finding = &signal.ai_state_reason;
                let mut score = signal.threat_score;
                if is_text(finding, "peer_consensus_isolation") || is_text(finding, "neighbor_cascade_failure")
                    || is_text(finding, "reconnect_timeout_failure") {
                    score = score.plus(Single { bits: PASSED_ON });
                }
                if is_text(finding, "malware_detected") || is_text(finding, "auth_bruteforce_detected") || is_text(
                    finding,
                    "integrity_violation",
                ) {
                    score = score.plus(Single { bits: OWN_FINDING });
                }
                if signal.failed_auth_count > cfg.security.max_failed_auth {
                    score = score.plus(
                        Single { bits: FAILED_LOGIN }.times(Single::from_whole(signal.failed_auth_count as u64)),
                    );
                }
                if matches!(signal.signal_type, SignalType::Alert | SignalType::Isolation) {
                    score = score.plus(Single { bits: FAILED_LOGIN });
                }
                score.min(Single { bits: ONE })
            },
        }
    }

    /// Takes the pending fact out and makes it advice for the neighbours.
    pub fn take_load_advisory_signal(&mut self, tick: u64) -> (s: Option<NodeSignal>)
        ensures
            final(self)@ == (NodeView {
                state: crate::node::StateView { pending_load_signal: None, ..old(self)@.state },
                ..old(self)@
            }),
            s is Some <==> old(self).state.pending_load_signal is Some,
            s matches Some(advice) ==> advice@ == old(self)@.signal(
                None,
                match old(self).state.pending_load_signal->0 {
                    SignalType::LoadReduced => SignalType::ReduceLoad,
                    SignalType::LoadBoosted => SignalType::BoostLoad,
                    other => other,
                },
                tick,
            ),
    {
        match self.state.pending_load_signal.take() {
            Some(fact) => {
                let advice = match fact {
                    SignalType::LoadReduced => SignalType::ReduceLoad,
                    SignalType::LoadBoosted => SignalType::BoostLoad,
                    other => other,
                };
                Some(self.new_signal(None, advice, tick))
            },
            None => None,
        }
    }

    /// Isolates the node where two thirds of its neighbours vote against it in this tick.
    pub fn process_incoming_signals(&self, current_tick: u64) -> (p: Option<Proposal>)
        ensures
            proposed(p) == self@.consensus_proposal(current_tick),
    {
        let id: u32 = self.id;
        let all = all_signals(&self.neighbor_signals);
        let voted = |x: &NodeSignal| -> (b: bool)
            ensures
                b == suspects(x@, id, current_tick),
            {
                x.signal_type == SignalType::PeerSuspicion && x.target_id == Some(id) && x.timestamp == current_tick
            };
        let votes = select(&all, voted, Ghost(|x: SignalView| suspects(x, id, current_tick)));
        let accusers: usize = count_sources(&votes);
        let n: usize = self.neighbor_ids.len();
        let two_thirds: usize = n - n / 3;
        assert(two_thirds == (2 * n + 2) / 3);
        let least: usize = self.config.security.peer_suspicion_threshold;
        let threshold: usize = if two_thirds < least { least } else { two_thirds };
        if n > 0 && accusers >= threshold {
            return Some(
                Proposal {
                    action: ProposalAction::EnterIsolation,
                    threat_score: Single { bits: ONE },
                    predicted_state: "peer_consensus_isolation".to_string(),
                    event_reason: "Multiple neighbors flagged this node as compromised".to_string(),
                    confidence: Single { bits: ONE },
                },
            );
        }
        None
    }

    /// Takes a signal in, unless it is stale or comes from a stranger.
    pub fn receive_signal(&mut self, signal: NodeSignal, current_tick: u64)
        ensures
            final(self)@ == old(self)@.received(signal@, current_tick),
    {
        let ghost node = self@;
        let ghost told_signal = signal@;
        let id: u32 = signal.source_id;
        if current_tick.saturating_sub(signal.timestamp) > self.config.security.stale_ttl {
            return;
        }
        assert(self@.neighbor_history.contains_key(id) == self.neighbor_history@.contains_key(id));
        if !has_id(&self.neighbor_ids, id) && !self.neighbor_history.contains_key(&id) {
            return;
        }
        let mut history: NeighborHistory = match self.neighbor_history.remove(&id) {
            Some(h) => h,
            None => NeighborHistory::default(),
        };
        assert(history@ == history_of(node.neighbor_history, id));
        let changed = match &history.last_signal {
            Some(p) => p.mode != signal.mode,
            None => true,
        };
        if changed {
            history.mode_entered_tick = current_tick;
            if signal.mode == Mode::Isolated {
                history.times_isolated = history.times_isolated.saturating_add(1);
            }
        }
        history.recent_timestamps.push_back(current_tick);
        if history.recent_timestamps.len() > self.config.security.max_len_neighbor_signals {
            history.recent_timestamps.pop_front();
        }
        history.last_signal = Some(signal.clone());
        let ghost new_history = history@;
        assert(new_history.recent_timestamps =~= pushed(
            history_of(node.neighbor_history, id).recent_timestamps,
            current_tick,
            self.config.security.max_len_neighbor_signals,
        ));
        self.neighbor_history.insert(id, history);

        let mut bucket: VecDeque<NodeSignal> = match self.neighbor_signals.remove(&id) {
            Some(q) => q,
            None => VecDeque::new(),
        };
        let ghost old_bucket = if node.neighbor_signals.contains_key(id) { node.neighbor_signals[id] } else { seq![] };
        assert(signal_views(bucket@) =~= old_bucket);
        bucket.push_back(signal);
        assert(signal_views(bucket@) =~= old_bucket.push(told_signal));
        if bucket.len() > self.config.security.max_count_signals_from_neighbor {
            bucket.pop_front();
        }
        let ghost new_bucket = signal_views(bucket@);
        assert(new_bucket =~= pushed(
            old_bucket,
            told_signal,
            self.config.security.max_count_signals_from_neighbor,
        ));
        self.neighbor_signals.insert(id, bucket);
        proof {
            assert(self@.neighbor_history =~= node.neighbor_history.insert(id, new_history));
            assert(self@.neighbor_signals =~= node.neighbor_signals.insert(id, new_bucket));
            assert(self@ =~= node.received(told_signal, current_tick));
        }
    }
}

/// A node keeps no more signals of a neighbour than it is set to, once it keeps no more.
pub proof fn law_signals_bounded(node: NodeView, signal: SignalView, current_tick: u64, id: u32)
    requires
        node.neighbor_signals.contains_key(id) ==> node.neighbor_signals[id].len()
            <= node.config.security.max_count_signals_from_neighbor,
    ensures
        node.received(signal, current_tick).neighbor_signals.contains_key(id) ==> node.received(
            signal,
            current_tick,
        ).neighbor_signals[id].len() <= node.config.security.max_count_signals_from_neighbor,
{
}

/// A signal that is stale or comes from a stranger changes nothing.
pub proof fn law_unwanted_signal(node: NodeView, signal: SignalView, current_tick: u64)
    requires
        since(current_tick, signal.timestamp) > node.config.security.stale_ttl || !node.listens_to(signal.source_id),
    ensures
        node.received(signal, current_tick) == node,
{
}

/// Where the model does not answer, a neighbour is taken for a threat of one at most.
pub proof fn law_estimate_at_most_one(signal: SignalView, cfg: Config)
    ensures
        estimated_threat(signal, cfg).at_most(Single { bits: ONE }),
{
}

/// A node votes only against senders of signals that it watches, never against one that is isolated
/// by then, and only where the score is reason enough.
pub proof fn law_accusations(node: NodeView, tick: u64, replies: Seq<Option<Single>>, n: nat)
    requires
        n <= node.watched(tick).len(),
    ensures
        forall|i: int|
            #![trigger node.accusations(tick, replies, n)[i]]
            0 <= i < node.accusations(tick, replies, n).len() ==> {
                let vote = node.accusations(tick, replies, n)[i];
                &&& vote.source_id == node.id
                &&& vote.signal_type == SignalType::PeerSuspicion
                &&& node.config.security.threat_score_isolation.at_most(vote.threat_score)
                &&& exists|k: int|
                    0 <= k < n && vote.target_id == Some((#[trigger] node.watched(tick)[k]).source_id) && node.watched(
                        tick,
                    )[k].mode != Mode::Isolated
            },
    decreases n,
{
    if n > 0 {
        let m = (n - 1) as nat;
        law_accusations(node, tick, replies, m);
        let before = node.accusations(tick, replies, m);
        let after = node.accusations(tick, replies, n);
        assert forall|i: int| #![trigger after[i]] 0 <= i < after.len() implies {
            let vote = after[i];
            &&& vote.source_id == node.id
            &&& vote.signal_type == SignalType::PeerSuspicion
            &&& node.config.security.threat_score_isolation.at_most(vote.threat_score)
            &&& exists|k: int|
                0 <= k < n && vote.target_id == Some((#[trigger] node.watched(tick)[k]).source_id) && node.watched(
                    tick,
                )[k].mode != Mode::Isolated
        } by {
            if i < before.len() {
                assert(after[i] == before[i]);
            } else {
                assert(after[i].target_id == Some(node.watched(tick)[m as int].source_id));
            }
        }
    }
}

/// How many of the first `n` votes are against the node `id`.
pub open spec fn votes_against(votes: Seq<SignalView>, id: u32, n: nat) -> nat
    decreases n,
{
    if n == 0 {
        0
    } else {
        votes_against(votes, id, (n - 1) as nat) + if votes[n - 1].target_id == Some(id) { 1nat } else { 0 }
    }
}

/// A node counts how often it has suspected each neighbour: once for every vote that it casts, up to the
/// largest count; of the rest of what it remembers nothing changes.
pub proof fn law_suspicions_are_counted(node: NodeView, tick: u64, replies: Seq<Option<Single>>, id: u32)
    ensures
        ({
            let votes = node.accusations(tick, replies, node.watched(tick).len());
            let before = history_of(node.neighbor_history, id);
            let after = history_of(node.accusing(tick, replies).neighbor_history, id);
            let sum = before.suspicion_votes_cast + votes_against(votes, id, votes.len());
            &&& after.suspicion_votes_cast == if sum > u32::MAX { u32::MAX as int } else { sum }
            &&& after == HistoryView { suspicion_votes_cast: after.suspicion_votes_cast, ..before }
        }),
{
    let votes = node.accusations(tick, replies, node.watched(tick).len());
    lemma_blamed(node.neighbor_history, votes, votes.len(), id);
}

proof fn lemma_blamed(histories: Map<u32, HistoryView>, votes: Seq<SignalView>, n: nat, id: u32)
    ensures
        ({
            let before = history_of(histories, id);
            let after = history_of(blamed(histories, votes, n), id);
            let sum = before.suspicion_votes_cast + votes_against(votes, id, n);
            &&& after.suspicion_votes_cast == if sum > u32::MAX { u32::MAX as int } else { sum }
            &&& after == HistoryView { suspicion_votes_cast: after.suspicion_votes_cast, ..before }
        }),
    decreases n,
{
    if n > 0 {
        lemma_blamed(histories, votes, (n - 1) as nat, id);
    }
}

} // verus!
