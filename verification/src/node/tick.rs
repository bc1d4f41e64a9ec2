//! One tick of a node.
//!
//! A tick runs in two steps, because a node may need an answer of its model in the middle: the first
//! says what is to be asked, if anything, and the second takes the reply.

use std::collections::HashSet;

use vstd::prelude::*;

use crate::ai_module::{self_features, AIFeatureBuilder, AIOutput};
use crate::executor::carried_out;
use crate::node::ai_processes::{model_source, predicted_by_model, recommendation};
use crate::node::heuristics::proposed;
use crate::node::{
    ai_decision_views, DecisionRecord, DecisionView, Mode, Node, NodeView, ReconnectState, ReconnectView, StateView,
};
use crate::persistence::{since, AiDecisionEntry, AiDecisionView, ChangeView, DecisionSource, SourceView, StateChange};
use crate::proposal::{Proposal, ProposalAction, ProposalView};
use crate::single::{Single, ONE};
use crate::supervisor::{adjustable, security_threat, strained};
use crate::text::{decimal, push_decimal};

verus! {

broadcast use vstd::std_specs::hash::group_hash_axioms;

/// What a tick needs its model for.
#[derive(Debug, Clone, Copy, PartialEq, Eq, Structural)]
pub enum Asking {
    /// The tick is over.
    Nothing,
    /// The node is isolated and checks itself.
    SelfCheck,
    /// No other proposal was carried out.
    Prediction,
}

pub open spec fn waiting_decision(node: NodeView, tick: u64) -> DecisionView {
    DecisionView {
        tick,
        proposal: ProposalView {
            action: ProposalAction::DoNothing,
            threat_score: node.state.last_threat_score,
            predicted_state: "recovery_conditions_met"@,
            event_reason: "Waiting for reconnect quorum from neighbors"@,
            confidence: Single { bits: ONE },
        },
        allowed: true,
        reason: "Waiting for neighbor acks"@,
    }
}

pub open spec fn holding_decision(node: NodeView, tick: u64) -> DecisionView {
    DecisionView {
        tick,
        proposal: ProposalView {
            action: ProposalAction::DoNothing,
            threat_score: node.state.last_threat_score,
            predicted_state: "calibration_hold"@,
            event_reason: "Holding calibration state for "@ + decimal(node.state.load_hold_ticks_left as nat)
                + " more tick(s)"@,
            confidence: Single { bits: ONE },
        },
        allowed: true,
        reason: "Load calibration hold period"@,
    }
}

pub open spec fn extending_decision(node: NodeView, tick: u64) -> DecisionView {
    DecisionView {
        tick,
        proposal: ProposalView {
            action: ProposalAction::DoNothing,
            threat_score: node.state.last_threat_score,
            predicted_state: "calibration_hold_extended"@,
            event_reason: node.state.mode.text()
                + " hold expired but direct pressure signals persist — extending hold"@,
            confidence: Single { bits: ONE },
        },
        allowed: true,
        reason: "Hysteresis: active broadcast signals"@,
    }
}

impl NodeView {
    /// The node with one record more of a decision that changed nothing.
    pub open spec fn remarked(self, decision: DecisionView, source: SourceView, recorded_at: u64) -> NodeView {
        self.noted(self.state, decision, source, ChangeView::nothing(), recorded_at)
    }

    /// The node after a heuristic's proposal, if there is one and none was carried out before.
    pub open spec fn tried(
        self,
        applied: bool,
        p: Option<ProposalView>,
        tick: u64,
        source: SourceView,
        recorded_at: u64,
    ) -> (NodeView, bool) {
        match p {
            Some(p) => if applied {
                (self, true)
            } else {
                (self.decided(p, tick, source, recorded_at), self.decides_for(p, tick))
            },
            None => (self, applied),
        }
    }

    /// The node after its heuristics have had their turn, one after the other, and whether a proposal
    /// of theirs was carried out.
    pub open spec fn balanced(self, tick: u64, recorded_at: u64) -> (NodeView, bool) {
        let (first, a) = self.tried(
            false,
            self.advisory_proposal(tick),
            tick,
            SourceView::HeuristicLoadAdvisory,
            recorded_at,
        );
        let (second, b) = first.tried(
            a,
            first.isolation_proposal(tick),
            tick,
            SourceView::HeuristicIsolationRedistribution,
            recorded_at,
        );
        let (third, c) = second.tried(
            b,
            second.overload_proposal(tick),
            tick,
            SourceView::HeuristicOverloadRedistribution,
            recorded_at,
        );
        third.tried(c, third.underload_proposal(tick), tick, SourceView::HeuristicLoadAdvisory, recorded_at)
    }

    /// The node with one tick less to hold its load.
    pub open spec fn held(self) -> NodeView {
        NodeView {
            state: StateView { load_hold_ticks_left: (self.state.load_hold_ticks_left - 1) as u64, ..self.state },
            ..self
        }
    }

    /// The first step of a tick: the node after it, and what its model is needed for.
    #[verifier::opaque]
    pub open spec fn begun(self, tick: u64, recorded_at: u64) -> (NodeView, Asking) {
        let mode = self.state.mode;
        let verdict = self.consensus_proposal(tick);
        if mode != Mode::Isolated && mode != Mode::Reconnecting && verdict is Some {
            (self.decided(verdict->0, tick, SourceView::ForcedByPeerConsensus, recorded_at), Asking::Nothing)
        } else if mode == Mode::Isolated {
            (self, Asking::SelfCheck)
        } else if mode == Mode::Reconnecting {
            (
                self.remarked(waiting_decision(self, tick), SourceView::WaitingForReconnectAcks, recorded_at),
                Asking::Nothing,
            )
        } else if self.state.load_hold_ticks_left > 0 {
            let node = self.held().remembered();
            (
                node.remarked(holding_decision(node, tick), SourceView::CalibrationHold, recorded_at),
                Asking::Nothing,
            )
        } else {
            let (node, applied) = self.balanced(tick, recorded_at);
            if applied {
                (node.remembered(), Asking::Nothing)
            } else {
                (node, Asking::Prediction)
            }
        }
    }

    /// The node after its self-check, when the supervisor has judged what it proposes.
    pub open spec fn after_self_check(self, answer: Option<ProposalView>, tick: u64, recorded_at: u64) -> NodeView {
        let p = self.self_check_proposal(answer, tick);
        let node = self.self_checked(answer, tick).scored(p.threat_score).remembered();
        let decision = node.judgement(p, tick);
        let state = if decision.allowed {
            StateView {
                ai_state_reason: p.predicted_state,
                ..carried_out(p.action, node.state, node.config, tick)
            }
        } else {
            node.state
        };
        NodeView {
            reconnect: if decision.allowed {
                Some(ReconnectView { started_at_tick: tick, confirmed_by: Set::empty(), attempts: 0 })
            } else {
                node.reconnect
            },
            ..node.noted(
                state,
                decision,
                predicted_by_model(p),
                node.state.snapshot().diff(state.snapshot()),
                recorded_at,
            )
        }
    }

    /// The node after its model's proposal, if there is one, and whether that changed anything.
    pub open spec fn after_prediction(
        self,
        answer: Option<ProposalView>,
        tick: u64,
        recorded_at: u64,
    ) -> (NodeView, bool) {
        let informed = self.informed(answer, tick);
        match self.model_proposal(answer, tick) {
            None => (informed, false),
            Some(p) => {
                let node = NodeView { last_proposal: Some(p), ..informed.scored(p.threat_score) };
                let decision = node.judgement(p, tick);
                let done = if decision.allowed {
                    carried_out(p.action, node.state, node.config, tick)
                } else {
                    node.state
                };
                let named = decision.allowed && p.action != ProposalAction::EnterDegraded && p.action
                    != ProposalAction::ExitDegraded;
                let state = if named {
                    StateView { ai_state_reason: p.predicted_state, ..done }
                } else {
                    done
                };
                let answered = AiDecisionView {
                    tick,
                    node_id: self.id,
                    metrics: self_features(node, tick).metrics,
                    class_name: p.predicted_state,
                    reason: p.event_reason,
                    threat: p.threat_score,
                    confidence: p.confidence,
                    recorded_at,
                };
                let after = node.noted(
                    state,
                    decision,
                    predicted_by_model(p),
                    node.state.snapshot().diff(state.snapshot()),
                    recorded_at,
                );
                (
                    NodeView { pending_ai_decisions: node.pending_ai_decisions.push(answered), ..after },
                    decision.allowed && p.action != ProposalAction::DoNothing,
                )
            },
        }
    }

    /// The request to return to the usual load.
    pub open spec fn exit_proposal(self) -> ProposalView {
        ProposalView {
            action: ProposalAction::ExitCalibration,
            threat_score: self.state.last_threat_score,
            predicted_state: "normal_operation"@,
            event_reason: self.state.mode.text() + " hold period elapsed — requesting return to Normal"@,
            confidence: Single { bits: ONE },
        }
    }

    /// The next step in the direction in which the load was moved.
    pub open spec fn further_proposal(self) -> ProposalView {
        let throttled = self.state.mode == Mode::Throttled;
        ProposalView {
            action: if throttled { ProposalAction::ReduceLoad } else { ProposalAction::IncreaseLoad },
            threat_score: self.state.last_threat_score,
            predicted_state: if throttled {
                "high_load_network_overload"@
            } else {
                "load_on_network_has_increased"@
            },
            event_reason: if throttled {
                "Exit calibration rejected (anomaly persists) — reducing load further"@
            } else {
                "Exit calibration rejected (anomaly persists) — boosting load further"@
            },
            confidence: Single { bits: ONE },
        }
    }

    /// The node with a new hold period.
    pub open spec fn holding(self) -> NodeView {
        NodeView {
            state: StateView { load_hold_ticks_left: self.config.load_calibration.hold_ticks, ..self.state },
            ..self
        }
    }

    /// The node when its hold period is over: it holds on while a majority asks for it, returns to
    /// the usual load if the supervisor agrees, and else takes one step more.
    pub open spec fn calibrated(self, tick: u64, recorded_at: u64) -> NodeView {
        if self.state.mode != Mode::Boosted && self.state.mode != Mode::Throttled {
            self
        } else if self.pressure(tick) {
            self.holding().remarked(extending_decision(self, tick), SourceView::CalibrationHold, recorded_at)
        } else {
            let p = self.exit_proposal();
            let asked = self.decided(p, tick, SourceView::CalibrationHold, recorded_at);
            if self.decides_for(p, tick) {
                asked
            } else {
                asked.decided(asked.further_proposal(), tick, SourceView::HeuristicLoadAdvisory, recorded_at).holding()
            }
        }
    }

    /// The second step of a tick, on what the model says.
    #[verifier::opaque]
    pub open spec fn resumed(self, asking: Asking, answer: Option<ProposalView>, tick: u64, recorded_at: u64) -> NodeView {
        match asking {
            Asking::Nothing => self,
            Asking::SelfCheck => self.after_self_check(answer, tick, recorded_at),
            Asking::Prediction => {
                let (node, applied) = self.after_prediction(answer, tick, recorded_at);
                if applied {
                    node.remembered()
                } else {
                    node.calibrated(tick, recorded_at).remembered()
                }
            },
        }
    }
}

impl NodeView {
    /// The first step of a tick changes neither the node's id nor its settings.
    pub proof fn lemma_begun_keeps(self, tick: u64, recorded_at: u64)
        ensures
            self.begun(tick, recorded_at).0.id == self.id,
            self.begun(tick, recorded_at).0.config == self.config,
    {
        reveal(NodeView::begun);
    }

    /// The second step of a tick changes neither the node's id nor its settings.
    pub proof fn lemma_resumed_keeps(self, asking: Asking, answer: Option<ProposalView>, tick: u64, recorded_at: u64)
        ensures
            self.resumed(asking, answer, tick, recorded_at).id == self.id,
            self.resumed(asking, answer, tick, recorded_at).config == self.config,
    {
        reveal(NodeView::resumed);
    }
}

impl Node {
    /// Adds a record of a decision that changed nothing.
    fn remark(&mut self, decision: DecisionRecord, source: DecisionSource, recorded_at: u64)
        ensures
            final(self)@ == old(self)@.remarked(decision@, source@, recorded_at),
    {
        self.note(decision, source, StateChange::default(), recorded_at);
    }

    /// Puts a heuristic's proposal to the supervisor; tells whether one was carried out by now.
    fn try_proposal(
        &mut self,
        applied: bool,
        p: Option<Proposal>,
        tick: u64,
        source: DecisionSource,
        recorded_at: u64,
    ) -> (done: bool)
        requires
            adjustable(old(self).state.mode) ==> old(self).config.valid(),
        ensures
            (final(self)@, done) == old(self)@.tried(applied, proposed(p), tick, source@, recorded_at),
    {
        if applied {
            return true;
        }
        match p {
            Some(proposal) => self.decide_and_apply(proposal, tick, source, recorded_at),
            None => false,
        }
    }

    /// Lets the heuristics have their turn.
    fn balance(&mut self, tick: u64, recorded_at: u64) -> (done: bool)
        requires
            adjustable(old(self).state.mode) ==> old(self).config.valid(),
        ensures
            (final(self)@, done) == old(self)@.balanced(tick, recorded_at),
    {
        let p = self.process_load_advisories(tick);
        let a = self.try_proposal(false, p, tick, DecisionSource::HeuristicLoadAdvisory, recorded_at);
        let p = self.process_isolation_redistribution(tick);
        let b = self.try_proposal(a, p, tick, DecisionSource::HeuristicIsolationRedistribution, recorded_at);
        let p = self.process_overload_redistribution(tick);
        let c = self.try_proposal(b, p, tick, DecisionSource::HeuristicOverloadRedistribution, recorded_at);
        let p = self.process_underload_redistribution(tick);
        self.try_proposal(c, p, tick, DecisionSource::HeuristicLoadAdvisory, recorded_at)
    }

    /// The first step of a tick. Where it does not end with [`Asking::Nothing`], the node's model is
    /// to be asked what [`AIFeatureBuilder::build`] gives, unless it is overridden, and the tick goes
    /// on with [`Node::resume`].
    pub fn tick(&mut self, tick: u64, recorded_at: u64) -> (asking: Asking)
        requires
            adjustable(old(self).state.mode) ==> old(self).config.valid(),
        ensures
            (final(self)@, asking) == old(self)@.begun(tick, recorded_at),
    {
        reveal(NodeView::begun);
        let ghost start = self@;
        if self.state.mode != Mode::Isolated && self.state.mode != Mode::Reconnecting {
            match self.process_incoming_signals(tick) {
                Some(forced) => {
                    self.decide_and_apply(forced, tick, DecisionSource::ForcedByPeerConsensus, recorded_at);
                    return Asking::Nothing;
                },
                None => {},
            }
        }
        if self.state.mode == Mode::Isolated {
            return Asking::SelfCheck;
        }
        if self.state.mode == Mode::Reconnecting {
            let decision = DecisionRecord {
                tick,
                proposal: Proposal {
                    action: ProposalAction::DoNothing,
                    threat_score: self.state.last_threat_score,
                    predicted_state: "recovery_conditions_met".to_string(),
                    event_reason: "Waiting for reconnect quorum from neighbors".to_string(),
                    confidence: Single { bits: ONE },
                },
                allowed: true,
                reason: "Waiting for neighbor acks".to_string(),
            };
            self.remark(decision, DecisionSource::WaitingForReconnectAcks, recorded_at);
            return Asking::Nothing;
        }
        if self.state.load_hold_ticks_left > 0 {
            self.state.load_hold_ticks_left = self.state.load_hold_ticks_left - 1;
            assert(self@ =~= start.held());
            self.update_threat_history();
            let ghost node = self@;
            let mut event_reason = "Holding calibration state for ".to_string();
            push_decimal(&mut event_reason, self.state.load_hold_ticks_left as u128);
            event_reason.append(" more tick(s)");
            let decision = DecisionRecord {
                tick,
                proposal: Proposal {
                    action: ProposalAction::DoNothing,
                    threat_score: self.state.last_threat_score,
                    predicted_state: "calibration_hold".to_string(),
                    event_reason,
                    confidence: Single { bits: ONE },
                },
                allowed: true,
                reason: "Load calibration hold period".to_string(),
            };
            assert(decision@ =~= holding_decision(node, tick));
            self.remark(decision, DecisionSource::CalibrationHold, recorded_at);
            return Asking::Nothing;
        }
        if self.balance(tick, recorded_at) {
            self.update_threat_history();
            return Asking::Nothing;
        }
        Asking::Prediction
    }

    /// The self-check of an isolated node.
    fn finish_self_check(&mut self, reply: Result<AIOutput, String>, tick: u64, recorded_at: u64)
        requires
            adjustable(old(self).state.mode) ==> old(self).config.valid(),
        ensures
            final(self)@ == old(self)@.after_self_check(recommendation(old(self).ai, reply), tick, recorded_at),
    {
        let (proposal, source) = self.self_check(tick, reply);
        let ghost checked = self@;
        self.state.last_threat_score = proposal.threat_score;
        assert(self@ =~= checked.scored(proposal.threat_score));
        self.update_threat_history();
        let before = self.snapshot_state();
        let decision = self.judge(&proposal, tick);
        if decision.allowed {
            self.executor.apply(&proposal, &mut self.state, &self.config, tick);
            self.state.ai_state_reason = proposal.predicted_state.clone();
            let confirmed_by: HashSet<u32> = HashSet::new();
            assert(confirmed_by@ =~= Set::empty());
            self.reconnect = Some(ReconnectState { started_at_tick: tick, confirmed_by, attempts: 0 });
        }
        self.note_since(&before, decision, source, recorded_at);
    }

    /// Puts the model's proposal to the supervisor; tells whether that changed anything.
    fn finish_prediction(&mut self, reply: Result<AIOutput, String>, tick: u64, recorded_at: u64) -> (done: bool)
        requires
            adjustable(old(self).state.mode) ==> old(self).config.valid(),
        ensures
            (final(self)@, done) == old(self)@.after_prediction(
                recommendation(old(self).ai, reply),
                tick,
                recorded_at,
            ),
    {
        let ghost start = self@;
        match self.generate_ai_proposal(tick, reply) {
            Some(proposal) => {
                let ghost informed = self@;
                let ghost p = proposal@;
                self.last_proposal = Some(proposal.clone());
                self.state.last_threat_score = proposal.threat_score;
                let ghost node = self@;
                assert(node =~= NodeView { last_proposal: Some(p), ..informed.scored(p.threat_score) });
                let decision = self.judge(&proposal, tick);
                let input = AIFeatureBuilder::build(self, tick);
                let answered = AiDecisionEntry::now(
                    tick,
                    self.id,
                    input.to_raw_metrics(),
                    proposal.predicted_state.clone(),
                    proposal.event_reason.clone(),
                    proposal.threat_score,
                    proposal.confidence,
                    recorded_at,
                );
                let ghost answered_view = answered@;
                let ghost decisions = self.pending_ai_decisions@;
                self.pending_ai_decisions.push(answered);
                assert(ai_decision_views(self.pending_ai_decisions@) =~= ai_decision_views(decisions).push(answered_view));
                let source = model_source(&proposal);
                let before = self.snapshot_state();
                let allowed = decision.allowed;
                let mut done = false;
                if allowed {
                    self.executor.apply(&proposal, &mut self.state, &self.config, tick);
                    if proposal.action != ProposalAction::EnterDegraded && proposal.action != ProposalAction::ExitDegraded {
                        self.state.ai_state_reason = proposal.predicted_state.clone();
                    }
                    done = proposal.action != ProposalAction::DoNothing;
                }
                self.note_since(&before, decision, source, recorded_at);
                assert(self@ =~= start.after_prediction(recommendation(start.ai, reply), tick, recorded_at).0);
                done
            },
            None => false,
        }
    }

    /// Ends the hold period of a node that has moved its load.
    fn calibrate(&mut self, tick: u64, recorded_at: u64)
        requires
            adjustable(old(self).state.mode) ==> old(self).config.valid(),
        ensures
            final(self)@ == old(self)@.calibrated(tick, recorded_at),
    {
        let ghost start = self@;
        if self.state.mode != Mode::Boosted && self.state.mode != Mode::Throttled {
            return;
        }
        if self.load_pressure_still_active(tick) {
            self.state.load_hold_ticks_left = self.config.load_calibration.hold_ticks;
            assert(self@ =~= start.holding());
            let mut event_reason = self.state.mode.name();
            event_reason.append(" hold expired but direct pressure signals persist — extending hold");
            let decision = DecisionRecord {
                tick,
                proposal: Proposal {
                    action: ProposalAction::DoNothing,
                    threat_score: self.state.last_threat_score,
                    predicted_state: "calibration_hold_extended".to_string(),
                    event_reason,
                    confidence: Single { bits: ONE },
                },
                allowed: true,
                reason: "Hysteresis: active broadcast signals".to_string(),
            };
            self.remark(decision, DecisionSource::CalibrationHold, recorded_at);
            return;
        }
        let mut event_reason = self.state.mode.name();
        event_reason.append(" hold period elapsed — requesting return to Normal");
        let proposal = Proposal {
            action: ProposalAction::ExitCalibration,
            threat_score: self.state.last_threat_score,
            predicted_state: "normal_operation".to_string(),
            event_reason,
            confidence: Single { bits: ONE },
        };
        assert(proposal@ =~= start.exit_proposal());
        let allowed = self.decide_and_apply(proposal, tick, DecisionSource::CalibrationHold, recorded_at);
        if !allowed {
            let ghost asked = self@;
            let further = if self.state.mode == Mode::Throttled {
                Proposal {
                    action: ProposalAction::ReduceLoad,
                    threat_score: self.state.last_threat_score,
                    predicted_state: "high_load_network_overload".to_string(),
                    event_reason: "Exit calibration rejected (anomaly persists) — reducing load further".to_string(),
                    confidence: Single { bits: ONE },
                }
            } else {
                Proposal {
                    action: ProposalAction::IncreaseLoad,
                    threat_score: self.state.last_threat_score,
                    predicted_state: "load_on_network_has_increased".to_string(),
                    event_reason: "Exit calibration rejected (anomaly persists) — boosting load further".to_string(),
                    confidence: Single { bits: ONE },
                }
            };
            assert(further@ =~= asked.further_proposal());
            self.decide_and_apply(further, tick, DecisionSource::HeuristicLoadAdvisory, recorded_at);
            self.state.load_hold_ticks_left = self.config.load_calibration.hold_ticks;
        }
    }

    /// The second step of a tick, with the model's reply.
    pub fn resume(&mut self, asking: Asking, reply: Result<AIOutput, String>, tick: u64, recorded_at: u64)
        requires
            adjustable(old(self).state.mode) ==> old(self).config.valid(),
        ensures
            final(self)@ == old(self)@.resumed(asking, recommendation(old(self).ai, reply), tick, recorded_at),
    {
        reveal(NodeView::resumed);
        match asking {
            Asking::Nothing => {},
            Asking::SelfCheck => {
                self.finish_self_check(reply, tick, recorded_at);
            },
            Asking::Prediction => {
                let applied = self.finish_prediction(reply, tick, recorded_at);
                if !applied {
                    self.calibrate(tick, recorded_at);
                }
                self.update_threat_history();
            },
        }
    }
}

/// An isolated node stays out for the whole tick, whatever its model says: at most it begins its way
/// back, and that only where it is no threat and not strained.
pub proof fn law_isolated_stays_out(node: NodeView, answer: Option<ProposalView>, tick: u64, recorded_at: u64)
    requires
        node.state.mode == Mode::Isolated,
    ensures
        node.begun(tick, recorded_at) == (node, Asking::SelfCheck),
        ({
            let after = node.resumed(Asking::SelfCheck, answer, tick, recorded_at);
            &&& after.state.mode == Mode::Isolated || after.state.mode == Mode::Reconnecting
            &&& after.state.load == node.state.load
            &&& after.state.mode == Mode::Reconnecting ==> !security_threat(after.state, node.config) && !strained(
                after.state,
                node.config,
            )
        }),
{
    reveal(NodeView::begun);
    reveal(NodeView::resumed);
}

/// A node on its way back waits: its tick changes nothing of its state.
pub proof fn law_reconnecting_waits(node: NodeView, tick: u64, recorded_at: u64)
    requires
        node.state.mode == Mode::Reconnecting,
    ensures
        node.begun(tick, recorded_at).1 == Asking::Nothing,
        node.begun(tick, recorded_at).0.state == node.state,
{
    reveal(NodeView::begun);
}

/// Where two thirds of its neighbours, and the configured number at least, vote against a node in a
/// tick, it is isolated in that tick.
pub proof fn law_consensus_isolates(node: NodeView, tick: u64, recorded_at: u64)
    requires
        node.neighbor_ids.len() > 0,
        node.accusers(tick).len() >= node.isolation_threshold(),
        node.state.mode != Mode::Isolated,
        node.state.mode != Mode::Reconnecting,
    ensures
        node.begun(tick, recorded_at).0.state.mode == Mode::Isolated,
        node.begun(tick, recorded_at).1 == Asking::Nothing,
{
    reveal(NodeView::begun);
}

/// No node is isolated by the vote of less than two thirds of its neighbours.
pub proof fn law_two_thirds(node: NodeView, tick: u64)
    requires
        node.consensus_proposal(tick) is Some,
    ensures
        3 * node.accusers(tick).len() >= 2 * node.neighbor_ids.len(),
        node.accusers(tick).len() >= node.config.security.peer_suspicion_threshold,
{
}

/// No node is let back in by less than two thirds of its neighbours, as it last announced them or
/// else as it knows them, nor without any.
pub proof fn law_quorum_two_thirds(node: NodeView)
    requires
        node.has_quorum(),
    ensures
        node.reconnect->0.confirmed_by.len() >= 1,
        node.topology_map.snapshots.contains_key(node.id) ==> 3 * node.reconnect->0.confirmed_by.len() >= 2
            * node.topology_map.snapshots[node.id].neighbors.len(),
        !node.topology_map.snapshots.contains_key(node.id) ==> 3 * node.reconnect->0.confirmed_by.len() >= 2
            * node.neighbor_ids.len(),
{
}

/// While a node holds its load, a tick does nothing but count down and note the score.
pub proof fn law_holding_changes_nothing(node: NodeView, tick: u64, recorded_at: u64)
    requires
        node.state.load_hold_ticks_left > 0,
        node.state.mode != Mode::Isolated,
        node.state.mode != Mode::Reconnecting,
        node.consensus_proposal(tick) is None,
    ensures
        ({
            let (after, asking) = node.begun(tick, recorded_at);
            &&& asking == Asking::Nothing
            &&& after.state.load == node.state.load
            &&& after.state.mode == node.state.mode
            &&& after.state.load_hold_ticks_left == node.state.load_hold_ticks_left - 1
        }),
{
    reveal(NodeView::begun);
}

/// A node whose model has not answered for long enough goes on without it.
pub proof fn law_silent_model_degrades(node: NodeView, tick: u64, recorded_at: u64)
    requires
        node.state.ai_state_reason == "ai_module_offline"@,
        since(tick, node.state.state_entered_tick) >= node.config.ai.ticks_to_degraded,
        node.state.mode != Mode::Degraded,
        node.state.mode != Mode::Isolated,
    ensures
        node.after_prediction(None, tick, recorded_at).0.state.mode == Mode::Degraded,
{
}

/// A degraded node whose model has been back for long enough works normally again, unless it is a
/// threat or its model wants it to act at once.
pub proof fn law_recovered_model_restores(node: NodeView, p: ProposalView, tick: u64, recorded_at: u64)
    requires
        node.state.mode == Mode::Degraded,
        node.state.ai_state_reason != "ai_module_offline"@,
        since(tick, node.state.state_entered_tick) >= node.config.ai.ticks_to_normal,
        !security_threat(node.state, node.config),
        p.action != ProposalAction::ReduceLoad,
        p.action != ProposalAction::IncreaseLoad,
        p.action != ProposalAction::EnterIsolation,
    ensures
        node.after_prediction(Some(p), tick, recorded_at).0.state.mode == Mode::Normal,
{
}

} // verus!
