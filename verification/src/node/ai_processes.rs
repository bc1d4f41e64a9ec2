//! What a node makes of its model's answers.

use vstd::prelude::*;

use crate::ai_module::{AIModel, AIOutput};
use crate::node::heuristics::proposed;
use crate::node::{Mode, Node, NodeView, StateView};
use crate::persistence::{since, DecisionSource, SourceView};
use crate::proposal::{recommended, Proposal, ProposalAction, ProposalView};
use crate::single::{Single, ONE};
use crate::text::{decimal, is_text, push_decimal};

verus! {

/// What the model recommends; nothing where it did not answer or is kept from answering.
pub open spec fn recommendation(ai: AIModel, reply: Result<AIOutput, String>) -> Option<ProposalView> {
    match reply {
        Ok(output) => if ai.overridden {
            None
        } else {
            Some(
                ProposalView {
                    action: recommended(output.recommended_action@),
                    threat_score: output.threat_score,
                    predicted_state: output.predicted_state@,
                    event_reason: output.event_reason@,
                    confidence: output.confidence,
                },
            )
        },
        Err(_) => None,
    }
}

/// The source of a proposal that came from the model.
pub open spec fn predicted_by_model(p: ProposalView) -> SourceView {
    SourceView::AiPredict { predicted_state: p.predicted_state, threat_score: p.threat_score, confidence: p.confidence }
}

impl NodeView {
    /// The node with the finding, which starts to count in this tick.
    pub open spec fn finding(self, finding: Seq<char>, tick: u64) -> NodeView {
        NodeView { state: StateView { ai_state_reason: finding, state_entered_tick: tick, ..self.state }, ..self }
    }

    /// The node when its model did not answer.
    pub open spec fn without_answer(self, tick: u64) -> NodeView {
        if self.state.ai_state_reason != "ai_module_offline"@ {
            self.finding("ai_module_offline"@, tick)
        } else {
            self
        }
    }

    /// After enough ticks without an answer the node gives its model up.
    pub open spec fn failure_proposal(self, tick: u64) -> Option<ProposalView> {
        if self.state.mode != Mode::Degraded && since(tick, self.state.state_entered_tick)
            >= self.config.ai.ticks_to_degraded {
            Some(
                ProposalView {
                    action: ProposalAction::EnterDegraded,
                    threat_score: self.state.last_threat_score,
                    predicted_state: "ai_module_offline"@,
                    event_reason: "AI module failed for "@ + decimal(self.config.ai.ticks_to_degraded as nat)
                        + " consecutive ticks"@,
                    confidence: Single { bits: ONE },
                },
            )
        } else {
            None
        }
    }

    /// The node when its model has answered.
    pub open spec fn with_answer(self, tick: u64) -> NodeView {
        if self.state.mode == Mode::Degraded && self.state.ai_state_reason == "ai_module_offline"@ {
            self.finding("ai_recovering"@, tick)
        } else {
            self
        }
    }

    /// What the node proposes on an answer: the recommendation, but while it is degraded only one to
    /// act at once, until the model has been back for long enough.
    pub open spec fn success_proposal(self, p: ProposalView, tick: u64) -> Option<ProposalView> {
        let acts = p.action == ProposalAction::ReduceLoad || p.action == ProposalAction::IncreaseLoad || p.action
            == ProposalAction::EnterIsolation;
        if self.state.mode != Mode::Degraded || acts {
            Some(p)
        } else if since(tick, self.state.state_entered_tick) >= self.config.ai.ticks_to_normal {
            Some(
                ProposalView {
                    action: ProposalAction::ExitDegraded,
                    threat_score: self.state.last_threat_score,
                    predicted_state: "ai_recovered"@,
                    event_reason: "AI stable for "@ + decimal(self.config.ai.ticks_to_normal as nat) + " ticks"@,
                    confidence: Single { bits: ONE },
                },
            )
        } else {
            None
        }
    }

    /// The node once it knows what its model says.
    pub open spec fn informed(self, answer: Option<ProposalView>, tick: u64) -> NodeView {
        match answer {
            Some(_) => self.with_answer(tick),
            None => self.without_answer(tick),
        }
    }

    /// What the node proposes on what its model says.
    pub open spec fn model_proposal(self, answer: Option<ProposalView>, tick: u64) -> Option<ProposalView> {
        match answer {
            Some(p) => self.with_answer(tick).success_proposal(p, tick),
            None => self.without_answer(tick).failure_proposal(tick),
        }
    }

    /// The node has been below suspicion for the whole quarantine.
    pub open spec fn secure(self) -> bool {
        let n = self.config.security.min_quarantine_ticks as nat;
        let history = self.state.threat_score_history;
        &&& history.len() >= n
        &&& forall|i: int|
            history.len() - n <= i < history.len() ==> (#[trigger] history[i]).below(
                self.config.security.threat_score_normal,
            )
        &&& self.state.failed_auth_count == 0
    }

    /// Everything is in order for an isolated node to come back.
    pub open spec fn recovered(self, tick: u64) -> bool {
        &&& self.secure()
        &&& self.state.temperature <= self.config.node_defaults.temperature
        &&& self.state.load <= self.config.node_defaults.load
        &&& since(tick, self.state.state_entered_tick) >= self.config.security.min_quarantine_ticks
    }

    /// The node after its self-check.
    pub open spec fn self_checked(self, answer: Option<ProposalView>, tick: u64) -> NodeView {
        let node = self.informed(answer, tick);
        match self.model_proposal(answer, tick) {
            Some(p) => NodeView { last_proposal: Some(p), ..node },
            None => node,
        }
    }

    /// What an isolated node proposes to itself.
    pub open spec fn self_check_proposal(self, answer: Option<ProposalView>, tick: u64) -> ProposalView {
        let node = self.informed(answer, tick);
        match self.model_proposal(answer, tick) {
            Some(p) => if node.state.mode == Mode::Isolated && p.action == ProposalAction::DoNothing && node.recovered(
                tick,
            ) {
                ProposalView {
                    action: ProposalAction::BeginReconnect,
                    predicted_state: "recovery_conditions_met"@,
                    event_reason: "Threat score and physical metrics are stable. Quarantine period passed."@,
                    ..p
                }
            } else {
                p
            },
            None => ProposalView {
                action: ProposalAction::DoNothing,
                threat_score: Single { bits: ONE },
                predicted_state: "integrity_violation"@,
                event_reason: "Integrity check failed — node state cannot be trusted"@,
                confidence: Single { bits: ONE },
            },
        }
    }
}

/// The source of a proposal that came from the model.
pub(crate) fn model_source(p: &Proposal) -> (s: DecisionSource)
    ensures
        s@ == predicted_by_model(p@),
{
    DecisionSource::AiPredict {
        predicted_state: p.predicted_state.clone(),
        threat_score: p.threat_score,
        confidence: p.confidence,
    }
}

impl Node {
    /// Whether the node has been below suspicion for the whole quarantine.
    fn calm(&self) -> (b: bool)
        ensures
            b == self@.secure(),
    {
        let n: u64 = self.config.security.min_quarantine_ticks;
        let history = &self.state.threat_score_history;
        let len: usize = history.len();
        if (len as u64) < n || self.state.failed_auth_count != 0 {
            return false;
        }
        let first: usize = (len as u64 - n) as usize;
        let mut i: usize = first;
        while i < len
            invariant
                first <= i <= len,
                len == history@.len(),
                history@ == self@.state.threat_score_history,
                first == len - n,
                n == self@.config.security.min_quarantine_ticks,
                forall|k: int|
                    first <= k < i ==> (#[trigger] history@[k]).below(self@.config.security.threat_score_normal),
            decreases len - i,
        {
            if !history[i].lt(self.config.security.threat_score_normal) {
                assert(!self@.state.threat_score_history[i as int].below(self@.config.security.threat_score_normal));
                return false;
            }
            i = i + 1;
        }
        true
    }

    /// The self-check of an isolated node, given its model's reply: what it proposes, and on whose
    /// account.
    pub fn self_check(&mut self, tick: u64, reply: Result<AIOutput, String>) -> (checked: (Proposal, DecisionSource))
        ensures
            final(self)@ == old(self)@.self_checked(recommendation(old(self).ai, reply), tick),
            checked.0@ == old(self)@.self_check_proposal(recommendation(old(self).ai, reply), tick),
            checked.1@ == predicted_by_model(checked.0@),
    {
        match self.generate_ai_proposal(tick, reply) {
            Some(first) => {
                let mut proposal = first;
                self.last_proposal = Some(proposal.clone());
                let secure = self.calm();
                let healthy = self.state.temperature <= self.config.node_defaults.temperature && self.state.load
                    <= self.config.node_defaults.load;
                let ticks_in_isolation: u64 = tick.saturating_sub(self.state.state_entered_tick);
                let quarantine_passed = ticks_in_isolation >= self.config.security.min_quarantine_ticks;
                if self.state.mode == Mode::Isolated && proposal.action == ProposalAction::DoNothing && secure && healthy
                    && quarantine_passed {
                    proposal.action = ProposalAction::BeginReconnect;
                    proposal.predicted_state = "recovery_conditions_met".to_string();
                    proposal.event_reason =
                    "Threat score and physical metrics are stable. Quarantine period passed.".to_string();
                }
                let source = model_source(&proposal);
                (proposal, source)
            },
            None => {
                let proposal = Proposal {
                    action: ProposalAction::DoNothing,
                    threat_score: Single { bits: ONE },
                    predicted_state: "integrity_violation".to_string(),
                    event_reason: "Integrity check failed — node state cannot be trusted".to_string(),
                    confidence: Single { bits: ONE },
                };
                let source = model_source(&proposal);
                (proposal, source)
            },
        }
    }

    /// What the node proposes on its model's reply.
    pub fn generate_ai_proposal(&mut self, tick: u64, reply: Result<AIOutput, String>) -> (p: Option<Proposal>)
        ensures
            final(self)@ == old(self)@.informed(recommendation(old(self).ai, reply), tick),
            proposed(p) == old(self)@.model_proposal(recommendation(old(self).ai, reply), tick),
    {
        match self.ai.predict(reply) {
            Ok(output) => self.handle_ai_success(output, tick),
            Err(_) => self.handle_ai_failure(tick),
        }
    }

    fn handle_ai_failure(&mut self, tick: u64) -> (p: Option<Proposal>)
        ensures
            final(self)@ == old(self)@.without_answer(tick),
            proposed(p) == old(self)@.without_answer(tick).failure_proposal(tick),
    {
        if !is_text(&self.state.ai_state_reason, "ai_module_offline") {
            self.state.ai_state_reason = "ai_module_offline".to_string();
            self.state.state_entered_tick = tick;
        }
        assert(self@ =~= old(self)@.without_answer(tick));
        let ticks_to_degraded: u64 = self.config.ai.ticks_to_degraded;
        if self.state.mode != Mode::Degraded && tick.saturating_sub(self.state.state_entered_tick) >= ticks_to_degraded {
            let mut event_reason = "AI module failed for ".to_string();
            push_decimal(&mut event_reason, ticks_to_degraded as u128);
            event_reason.append(" consecutive ticks");
            return Some(
                Proposal {
                    action: ProposalAction::EnterDegraded,
                    threat_score: self.state.last_threat_score,
                    predicted_state: "ai_module_offline".to_string(),
                    event_reason,
                    confidence: Single { bits: ONE },
                },
            );
        }
        None
    }

    fn handle_ai_success(&mut self, output: AIOutput, tick: u64) -> (p: Option<Proposal>)
        ensures
            final(self)@ == old(self)@.with_answer(tick),
            proposed(p) == old(self)@.with_answer(tick).success_proposal(
                recommendation(AIModel { overridden: false }, Ok(output))->0,
                tick,
            ),
    {
        let proposal: Proposal = Proposal::from(output);
        if self.state.mode == Mode::Degraded {
            if is_text(&self.state.ai_state_reason, "ai_module_offline") {
                self.state.ai_state_reason = "ai_recovering".to_string();
                self.state.state_entered_tick = tick;
            }
            assert(self@ =~= old(self)@.with_answer(tick));
            let ticks_alive: u64 = tick.saturating_sub(self.state.state_entered_tick);
            let ticks_to_normal: u64 = self.config.ai.ticks_to_normal;
            let acts = matches!(
                proposal.action,
                ProposalAction::ReduceLoad | ProposalAction::IncreaseLoad | ProposalAction::EnterIsolation
            );
            if acts {
                return Some(proposal);
            } else if ticks_alive >= ticks_to_normal {
                let mut event_reason = "AI stable for ".to_string();
                push_decimal(&mut event_reason, ticks_to_normal as u128);
                event_reason.append(" ticks");
                return Some(
                    Proposal {
                        action: ProposalAction::ExitDegraded,
                        threat_score: self.state.last_threat_score,
                        predicted_state: "ai_recovered".to_string(),
                        event_reason,
                        confidence: Single { bits: ONE },
                    },
                );
            } else {
                return None;
            }
        }
        Some(proposal)
    }
}

} // verus!
