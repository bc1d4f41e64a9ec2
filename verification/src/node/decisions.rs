//! From a proposal to a changed state and its record.

use vstd::prelude::*;

use crate::executor::carried_out;
use crate::node::{lifecycle_views, DecisionRecord, DecisionView, Node, NodeView, StateView};
use crate::persistence::{
    ChangeView, DecisionSource, LifecycleEntry, LifecycleView, SnapshotView, SourceView, StateChange, StateSnapshot,
};
use crate::proposal::{Proposal, ProposalAction, ProposalView};
use crate::single::Single;
use crate::supervisor::{adjustable, judged};

verus! {

/// The last `n` of a list, or all of it.
pub open spec fn last_of<T>(s: Seq<T>, n: nat) -> Seq<T> {
    if s.len() > n { s.subrange(s.len() - n, s.len() as int) } else { s }
}

impl StateView {
    /// What the log keeps of the state.
    pub open spec fn snapshot(self) -> SnapshotView {
        SnapshotView {
            mode: self.mode.text(),
            load: self.load,
            active_connections: self.active_connections,
            failed_auth_count: self.failed_auth_count,
        }
    }

    /// The state with its threat score added to the history, which is kept short.
    pub open spec fn remembered(self, min_quarantine_ticks: u64) -> StateView {
        StateView {
            threat_score_history: last_of(
                self.threat_score_history.push(self.last_threat_score),
                2 * min_quarantine_ticks as nat,
            ),
            ..self
        }
    }
}

impl DecisionView {
    /// The record of the decision in the log.
    pub open spec fn entry(self, node_id: u32, source: SourceView, change: ChangeView, recorded_at: u64) -> LifecycleView {
        LifecycleView {
            tick: self.tick,
            node_id,
            ai_predict: source,
            proposal_action: self.proposal.action.text(),
            proposal_predicted_state: self.proposal.predicted_state,
            proposal_event_reason: self.proposal.event_reason,
            proposal_threat_score: self.proposal.threat_score,
            proposal_confidence: self.proposal.confidence,
            allowed: self.allowed,
            supervisor_reason: self.reason,
            change,
            recorded_at,
        }
    }
}

impl NodeView {
    /// The supervisor's word on a proposal of the node.
    pub open spec fn judgement(self, proposal: ProposalView, tick: u64) -> DecisionView {
        judged(proposal, self.state, self.config, tick, self.neighbor_signals)
    }

    /// The node with the state and with one record more.
    pub open spec fn noted(
        self,
        state: StateView,
        decision: DecisionView,
        source: SourceView,
        change: ChangeView,
        recorded_at: u64,
    ) -> NodeView {
        NodeView {
            state,
            pending_lifecycle: self.pending_lifecycle.push(decision.entry(self.id, source, change, recorded_at)),
            ..self
        }
    }

    /// The node can carry the action out: only a load increase, which is made in some modes only, needs
    /// room for twice the usual connections.
    pub open spec fn able(self, action: ProposalAction) -> bool {
        action == ProposalAction::IncreaseLoad && adjustable(self.state.mode) ==> self.config.valid()
    }

    /// The node rates itself by the score.
    pub open spec fn scored(self, score: Single) -> NodeView {
        NodeView { state: StateView { last_threat_score: score, ..self.state }, ..self }
    }

    /// The proposal may be carried out once the node rates itself by its score.
    pub open spec fn decides_for(self, proposal: ProposalView, tick: u64) -> bool {
        self.scored(proposal.threat_score).judgement(proposal, tick).allowed
    }

    /// The node after it has put a proposal to the supervisor and, if allowed, carried it out.
    pub open spec fn decided(self, proposal: ProposalView, tick: u64, source: SourceView, recorded_at: u64) -> NodeView {
        let node = self.scored(proposal.threat_score);
        let decision = node.judgement(proposal, tick);
        let state = if decision.allowed {
            carried_out(proposal.action, node.state, node.config, tick)
        } else {
            node.state
        };
        node.noted(state, decision, source, node.state.snapshot().diff(state.snapshot()), recorded_at)
    }

    /// The node with its threat score added to the history.
    pub open spec fn remembered(self) -> NodeView {
        NodeView { state: self.state.remembered(self.config.security.min_quarantine_ticks), ..self }
    }
}

impl DecisionRecord {
    /// The record of the decision in the log.
    pub(crate) fn into_lifecycle_entry(
        self,
        node_id: u32,
        source: DecisionSource,
        change: StateChange,
        recorded_at: u64,
    ) -> (e: LifecycleEntry)
        ensures
            e@ == self@.entry(node_id, source@, change@, recorded_at),
    {
        LifecycleEntry::now(
            self.tick,
            node_id,
            source,
            self.proposal.action.name(),
            self.proposal.predicted_state,
            self.proposal.event_reason,
            self.proposal.threat_score,
            self.proposal.confidence,
            self.allowed,
            self.reason,
            change,
            recorded_at,
        )
    }
}

impl Node {
    pub(crate) fn snapshot_state(&self) -> (s: StateSnapshot)
        ensures
            s@ == self@.state.snapshot(),
    {
        StateSnapshot {
            mode: self.state.mode.name(),
            load: self.state.load,
            active_connections: self.state.active_connections,
            failed_auth_count: self.state.failed_auth_count,
        }
    }

    /// The supervisor's word on a proposal of the node.
    pub(crate) fn judge(&self, proposal: &Proposal, tick: u64) -> (decision: DecisionRecord)
        ensures
            decision@ == self@.judgement(proposal@, tick),
    {
        self.supervisor.validate(proposal, &self.state, &self.config, tick, &self.neighbor_signals)
    }

    /// Adds a record to the log.
    pub(crate) fn note(
        &mut self,
        decision: DecisionRecord,
        source: DecisionSource,
        change: StateChange,
        recorded_at: u64,
    )
        ensures
            final(self)@ == old(self)@.noted(old(self)@.state, decision@, source@, change@, recorded_at),
    {
        let entry = decision.into_lifecycle_entry(self.id, source, change, recorded_at);
        let ghost e = entry@;
        let ghost before = self.pending_lifecycle@;
        self.pending_lifecycle.push(entry);
        assert(lifecycle_views(self.pending_lifecycle@) =~= lifecycle_views(before).push(e));
    }

    /// Adds the record of a decision that was carried out since `before`.
    pub(crate) fn note_since(
        &mut self,
        before: &StateSnapshot,
        decision: DecisionRecord,
        source: DecisionSource,
        recorded_at: u64,
    )
        ensures
            final(self)@ == old(self)@.noted(
                old(self)@.state,
                decision@,
                source@,
                before@.diff(old(self)@.state.snapshot()),
                recorded_at,
            ),
    {
        let after = self.snapshot_state();
        let change = StateChange::diff(before, &after);
        self.note(decision, source, change, recorded_at);
    }

    /// Puts a proposal to the supervisor and carries it out if it is allowed.
    pub(crate) fn decide_and_apply(
        &mut self,
        proposal: Proposal,
        tick: u64,
        source: DecisionSource,
        recorded_at: u64,
    ) -> (allowed: bool)
        requires
            old(self)@.able(proposal.action),
        ensures
            allowed == old(self)@.decides_for(proposal@, tick),
            final(self)@ == old(self)@.decided(proposal@, tick, source@, recorded_at),
    {
        self.state.last_threat_score = proposal.threat_score;
        assert(self@ =~= old(self)@.scored(proposal.threat_score));
        let before = self.snapshot_state();
        let decision = self.judge(&proposal, tick);
        let allowed = decision.allowed;
        if allowed {
            self.executor.apply(&proposal, &mut self.state, &self.config, tick);
        }
        self.note_since(&before, decision, source, recorded_at);
        allowed
    }

    /// Adds the threat score to the history.
    pub(crate) fn update_threat_history(&mut self)
        ensures
            final(self)@ == old(self)@.remembered(),
    {
        let most: u128 = 2 * (self.config.security.min_quarantine_ticks as u128);
        self.state.threat_score_history.push_back(self.state.last_threat_score);
        let ghost all = self.state.threat_score_history@;
        let ghost node = self@;
        assert(all =~= last_of(all, all.len()));
        while self.state.threat_score_history.len() as u128 > most
            invariant
                most == 2 * node.config.security.min_quarantine_ticks,
                self@ == (NodeView {
                    state: StateView {
                        threat_score_history: last_of(all, self.state.threat_score_history@.len()),
                        ..node.state
                    },
                    ..node
                }),
                self.state.threat_score_history@.len() <= all.len(),
                self.state.threat_score_history@.len() >= if all.len() > most { most as int } else { all.len() as int },
            decreases self.state.threat_score_history@.len(),
        {
            let ghost before = self.state.threat_score_history@;
            self.state.threat_score_history.pop_front();
            assert(self.state.threat_score_history@ =~= last_of(all, (before.len() - 1) as nat));
        }
    }
}

/// The history of threat scores never holds more than twice the quarantine, and its last entry is the
/// present score where it holds any.
pub proof fn law_history_bounded(state: StateView, min_quarantine_ticks: u64)
    ensures
        ({
            let history = state.remembered(min_quarantine_ticks).threat_score_history;
            &&& history.len() <= 2 * min_quarantine_ticks
            &&& min_quarantine_ticks > 0 ==> history.len() > 0 && history.last() == state.last_threat_score
        }),
{
}

/// A decision leaves one record behind all earlier ones, and changes the state only where it was
/// allowed.
pub proof fn law_decision_recorded(node: NodeView, p: ProposalView, tick: u64, source: SourceView, recorded_at: u64)
    ensures
        ({
            let after = node.decided(p, tick, source, recorded_at);
            &&& after.pending_lifecycle.len() == node.pending_lifecycle.len() + 1
            &&& after.pending_lifecycle.drop_last() == node.pending_lifecycle
            &&& after.pending_lifecycle.last().allowed == node.decides_for(p, tick)
            &&& !node.decides_for(p, tick) ==> after.state == node.scored(p.threat_score).state
        }),
{
    let after = node.decided(p, tick, source, recorded_at);
    assert(after.pending_lifecycle.drop_last() =~= node.pending_lifecycle);
}

} // verus!
