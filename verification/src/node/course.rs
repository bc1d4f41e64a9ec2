//! What holds of a node's tick as a whole.

use vstd::prelude::*;

use crate::executor::{carried_out, increased_load, reduced_load};
use crate::node::tick::Asking;
use crate::node::{Mode, NodeView, SignalType, StateView};
use crate::persistence::SourceView;
use crate::proposal::{ProposalAction, ProposalView};
use crate::single::Single;
use crate::supervisor::judged;
use crate::verdicts::has_room;

verus! {

/// The node is at work, does not hold its load, and its neighbours have not voted it out.
pub open spec fn free(node: NodeView, tick: u64) -> bool {
    &&& node.state.mode != Mode::Isolated
    &&& node.state.mode != Mode::Reconnecting
    &&& node.state.load_hold_ticks_left == 0
    &&& node.consensus_proposal(tick) is None
}

/// The score that is remembered comes last, and of the earlier ones as many as there is room for.
pub open spec fn remembers(before: StateView, after: StateView, score: Single, min_quarantine_ticks: u64) -> bool {
    let all = before.threat_score_history.push(score);
    let kept = after.threat_score_history;
    &&& kept.len() == if all.len() > 2 * min_quarantine_ticks { 2 * min_quarantine_ticks as int } else { all.len() as int }
    &&& forall|k: int| 1 <= k <= kept.len() ==> #[trigger] kept[kept.len() - k] == all[all.len() - k]
}

/// A node that is free and has nothing to do for its neighbours asks its model, with nothing changed.
pub proof fn law_idle_node_asks(node: NodeView, tick: u64, recorded_at: u64)
    requires
        free(node, tick),
        node.advisory_proposal(tick) is None,
        node.isolation_proposal(tick) is None,
        node.overload_proposal(tick) is None,
        node.underload_proposal(tick) is None,
    ensures
        node.begun(tick, recorded_at) == (node, Asking::Prediction),
{
    reveal(NodeView::begun);
}

/// A node that is free and whose neighbours advise it to lower its load does so at once, without asking its model, where
/// it is hotter or busier than usual. It is throttled then, holds that for the set time and has it to tell.
pub proof fn law_advice_to_reduce_is_carried_out(node: NodeView, tick: u64, recorded_at: u64)
    requires
        free(node, tick),
        node.advisory_proposal(tick) is Some,
        node.advisory_proposal(tick)->0.action == ProposalAction::ReduceLoad,
    ensures
        ({
            let (after, asking) = node.begun(tick, recorded_at);
            node.state.load > node.config.node_defaults.load || node.state.temperature
                > node.config.node_defaults.temperature ==> {
                &&& asking == Asking::Nothing
                &&& after.state.mode == Mode::Throttled
                &&& after.state.load == reduced_load(node.state.load, node.config)
                &&& after.state.load_hold_ticks_left == node.config.load_calibration.hold_ticks
                &&& after.state.pending_load_signal == Some(SignalType::LoadReduced)
                &&& after.state.state_entered_tick == tick
                &&& remembers(node.state, after.state, node.state.last_threat_score, node.config.security.min_quarantine_ticks)
            }
        }),
{
    reveal(NodeView::begun);
}

/// A node that is free and whose neighbours advise it to raise its load does so at once, without asking its model, where
/// it is no threat. It is boosted then, holds that for the set time and has it to tell.
pub proof fn law_advice_to_boost_is_carried_out(node: NodeView, tick: u64, recorded_at: u64)
    requires
        free(node, tick),
        node.advisory_proposal(tick) is Some,
        node.advisory_proposal(tick)->0.action == ProposalAction::IncreaseLoad,
    ensures
        ({
            let (after, asking) = node.begun(tick, recorded_at);
            has_room(node.state, node.config) ==> {
                &&& asking == Asking::Nothing
                &&& boosted_by(node, after, tick)
            }
        }),
{
    reveal(NodeView::begun);
}

/// The node has raised its load in this tick, holds it for the set time and has it to tell.
pub open spec fn boosted_by(before: NodeView, after: NodeView, tick: u64) -> bool {
    &&& after.state.mode == Mode::Boosted
    &&& after.state.load == increased_load(before.state.load, before.config)
    &&& after.state.load_hold_ticks_left == before.config.load_calibration.hold_ticks
    &&& after.state.pending_load_signal == Some(SignalType::LoadBoosted)
    &&& after.state.state_entered_tick == tick
    &&& remembers(before.state, after.state, before.state.last_threat_score, before.config.security.min_quarantine_ticks)
}

/// A node that is free, is not advised anything and has an isolated neighbour raises its load at once, without asking its
/// model, where it is no threat.
pub proof fn law_isolation_is_made_up_for(node: NodeView, tick: u64, recorded_at: u64)
    requires
        free(node, tick),
        node.advisory_proposal(tick) is None,
        node.isolation_proposal(tick) is Some,
        has_room(node.state, node.config),
    ensures
        node.begun(tick, recorded_at).1 == Asking::Nothing,
        boosted_by(node, node.begun(tick, recorded_at).0, tick),
{
    reveal(NodeView::begun);
}

/// A node whose model is silent goes on as it is until the model has been silent for the set time, and is degraded then.
/// Its finding tells since when.
pub proof fn law_silence(node: NodeView, tick: u64, recorded_at: u64)
    requires
        node.state.mode != Mode::Isolated,
    ensures
        node.state.mode != Mode::Degraded ==> ({
            let after = node.after_prediction(None, tick, recorded_at).0;
            let known = node.state.ai_state_reason == "ai_module_offline"@;
            let limit = node.config.ai.ticks_to_degraded;
            let over = if known { tick >= node.state.state_entered_tick + limit || limit == 0 } else { limit == 0 };
            &&& after.state.ai_state_reason == "ai_module_offline"@
            &&& after.state.mode == if over { Mode::Degraded } else { node.state.mode }
            &&& !over ==> after.state.state_entered_tick == if known {
                node.state.state_entered_tick
            } else {
                tick
            }
            &&& after.state.load == node.state.load
        }),
        node.state.mode == Mode::Degraded ==> node.after_prediction(None, tick, recorded_at).0.state.mode == Mode::Degraded,
{
}

/// A degraded node whose model answers again without urging it to move its load or to leave is normal again exactly when
/// the model has been back for the set time, provided that the node is no threat; its finding tells since when.
pub proof fn law_recovery(node: NodeView, p: ProposalView, tick: u64, recorded_at: u64)
    requires
        node.state.mode == Mode::Degraded,
        p.action != ProposalAction::ReduceLoad,
        p.action != ProposalAction::IncreaseLoad,
        p.action != ProposalAction::EnterIsolation,
    ensures
        ({
            let after = node.after_prediction(Some(p), tick, recorded_at).0;
            let sec = node.config.security;
            let limit = node.config.ai.ticks_to_normal;
            let first = node.state.ai_state_reason == "ai_module_offline"@;
            let over = if first { limit == 0 } else { tick >= node.state.state_entered_tick + limit || limit == 0 };
            let threat = sec.threat_score_isolation.at_most(node.state.last_threat_score) || node.state.failed_auth_count
                > sec.max_failed_auth;
            &&& after.state.mode == if over && !threat { Mode::Normal } else { Mode::Degraded }
            &&& first && !over ==> after.state.ai_state_reason == "ai_recovering"@ && after.state.state_entered_tick == tick
        }),
{
}

/// What a node does on its model's word, while the model is at work: it rates itself by the model's score, remembers the
/// proposal, and puts it to the supervisor. Where that allows it, the node does it and takes the model's finding on;
/// else its mode and load stay.
pub proof fn law_prediction(node: NodeView, p: ProposalView, tick: u64, recorded_at: u64)
    requires
        node.state.mode != Mode::Degraded,
        p.action != ProposalAction::EnterDegraded,
        p.action != ProposalAction::ExitDegraded,
    ensures
        ({
            let (after, moved) = node.after_prediction(Some(p), tick, recorded_at);
            let rated = StateView { last_threat_score: p.threat_score, ..node.state };
            let verdict = judged(p, rated, node.config, tick, node.neighbor_signals);
            &&& after.last_proposal == Some(p)
            &&& after.state.last_threat_score == p.threat_score
            &&& moved <==> verdict.allowed && p.action != ProposalAction::DoNothing
            &&& verdict.allowed ==> after.state.ai_state_reason == p.predicted_state
            &&& !verdict.allowed ==> after.state == rated
            &&& verdict.allowed ==> {
                &&& p.action == ProposalAction::ReduceLoad ==> after.state.mode == Mode::Throttled && after.state.load
                    == reduced_load(node.state.load, node.config)
                &&& p.action == ProposalAction::IncreaseLoad ==> after.state.mode == Mode::Boosted && after.state.load
                    == increased_load(node.state.load, node.config)
                &&& p.action == ProposalAction::EnterIsolation ==> after.state.mode == Mode::Isolated
                &&& p.action == ProposalAction::DoNothing ==> after.state.mode == node.state.mode && after.state.load
                    == node.state.load
            }
            &&& after.pending_ai_decisions.len() == node.pending_ai_decisions.len() + 1
            &&& after.pending_ai_decisions.last().class_name == p.predicted_state
            &&& after.pending_ai_decisions.last().reason == p.event_reason
            &&& after.pending_ai_decisions.last().threat == p.threat_score
            &&& after.pending_ai_decisions.last().confidence == p.confidence
            &&& after.pending_ai_decisions.last().node_id == node.id
            &&& after.pending_ai_decisions.last().tick == tick
            &&& after.pending_lifecycle.len() == node.pending_lifecycle.len() + 1
            &&& after.pending_lifecycle.last().allowed == verdict.allowed
            &&& after.pending_lifecycle.last().supervisor_reason == verdict.reason
        }),
{
}

/// Throttled and boosted nodes whose model does not move them see at the end of a tick whether to return. While more than
/// half of their neighbours press them they hold on for another period with their load as it is. Else, where the
/// supervisor agrees, they are normal again. Where it does not, they take one step more in their direction, if that is
/// allowed, and hold on in any case. Other nodes are left as they are.
pub proof fn law_calibration(node: NodeView, tick: u64, recorded_at: u64)
    ensures
        ({
            let after = node.calibrated(tick, recorded_at);
            let at_it = node.state.mode == Mode::Throttled || node.state.mode == Mode::Boosted;
            let back = node.judgement(node.exit_proposal(), tick).allowed;
            let hold = node.config.load_calibration.hold_ticks;
            &&& node.exit_proposal().action == ProposalAction::ExitCalibration
            &&& !at_it ==> after == node
            &&& at_it && node.pressure(tick) ==> after.state == StateView { load_hold_ticks_left: hold, ..node.state }
            &&& at_it && !node.pressure(tick) && back ==> after.state == StateView {
                mode: Mode::Normal,
                state_entered_tick: tick,
                load_hold_ticks_left: 0,
                ..node.state
            }
            &&& at_it && !node.pressure(tick) && !back ==> after.state.load_hold_ticks_left == hold && after.state.mode
                == node.state.mode
            &&& at_it && !node.pressure(tick) && !back && node.state.mode == Mode::Throttled ==> after.state.load
                == reduced_load(node.state.load, node.config) || after.state.load == node.state.load
            &&& at_it && !node.pressure(tick) && !back && node.state.mode == Mode::Boosted ==> after.state.load == if has_room(
                node.state,
                node.config,
            ) { increased_load(node.state.load, node.config) } else { node.state.load }
        }),
{
    assert(node.scored(node.state.last_threat_score) == node);
}

/// The second step of a tick ends by remembering the score, whichever way it went.
pub proof fn law_score_is_remembered(node: NodeView, answer: Option<ProposalView>, tick: u64, recorded_at: u64)
    requires
        node.config.security.min_quarantine_ticks > 0,
    ensures
        ({
            let after = node.resumed(Asking::Prediction, answer, tick, recorded_at);
            &&& after.state.threat_score_history.len() > 0
            &&& after.state.threat_score_history.last() == after.state.last_threat_score
            &&& node.resumed(Asking::Nothing, answer, tick, recorded_at) == node
        }),
{
    reveal(NodeView::resumed);
}

/// A decision leaves a record behind all earlier ones of what was proposed, on whose account, what the supervisor said to it,
/// and what it changed.
pub proof fn law_record_of_decision(node: NodeView, p: ProposalView, tick: u64, source: SourceView, recorded_at: u64)
    ensures
        ({
            let after = node.decided(p, tick, source, recorded_at);
            let e = after.pending_lifecycle.last();
            let rated = StateView { last_threat_score: p.threat_score, ..node.state };
            let verdict = judged(p, rated, node.config, tick, node.neighbor_signals);
            &&& after.pending_lifecycle == node.pending_lifecycle.push(e)
            &&& e.tick == tick
            &&& e.node_id == node.id
            &&& e.ai_predict == source
            &&& e.proposal_action == p.action.text()
            &&& e.proposal_predicted_state == p.predicted_state
            &&& e.proposal_event_reason == p.event_reason
            &&& e.proposal_threat_score == p.threat_score
            &&& e.proposal_confidence == p.confidence
            &&& e.allowed == verdict.allowed
            &&& e.supervisor_reason == verdict.reason
            &&& e.recorded_at == recorded_at
            &&& e.change.load == if after.state.load == node.state.load { None } else {
                Some((node.state.load, after.state.load))
            }
            &&& e.change.active_connections == if after.state.active_connections == node.state.active_connections {
                None
            } else {
                Some((node.state.active_connections, after.state.active_connections))
            }
            &&& !verdict.allowed ==> after.state == rated
            &&& verdict.allowed ==> after.state == carried_out(p.action, rated, node.config, tick)
            &&& after == NodeView { state: after.state, pending_lifecycle: after.pending_lifecycle, ..node }
        }),
{
}

/// A node that is free, is not advised anything, has no isolated neighbour and has an overloaded one raises its load at once,
/// without asking its model, where the supervisor allows it.
pub proof fn law_overload_is_relieved(node: NodeView, tick: u64, recorded_at: u64)
    requires
        free(node, tick),
        node.advisory_proposal(tick) is None,
        node.isolation_proposal(tick) is None,
        node.overload_proposal(tick) is Some,
        judged(node.overload_proposal(tick)->0, node.state, node.config, tick, node.neighbor_signals).allowed,
    ensures
        node.begun(tick, recorded_at).1 == Asking::Nothing,
        boosted_by(node, node.begun(tick, recorded_at).0, tick),
{
    reveal(NodeView::begun);
    assert(node.scored(node.state.last_threat_score) == node);
}

/// A node that is free, is not advised anything, has neither an isolated nor an overloaded neighbour and has a boosted one
/// below the average raises its load at once, without asking its model, where it is no threat and has room.
pub proof fn law_underload_is_answered(node: NodeView, tick: u64, recorded_at: u64)
    requires
        free(node, tick),
        node.advisory_proposal(tick) is None,
        node.isolation_proposal(tick) is None,
        node.overload_proposal(tick) is None,
        node.underload_proposal(tick) is Some,
        has_room(node.state, node.config),
    ensures
        node.begun(tick, recorded_at).1 == Asking::Nothing,
        boosted_by(node, node.begun(tick, recorded_at).0, tick),
{
    reveal(NodeView::begun);
}

/// What a node's first step asks its model for: an isolated node for its self-check, and one that is on its way back, that
/// was voted out or that holds its load for nothing.
pub proof fn law_asked_for(node: NodeView, tick: u64, recorded_at: u64)
    ensures
        ({
            let asking = node.begun(tick, recorded_at).1;
            let out = node.consensus_proposal(tick) is Some;
            let mode = node.state.mode;
            &&& asking == Asking::SelfCheck <==> mode == Mode::Isolated
            &&& mode == Mode::Reconnecting ==> asking == Asking::Nothing
            &&& mode != Mode::Isolated && out ==> asking == Asking::Nothing
            &&& mode != Mode::Isolated && node.state.load_hold_ticks_left > 0 ==> asking == Asking::Nothing
        }),
{
    reveal(NodeView::begun);
}

/// A degraded node does at once what its model urges it to do, if the supervisor allows it: it leaves the network where the
/// reason is grave, even while the model has been back for a short time only.
pub proof fn law_degraded_node_leaves(node: NodeView, p: ProposalView, tick: u64, recorded_at: u64)
    requires
        node.state.mode == Mode::Degraded,
        p.action == ProposalAction::EnterIsolation,
        node.config.security.threat_score_isolation.below(p.threat_score) || node.state.failed_auth_count
            > node.config.security.max_failed_auth || p.predicted_state == "malware_detected"@,
    ensures
        node.after_prediction(Some(p), tick, recorded_at).0.state.mode == Mode::Isolated,
        node.after_prediction(Some(p), tick, recorded_at).1,
        node.after_prediction(Some(p), tick, recorded_at).0.state.ai_state_reason == p.predicted_state,
{
}

} // verus!
