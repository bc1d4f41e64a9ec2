//! What holds of the questions that the models are asked.

use vstd::prelude::*;

use crate::ai_module::{
    in_mode, largest_threat, neighbor_features, of_others, self_features, suspects, AskOutcome, AskStep,
};
use crate::lists::lemma_filters_agree;
use crate::node::signals::{all_of, fresh, running_sum, total};
use crate::node::{HistoryView, Mode, NodeView, SignalType, SignalView};
use crate::single::{law_whole_sum, law_whole_zero, Single};
use crate::verdicts::lemma_total_most;

verus! {

/// Bytes add up exactly.
proof fn lemma_running_bytes(s: Seq<SignalView>, f: spec_fn(SignalView) -> Single, g: spec_fn(SignalView) -> nat)
    requires
        s.len() <= 0xffff,
        forall|x: SignalView| #[trigger] g(x) <= 255 && f(x) == Single::whole(g(x)),
    ensures
        running_sum(s, f) == Single::whole(total(s, g)),
        total(s, g) <= s.len() * 255,
    decreases s.len(),
{
    lemma_total_most(s, g, 1, 255);
    if s.len() > 0 {
        lemma_running_bytes(s.drop_last(), f, g);
        assert(g(s.last()) <= 255 && f(s.last()) == Single::whole(g(s.last())));
        law_whole_sum(total(s.drop_last(), g), g(s.last()));
    } else {
        law_whole_zero();
    }
}

/// A node's own model is told of the node as it is, of how long ago it was in step and entered its state, and of its
/// neighbours by all signals that it holds: how many tell of each kind of trouble, how many are votes of this tick
/// against it, and the loads, failed logins and connections in all of them, divided by the number of those who sent any.
pub proof fn law_own_model_is_told(node: NodeView, tick: u64)
    requires
        all_of(node.neighbor_signals).len() <= 0xffff,
        node.neighbor_ids.len() <= usize::MAX,
    ensures
        ({
            let told = self_features(node, tick);
            let m = told.metrics;
            let all = all_of(node.neighbor_signals);
            let senders = node.neighbor_signals.dom().len();
            &&& m.self_load == node.state.load
            &&& m.self_temperature == node.state.temperature
            &&& m.active_connections == node.state.active_connections
            &&& m.failed_auth_count == node.state.failed_auth_count
            &&& m.last_sync_age_sec == if tick > node.state.last_sync_time { tick - node.state.last_sync_time } else { 0 }
            &&& m.time_in_state_sec == if tick > node.state.state_entered_tick {
                tick - node.state.state_entered_tick
            } else {
                0
            }
            &&& m.previous_threat_score == node.state.last_threat_score
            &&& told.threat_score_history == node.state.threat_score_history
            &&& told.ai_state_reason == node.state.ai_state_reason
            &&& m.neighbor_count == node.neighbor_ids.len()
            &&& m.neighbors_isolated == all.filter(|x: SignalView| x.mode == Mode::Isolated).len()
            &&& m.neighbors_degraded == all.filter(|x: SignalView| x.mode == Mode::Degraded).len()
            &&& m.neighbors_reconnecting == all.filter(|x: SignalView| x.mode == Mode::Reconnecting).len()
            &&& m.peer_suspicion_count == all.filter(
                |x: SignalView|
                    x.signal_type == SignalType::PeerSuspicion && x.target_id == Some(node.id) && x.timestamp == tick,
            ).len()
            &&& senders == 0 ==> m.neighbors_avg_load == (Single { bits: 0 }) && m.neighbors_failed_auth_avg == (Single {
                bits: 0,
            }) && m.neighbors_avg_connections == (Single { bits: 0 })
            &&& senders > 0 ==> {
                &&& m.neighbors_avg_load == Single::whole(total(all, |x: SignalView| x.load as nat)).quotient(
                    Single::whole(senders),
                )
                &&& m.neighbors_failed_auth_avg == Single::whole(total(all, |x: SignalView| x.failed_auth_count as nat)).quotient(
                    Single::whole(senders),
                )
                &&& m.neighbors_avg_connections == Single::whole(
                    total(all, |x: SignalView| x.active_connections as nat),
                ).quotient(Single::whole(senders))
            }
        }),
{
    let all = all_of(node.neighbor_signals);
    lemma_filters_agree(
        all,
        |x: SignalView| suspects(x, node.id, tick),
        |x: SignalView| x.signal_type == SignalType::PeerSuspicion && x.target_id == Some(node.id) && x.timestamp == tick,
    );
    all.lemma_filter_len(|x: SignalView| suspects(x, node.id, tick));
    lemma_in_mode(all, Mode::Isolated);
    lemma_in_mode(all, Mode::Degraded);
    lemma_in_mode(all, Mode::Reconnecting);
    lemma_running_bytes(all, |x: SignalView| Single::whole(x.load as nat), |x: SignalView| x.load as nat);
    lemma_running_bytes(
        all,
        |x: SignalView| Single::whole(x.failed_auth_count as nat),
        |x: SignalView| x.failed_auth_count as nat,
    );
    lemma_running_bytes(
        all,
        |x: SignalView| Single::whole(x.active_connections as nat),
        |x: SignalView| x.active_connections as nat,
    );
}

proof fn lemma_in_mode(all: Seq<SignalView>, mode: Mode)
    ensures
        in_mode(all, mode) <= all.len(),
        mode == Mode::Isolated ==> in_mode(all, mode) == all.filter(|x: SignalView| x.mode == Mode::Isolated).len(),
        mode == Mode::Degraded ==> in_mode(all, mode) == all.filter(|x: SignalView| x.mode == Mode::Degraded).len(),
        mode == Mode::Reconnecting ==> in_mode(all, mode) == all.filter(
            |x: SignalView| x.mode == Mode::Reconnecting,
        ).len(),
{
    all.lemma_filter_len(|x: SignalView| x.mode == mode);
    if mode == Mode::Isolated {
        lemma_filters_agree(all, |x: SignalView| x.mode == mode, |x: SignalView| x.mode == Mode::Isolated);
    }
    if mode == Mode::Degraded {
        lemma_filters_agree(all, |x: SignalView| x.mode == mode, |x: SignalView| x.mode == Mode::Degraded);
    }
    if mode == Mode::Reconnecting {
        lemma_filters_agree(all, |x: SignalView| x.mode == mode, |x: SignalView| x.mode == Mode::Reconnecting);
    }
}

/// The largest score that a model is told of is zero or one of those in the signals, and no score in them is larger.
pub proof fn law_largest_threat(s: Seq<SignalView>)
    ensures
        !largest_threat(s).nan(),
        forall|i: int|
            0 <= i < s.len() && !(#[trigger] s[i]).threat_score.nan() ==> s[i].threat_score.at_most(largest_threat(s)),
        largest_threat(s) == (Single { bits: 0 }) || exists|i: int|
            0 <= i < s.len() && (#[trigger] s[i]).threat_score == largest_threat(s),
    decreases s.len(),
{
    if s.len() > 0 {
        let t = s.drop_last();
        law_largest_threat(t);
        let before = largest_threat(t);
        let after = largest_threat(s);
        assert forall|i: int| 0 <= i < s.len() && !(#[trigger] s[i]).threat_score.nan() implies s[i].threat_score.at_most(after) by {
            if i < t.len() {
                assert(t[i] == s[i]);
            }
        }
        if after != before {
            assert(s[s.len() - 1].threat_score == after);
        } else if before != (Single { bits: 0 }) {
            let i = choose|i: int| 0 <= i < t.len() && (#[trigger] t[i]).threat_score == before;
            assert(s[i].threat_score == after);
        }
    }
}

/// What the neighbour model is told of the network round a signal: the averages over the signals of all others that are
/// not stale, or the signal's own numbers where there are none; and how long the sender has been in its mode and how many
/// of its signals came lately.
pub proof fn law_neighbor_model_is_told(
    signal: SignalView,
    tick: u64,
    past: HistoryView,
    signals: Map<u32, Seq<SignalView>>,
    ttl: u64,
)
    requires
        all_of(signals).len() <= 0xffff,
        past.recent_timestamps.len() <= u32::MAX,
    ensures
        ({
            let told = neighbor_features(signal, tick, past, signals, ttl);
            let others = all_of(signals).filter(
                |x: SignalView| x.source_id != signal.source_id && x.timestamp + ttl >= tick,
            );
            &&& told.signals_seen_recent == past.recent_timestamps.len()
            &&& told.time_in_mode_ticks == if tick > past.mode_entered_tick { tick - past.mode_entered_tick } else { 0 }
            &&& past.last_signal matches Some(last) ==> told.threat_score_delta == signal.threat_score.difference(
                last.threat_score,
            )
            &&& past.last_signal is None ==> told.threat_score_delta == (Single { bits: 0 })
            &&& others.len() == 0 ==> told.network_avg_load == Single::whole(signal.load as nat)
                && told.network_avg_failed_auth == Single::whole(signal.failed_auth_count as nat)
            &&& others.len() > 0 ==> told.network_avg_load == Single::whole(total(others, |x: SignalView| x.load as nat)).quotient(
                Single::whole(others.len()),
            ) && told.network_avg_failed_auth == Single::whole(
                total(others, |x: SignalView| x.failed_auth_count as nat),
            ).quotient(Single::whole(others.len()))
        }),
{
    let all = all_of(signals);
    let others = of_others(signals, signal.source_id, tick, ttl);
    lemma_filters_agree(
        all,
        |x: SignalView| x.source_id != signal.source_id && fresh(x, tick, ttl),
        |x: SignalView| x.source_id != signal.source_id && x.timestamp + ttl >= tick,
    );
    let source_id = signal.source_id;
    lemma_filters_agree(
        all,
        |x: SignalView| x.source_id != source_id && fresh(x, tick, ttl),
        |x: SignalView| x.source_id != signal.source_id && x.timestamp + ttl >= tick,
    );
    all.lemma_filter_len(|x: SignalView| x.source_id != source_id && fresh(x, tick, ttl));
    lemma_running_bytes(others, |x: SignalView| Single::whole(x.load as nat), |x: SignalView| x.load as nat);
    lemma_running_bytes(
        others,
        |x: SignalView| Single::whole(x.failed_auth_count as nat),
        |x: SignalView| x.failed_auth_count as nat,
    );
}

/// A question whose steps all succeed is written and then answered. One that cannot be written is written once more, to a
/// process started anew. Where the process closes its output it is started anew, and the question is given up.
pub proof fn law_asking_goes_on()
    ensures
        AskStep::Write.after(AskOutcome::Done).after(AskOutcome::Done) == AskStep::Answered,
        forall|o: AskOutcome|
            o != AskOutcome::Done ==> (#[trigger] AskStep::Write.after(o)).after(AskOutcome::Done) == AskStep::WriteAgain,
        AskStep::WriteAgain.after(AskOutcome::Done) == AskStep::Read,
        forall|o: AskOutcome| o != AskOutcome::Done ==> (#[trigger] AskStep::WriteAgain.after(o)) == AskStep::Failed,
        AskStep::Read.after(AskOutcome::Nothing).after(AskOutcome::Done) == AskStep::Died,
        AskStep::Read.after(AskOutcome::Error) == AskStep::Failed,
{
}

} // verus!
