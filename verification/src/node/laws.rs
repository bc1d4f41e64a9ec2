//! What holds of a node's decisions, in terms of what it holds and of what it is told.

use vstd::prelude::*;

use crate::ai_module::suspects;
use crate::config::Config;
use crate::lists::lemma_filtered;
use crate::node::signals::{all_of, law_all_of, sources};
use crate::node::tick::Asking;
use crate::node::topology::{estimated_threat, history_of, watches, FAILED_LOGIN, OWN_FINDING, PASSED_ON};
use crate::node::{Mode, NodeView, ReconnectView, SignalType, SignalView};
use crate::proposal::{ProposalAction, ProposalView};
use crate::single::{Single, ONE};
use crate::verdicts::holds;

verus! {

/// The last `n` scores of the node are there, and each of them is below the limit for a calm node.
pub open spec fn calm_for(node: NodeView, n: u64) -> bool {
    let scores = node.state.threat_score_history;
    &&& scores.len() >= n
    &&& forall|k: int|
        1 <= k <= n ==> (#[trigger] scores[scores.len() - k]).below(node.config.security.threat_score_normal)
}

/// An isolated node begins its way back exactly where its model says so, or where its model recommends nothing and
/// its quarantine is over: as many ticks have passed since it was isolated as are set, in as many it was calm,
/// and no login has failed. In both cases it must be neither hotter nor busier than usual and no threat by its
/// model's score and its failed logins. In all other cases, a silent model included, it stays isolated.
pub proof fn law_quarantine(node: NodeView, answer: Option<ProposalView>, tick: u64, recorded_at: u64)
    requires
        node.state.mode == Mode::Isolated,
    ensures
        ({
            let after = node.resumed(node.begun(tick, recorded_at).1, answer, tick, recorded_at);
            let sec = node.config.security;
            let state = node.state;
            let served = (tick >= state.state_entered_tick + sec.min_quarantine_ticks || sec.min_quarantine_ticks == 0)
                && calm_for(node, sec.min_quarantine_ticks) && state.failed_auth_count == 0;
            let sent = match answer {
                Some(p) => p.action == ProposalAction::BeginReconnect || (p.action == ProposalAction::DoNothing && served),
                None => false,
            };
            let fit = state.temperature <= node.config.node_defaults.temperature && state.load
                <= node.config.node_defaults.load && state.failed_auth_count <= sec.max_failed_auth
                && !sec.threat_score_isolation.at_most(answer->0.threat_score);
            &&& after.state.mode == if sent && fit { Mode::Reconnecting } else { Mode::Isolated }
            &&& after.state.mode == Mode::Reconnecting ==> after.state.state_entered_tick == tick && after.reconnect
                == Some(ReconnectView { started_at_tick: tick, confirmed_by: Set::empty(), attempts: 0 })
        }),
{
    reveal(NodeView::begun);
    reveal(NodeView::resumed);
    let p = node.self_check_proposal(answer, tick);
    lemma_check_proposal(node, answer, tick);
    lemma_after_check(node, answer, tick, recorded_at);
    let checked = node.self_checked(answer, tick).scored(p.threat_score).remembered();
    lemma_isolated_verdict(checked, p, tick);
}

/// What the supervisor lets an isolated node do.
proof fn lemma_isolated_verdict(node: NodeView, p: ProposalView, tick: u64)
    requires
        node.state.mode == Mode::Isolated,
    ensures
        node.judgement(p, tick).allowed <==> p.action == ProposalAction::DoNothing || (p.action
            == ProposalAction::BeginReconnect && !node.config.security.threat_score_isolation.at_most(
            node.state.last_threat_score,
        ) && node.state.failed_auth_count <= node.config.security.max_failed_auth && node.state.temperature
            <= node.config.node_defaults.temperature && node.state.load <= node.config.node_defaults.load),
{
}

/// What an isolated node proposes to itself.
proof fn lemma_check_proposal(node: NodeView, answer: Option<ProposalView>, tick: u64)
    requires
        node.state.mode == Mode::Isolated,
    ensures
        ({
            let p = node.self_check_proposal(answer, tick);
            let sec = node.config.security;
            let served = (tick >= node.state.state_entered_tick + sec.min_quarantine_ticks || sec.min_quarantine_ticks == 0)
                && calm_for(node, sec.min_quarantine_ticks) && node.state.failed_auth_count == 0 && node.state.temperature
                <= node.config.node_defaults.temperature && node.state.load <= node.config.node_defaults.load;
            &&& answer matches Some(q) ==> p.threat_score == q.threat_score && p.action == if q.action
                == ProposalAction::DoNothing && served { ProposalAction::BeginReconnect } else { q.action }
            &&& answer is None ==> p.action == ProposalAction::DoNothing || p.action == ProposalAction::EnterDegraded
        }),
{
    let n = node.config.security.min_quarantine_ticks;
    let scores = node.state.threat_score_history;
    let limit = node.config.security.threat_score_normal;
    if calm_for(node, n) {
        assert forall|i: int| scores.len() - n <= i < scores.len() implies (#[trigger] scores[i]).below(limit) by {
            assert(scores[scores.len() - (scores.len() - i)].below(limit));
        }
    }
    if answer is Some {
        assert(node.informed(answer, tick) == node);
        assert(node.secure() <==> calm_for(node, n) && node.state.failed_auth_count == 0);
    }
}

/// What becomes of an isolated node by its self-check.
proof fn lemma_after_check(node: NodeView, answer: Option<ProposalView>, tick: u64, recorded_at: u64)
    requires
        node.state.mode == Mode::Isolated,
    ensures
        ({
            let p = node.self_check_proposal(answer, tick);
            let checked = node.self_checked(answer, tick).scored(p.threat_score).remembered();
            let allowed = checked.judgement(p, tick).allowed;
            let after = node.after_self_check(answer, tick, recorded_at);
            &&& checked.config == node.config
            &&& checked.state.mode == Mode::Isolated
            &&& checked.state.load == node.state.load
            &&& checked.state.temperature == node.state.temperature
            &&& checked.state.failed_auth_count == node.state.failed_auth_count
            &&& checked.state.last_threat_score == p.threat_score
            &&& !allowed ==> after.state == checked.state
            &&& allowed && p.action == ProposalAction::DoNothing ==> after.state.mode == Mode::Isolated
            &&& allowed && p.action == ProposalAction::BeginReconnect ==> {
                &&& after.state.mode == Mode::Reconnecting
                &&& after.state.state_entered_tick == tick
                &&& after.reconnect == Some(
                    ReconnectView { started_at_tick: tick, confirmed_by: Set::empty(), attempts: 0 },
                )
            }
        }),
{
}

/// A node watches exactly those of the signals it holds that are not stale, not its own and not addressed to it.
pub proof fn law_watched(node: NodeView, tick: u64, x: SignalView)
    ensures
        node.watched(tick).contains(x) <==> holds(node.neighbor_signals, x, tick, node.config.security.stale_ttl)
            && x.source_id != node.id && x.target_id != Some(node.id),
{
    let ttl = node.config.security.stale_ttl;
    lemma_filtered(all_of(node.neighbor_signals), |x: SignalView| watches(x, node.id, tick, ttl), x);
    law_all_of(node.neighbor_signals, x);
}

/// What the node takes the sender of the `i`th watched signal for: what the model replies, or else its own estimate.
pub open spec fn threat_seen(node: NodeView, tick: u64, replies: Seq<Option<Single>>, i: int) -> Single {
    if i < replies.len() && replies[i] is Some {
        replies[i]->0
    } else {
        estimated_threat(node.watched(tick)[i], node.config)
    }
}

/// The sender of the `i`th watched signal is to be accused: it is taken for a threat and is not isolated yet.
pub open spec fn to_accuse(node: NodeView, tick: u64, replies: Seq<Option<Single>>, i: int) -> bool {
    &&& node.config.security.threat_score_isolation.at_most(threat_seen(node, tick, replies, i))
    &&& node.watched(tick)[i].mode != Mode::Isolated
}

/// A node casts a vote for every watched signal whose sender is to be accused, whatever the others are: against the
/// sender, with the score that it was taken for, in the order of the signals; and it casts no other votes.
pub proof fn law_every_suspect_is_accused(node: NodeView, tick: u64, replies: Seq<Option<Single>>)
    ensures
        ({
            let n = node.watched(tick).len();
            let votes = node.accusations(tick, replies, n);
            let guilty = Seq::new(n, |i: int| i).filter(|i: int| to_accuse(node, tick, replies, i));
            &&& votes.len() == guilty.len()
            &&& forall|k: int|
                #![trigger votes[k]]
                0 <= k < votes.len() ==> {
                    &&& votes[k].target_id == Some(node.watched(tick)[guilty[k]].source_id)
                    &&& votes[k].threat_score == threat_seen(node, tick, replies, guilty[k])
                    &&& votes[k].signal_type == SignalType::PeerSuspicion
                    &&& votes[k].source_id == node.id
                    &&& votes[k].timestamp == tick
                }
            &&& forall|i: int|
                #![trigger node.watched(tick)[i]]
                0 <= i < n && to_accuse(node, tick, replies, i) ==> exists|k: int|
                    0 <= k < votes.len() && (#[trigger] votes[k]).target_id == Some(node.watched(tick)[i].source_id)
                        && votes[k].threat_score == threat_seen(node, tick, replies, i)
        }),
{
    let n = node.watched(tick).len();
    lemma_accusations(node, tick, replies, n);
    let votes = node.accusations(tick, replies, n);
    let all = Seq::new(n, |i: int| i);
    let p = |i: int| to_accuse(node, tick, replies, i);
    let guilty = all.filter(p);
    assert forall|i: int| #![trigger node.watched(tick)[i]] 0 <= i < n && to_accuse(node, tick, replies, i) implies exists|k: int|
        0 <= k < votes.len() && (#[trigger] votes[k]).target_id == Some(node.watched(tick)[i].source_id)
            && votes[k].threat_score == threat_seen(node, tick, replies, i) by {
        assert(all[i] == i);
        assert(all.contains(i));
        lemma_filtered(all, p, i);
        let k = guilty.index_of(i);
        assert(votes[k].target_id == Some(node.watched(tick)[guilty[k]].source_id));
    }
}

proof fn lemma_accusations(node: NodeView, tick: u64, replies: Seq<Option<Single>>, n: nat)
    ensures
        ({
            let votes = node.accusations(tick, replies, n);
            let guilty = Seq::new(n, |i: int| i).filter(|i: int| to_accuse(node, tick, replies, i));
            &&& votes.len() == guilty.len()
            &&& forall|k: int|
                #![trigger votes[k]]
                0 <= k < votes.len() ==> {
                    &&& votes[k].target_id == Some(node.watched(tick)[guilty[k]].source_id)
                    &&& votes[k].threat_score == threat_seen(node, tick, replies, guilty[k])
                    &&& votes[k].signal_type == SignalType::PeerSuspicion
                    &&& votes[k].source_id == node.id
                    &&& votes[k].timestamp == tick
                }
        }),
    decreases n,
{
    reveal(Seq::filter);
    if n > 0 {
        lemma_accusations(node, tick, replies, (n - 1) as nat);
        let p = |i: int| to_accuse(node, tick, replies, i);
        let all = Seq::new(n, |i: int| i);
        let before = Seq::new((n - 1) as nat, |i: int| i);
        assert(all.drop_last() =~= before);
        assert(all.last() == n - 1);
        assert(all.filter(p) == if p(n - 1) { before.filter(p).push(n - 1) } else { before.filter(p) });
    }
}

/// The neighbour model is asked once for each watched signal, in their order: of the signal's contents, and of how
/// often the sender was suspected and isolated before.
pub proof fn law_questions_follow_signals(node: NodeView, tick: u64, i: int)
    requires
        0 <= i < node.watched(tick).len(),
    ensures
        ({
            let x = node.watched(tick)[i];
            let q = node.suspicion_questions(tick)[i];
            let past = history_of(node.neighbor_history, x.source_id);
            &&& node.suspicion_questions(tick).len() == node.watched(tick).len()
            &&& q.load == x.load
            &&& q.active_connections == x.active_connections
            &&& q.failed_auth_count == x.failed_auth_count
            &&& q.threat_score == x.threat_score
            &&& q.ai_state_reason == x.ai_state_reason
            &&& q.mode == x.mode.text()
            &&& q.signal_type == x.signal_type.text()
            &&& q.signal_age_ticks == if tick > x.timestamp { tick - x.timestamp } else { 0 }
            &&& q.prior_suspicion_votes_against == past.suspicion_votes_cast
            &&& q.times_isolated_historically == past.times_isolated
            &&& q.mode_changed <==> past.last_signal is Some && past.last_signal->0.mode != x.mode
            &&& past.last_signal matches Some(last) ==> {
                &&& last.load + q.load_delta == x.load
                &&& last.failed_auth_count + q.failed_auth_delta == x.failed_auth_count
                &&& last.active_connections + q.active_connections_delta == x.active_connections
            }
            &&& past.last_signal is None ==> q.load_delta == 0 && q.failed_auth_delta == 0 && q.active_connections_delta
                == 0
        }),
{
}

/// The estimate of a neighbour's threat starts from its own score, and each thing that speaks against it adds its
/// part: a finding of its own 0.7, one that it may have caught 0.4, too many failed logins 0.2 for each, and an alarm
/// or isolation 0.2. Nothing else does, and the sum is one at most.
pub proof fn law_estimate(signal: SignalView, cfg: Config)
    ensures
        ({
            let finding = signal.ai_state_reason;
            let own = finding == "malware_detected"@ || finding == "auth_bruteforce_detected"@ || finding
                == "integrity_violation"@;
            let caught = finding == "peer_consensus_isolation"@ || finding == "neighbor_cascade_failure"@ || finding
                == "reconnect_timeout_failure"@;
            let logins = signal.failed_auth_count > cfg.security.max_failed_auth;
            let alarm = signal.signal_type == SignalType::Alert || signal.signal_type == SignalType::Isolation;
            let score = signal.threat_score;
            let most = Single { bits: ONE };
            let seen = estimated_threat(signal, cfg);
            &&& !own && !caught && !logins && !alarm ==> seen == score.smaller(most)
            &&& own && !caught && !logins && !alarm ==> seen == score.sum(Single { bits: OWN_FINDING }).smaller(most)
            &&& !own && caught && !logins && !alarm ==> seen == score.sum(Single { bits: PASSED_ON }).smaller(most)
            &&& !own && !caught && logins && !alarm ==> seen == score.sum(
                Single { bits: FAILED_LOGIN }.product(Single::whole(signal.failed_auth_count as nat)),
            ).smaller(most)
            &&& !own && !caught && !logins && alarm ==> seen == score.sum(Single { bits: FAILED_LOGIN }).smaller(most)
            &&& own && !caught && !logins && alarm ==> seen == score.sum(Single { bits: OWN_FINDING }).sum(
                Single { bits: FAILED_LOGIN },
            ).smaller(most)
        }),
{
}

/// Who votes against a node in a tick: exactly the senders of the votes of this tick against it that it holds.
pub proof fn law_accusers(node: NodeView, tick: u64, id: u32)
    ensures
        node.accusers(tick).contains(id) <==> exists|x: SignalView|
            (exists|from: u32| #[trigger] node.neighbor_signals.contains_key(from) && node.neighbor_signals[from].contains(x))
                && (#[trigger] x.source_id) == id && x.signal_type == SignalType::PeerSuspicion && x.target_id == Some(
                node.id,
            ) && x.timestamp == tick,
{
    let all = all_of(node.neighbor_signals);
    let p = |x: SignalView| suspects(x, node.id, tick);
    lemma_sources(all, p, id);
    if node.accusers(tick).contains(id) {
        let x = choose|x: SignalView| #[trigger] all.contains(x) && p(x) && x.source_id == id;
        law_all_of(node.neighbor_signals, x);
        assert(x.source_id == id);
    }
    if exists|x: SignalView|
        (exists|from: u32| #[trigger] node.neighbor_signals.contains_key(from) && node.neighbor_signals[from].contains(x))
            && (#[trigger] x.source_id) == id && x.signal_type == SignalType::PeerSuspicion && x.target_id == Some(
            node.id,
        ) && x.timestamp == tick {
        let x = choose|x: SignalView|
            (exists|from: u32| #[trigger] node.neighbor_signals.contains_key(from) && node.neighbor_signals[from].contains(x))
                && (#[trigger] x.source_id) == id && x.signal_type == SignalType::PeerSuspicion && x.target_id == Some(
                node.id,
            ) && x.timestamp == tick;
        law_all_of(node.neighbor_signals, x);
        assert(all.contains(x) && p(x));
    }
}

/// The sources of what passes.
pub(crate) proof fn lemma_sources(s: Seq<SignalView>, p: spec_fn(SignalView) -> bool, id: u32)
    ensures
        sources(s.filter(p)).contains(id) <==> exists|x: SignalView| #[trigger] s.contains(x) && p(x) && x.source_id == id,
{
    let f = s.filter(p);
    let ids = f.map_values(|x: SignalView| x.source_id);
    if sources(f).contains(id) {
        let k = ids.index_of(id);
        lemma_filtered(s, p, f[k]);
        assert(f.contains(f[k]));
        assert(s.contains(f[k]) && p(f[k]) && f[k].source_id == id);
    }
    if exists|x: SignalView| #[trigger] s.contains(x) && p(x) && x.source_id == id {
        let x = choose|x: SignalView| #[trigger] s.contains(x) && p(x) && x.source_id == id;
        lemma_filtered(s, p, x);
        let k = f.index_of(x);
        assert(ids[k] == id);
    }
}

/// A node that is at work leaves the network by its neighbours' vote exactly where it has neighbours, and the number
/// of those that vote against it in this tick is two thirds of them at least, and the configured number at least.
pub proof fn law_verdict_of_neighbors(node: NodeView, tick: u64, recorded_at: u64)
    ensures
        ({
            let n = node.neighbor_ids.len();
            let votes = node.accusers(tick).len();
            let verdict = node.consensus_proposal(tick);
            &&& verdict is Some <==> n > 0 && 3 * votes >= 2 * n && votes
                >= node.config.security.peer_suspicion_threshold
            &&& verdict matches Some(p) ==> p.action == ProposalAction::EnterIsolation && p.predicted_state
                == "peer_consensus_isolation"@
            &&& verdict is Some && node.state.mode != Mode::Isolated && node.state.mode != Mode::Reconnecting ==> {
                let (after, asking) = node.begun(tick, recorded_at);
                &&& asking == Asking::Nothing
                &&& after.state.mode == Mode::Isolated
                &&& after.state.state_entered_tick == tick
                &&& after.state.pending_load_signal == Some(SignalType::Isolation)
                &&& after.state.last_threat_score == (Single { bits: ONE })
                &&& after.state.load_hold_ticks_left == 0
                &&& after.state.load == node.state.load
            }
        }),
{
    reveal(NodeView::begun);
}

/// A signal that is not stale and comes from a neighbour, or from one that was heard before, is held behind the
/// earlier ones of its sender, of which the oldest gives way where there are too many. It is the sender's last one
/// then; a change of mode is noted with the tick, and counted where the sender has become isolated. Nothing else
/// of the node changes. Any other signal changes nothing at all.
pub proof fn law_signal_received(node: NodeView, signal: SignalView, tick: u64)
    ensures
        ({
            let after = node.received(signal, tick);
            let id = signal.source_id;
            let sec = node.config.security;
            let wanted = signal.timestamp + sec.stale_ttl >= tick && (node.neighbor_ids.contains(id)
                || node.neighbor_history.contains_key(id));
            let past = history_of(node.neighbor_history, id);
            let now = history_of(after.neighbor_history, id);
            let old_bucket = if node.neighbor_signals.contains_key(id) { node.neighbor_signals[id] } else { seq![] };
            let new_bucket = after.neighbor_signals[id];
            let turned = past.last_signal is None || past.last_signal->0.mode != signal.mode;
            &&& !wanted ==> after == node
            &&& wanted ==> {
                &&& after.neighbor_signals.contains_key(id)
                &&& new_bucket == if old_bucket.len() + 1 > sec.max_count_signals_from_neighbor {
                    old_bucket.push(signal).drop_first()
                } else {
                    old_bucket.push(signal)
                }
                &&& now.last_signal == Some(signal)
                &&& now.mode_entered_tick == if turned { tick } else { past.mode_entered_tick }
                &&& now.suspicion_votes_cast == past.suspicion_votes_cast
                &&& past.times_isolated < u32::MAX ==> now.times_isolated == past.times_isolated + if turned && signal.mode
                    == Mode::Isolated { 1int } else { 0 }
                &&& past.recent_timestamps.len() < sec.max_len_neighbor_signals ==> now.recent_timestamps
                    == past.recent_timestamps.push(tick)
                &&& past.recent_timestamps.len() >= sec.max_len_neighbor_signals ==> now.recent_timestamps
                    == past.recent_timestamps.push(tick).drop_first()
                &&& forall|other: u32|
                    other != id ==> {
                        &&& #[trigger] after.neighbor_signals.contains_key(other) == node.neighbor_signals.contains_key(other)
                        &&& after.neighbor_signals[other] == node.neighbor_signals[other]
                    }
                &&& forall|other: u32|
                    other != id ==> {
                        &&& #[trigger] after.neighbor_history.contains_key(other) == node.neighbor_history.contains_key(other)
                        &&& after.neighbor_history[other] == node.neighbor_history[other]
                    }
                &&& after == NodeView {
                    neighbor_signals: after.neighbor_signals,
                    neighbor_history: after.neighbor_history,
                    ..node
                }
            }
        }),
{
}

/// What a node tells all of its neighbours is who and how it is, in a type that follows from its mode: a throttled
/// node says so only while it is busier than usual.
pub proof fn law_broadcast(node: NodeView, tick: u64)
    ensures
        ({
            let s = node.broadcast(tick);
            &&& s.source_id == node.id
            &&& s.target_id is None
            &&& s.timestamp == tick
            &&& s.mode == node.state.mode
            &&& s.load == node.state.load
            &&& s.active_connections == node.state.active_connections
            &&& s.failed_auth_count == node.state.failed_auth_count
            &&& s.threat_score == node.state.last_threat_score
            &&& s.ai_state_reason == node.state.ai_state_reason
            &&& s.signal_type == SignalType::Isolation <==> s.mode == Mode::Isolated
            &&& s.signal_type == SignalType::ReconnectRequest <==> s.mode == Mode::Reconnecting
            &&& s.signal_type == SignalType::Alert <==> s.mode == Mode::Degraded
            &&& s.signal_type == SignalType::LoadBoosted <==> s.mode == Mode::Boosted
            &&& s.signal_type == SignalType::LoadReduced <==> s.mode == Mode::Throttled && s.load
                > node.config.node_defaults.load
            &&& s.signal_type == SignalType::Normal <==> s.mode == Mode::Normal || (s.mode == Mode::Throttled && s.load
                <= node.config.node_defaults.load)
        }),
{
}

/// A node that has lowered or raised its load advises its neighbours to do the same; any other news it passes on as
/// they are. It tells everyone, and each piece of news once.
pub proof fn law_advice(node: NodeView, tick: u64)
    ensures
        node.advice(tick) is Some <==> node.state.pending_load_signal is Some,
        node.advice(tick) matches Some(s) ==> {
            &&& s.target_id is None
            &&& s.source_id == node.id
            &&& s.timestamp == tick
            &&& s.load == node.state.load
            &&& s.mode == node.state.mode
            &&& node.state.pending_load_signal == Some(SignalType::LoadReduced) ==> s.signal_type
                == SignalType::ReduceLoad
            &&& node.state.pending_load_signal == Some(SignalType::LoadBoosted) ==> s.signal_type == SignalType::BoostLoad
            &&& node.state.pending_load_signal == Some(SignalType::Isolation) ==> s.signal_type == SignalType::Isolation
        },
        node.told_all().advice(tick) is None,
        node.told_all() == (NodeView { state: node.told_all().state, ..node }),
        node.told_all().state.load == node.state.load,
        node.told_all().state.mode == node.state.mode,
{
}

} // verus!
