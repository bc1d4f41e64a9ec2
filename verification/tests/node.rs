use adaptive_network::ai_module::{AIFeatureBuilder, AIModel, AIOutput, AskOutcome, AskStep};
use adaptive_network::config::Config;
use adaptive_network::node::tick::Asking;
use adaptive_network::node::{Mode, NeighborHistory, Node, NodeSignal, ReconnectState, SignalType, VirtualBridgeAttempt};
use adaptive_network::network::topology_map::{Link, NodeSnapshot};
use adaptive_network::persistence::DecisionSource;
use adaptive_network::proposal::{Proposal, ProposalAction};
use adaptive_network::setup::create_node;
use adaptive_network::single::Single;
use std::collections::{HashSet, VecDeque};
use std::sync::Arc;

fn single(x: f32) -> Single {
    Single::from_bits(x.to_bits())
}

fn float(x: Single) -> f32 {
    f32::from_bits(x.to_bits())
}

fn node(id: u32) -> Node {
    create_node(id, Arc::new(Config::default()))
}

fn signal(source_id: u32, signal_type: SignalType, mode: Mode, load: u8, timestamp: u64) -> NodeSignal {
    NodeSignal {
        source_id,
        target_id: None,
        mode,
        load,
        active_connections: 5,
        failed_auth_count: 0,
        threat_score: single(0.1),
        ai_state_reason: "normal_operation".to_string(),
        signal_type,
        timestamp,
    }
}

fn vote(source_id: u32, target_id: u32, timestamp: u64) -> NodeSignal {
    let mut s = signal(source_id, SignalType::PeerSuspicion, Mode::Normal, 40, timestamp);
    s.target_id = Some(target_id);
    s
}

fn with_signals(id: u32, neighbors: Vec<u32>, signals: Vec<NodeSignal>) -> Node {
    let mut n = node(id);
    n.neighbor_ids = neighbors;
    for s in signals {
        let id = s.source_id;
        let mut bucket = n.neighbor_signals.remove(&id).unwrap_or_default();
        bucket.push_back(s);
        n.neighbor_signals.insert(id, bucket);
    }
    n
}

fn output(action: &str, threat: f32) -> AIOutput {
    AIOutput {
        threat_score: single(threat),
        predicted_state: "state".to_string(),
        recommended_action: action.to_string(),
        event_reason: "reason".to_string(),
        confidence: single(0.5),
    }
}

#[test]
fn advice_of_a_majority_is_followed() {
    let advice = |id| signal(id, SignalType::ReduceLoad, Mode::Normal, 40, 9);
    let n = with_signals(1, vec![2, 3, 4], vec![advice(2), advice(2), advice(3)]);
    let p = n.process_load_advisories(10).unwrap();
    assert_eq!(p.action, ProposalAction::ReduceLoad);
    assert_eq!(p.predicted_state, "high_load_network_overload");
    assert_eq!(p.event_reason, "2/3 neighbors signalled overload — reducing load further");
    assert_eq!(p.confidence.to_bits(), (2.0f32 / 3.0).to_bits());
    // One voice of three is no majority, and stale voices do not count.
    assert!(with_signals(1, vec![2, 3, 4], vec![advice(2), advice(2)]).process_load_advisories(10).is_none());
    assert!(n.process_load_advisories(15).is_none());
    assert!(with_signals(1, vec![], vec![advice(2)]).process_load_advisories(10).is_none());
}

#[test]
fn advice_to_boost_is_followed_below_the_ceiling() {
    let advice = |id| signal(id, SignalType::BoostLoad, Mode::Normal, 40, 9);
    let mut n = with_signals(1, vec![2, 3], vec![advice(2), advice(3)]);
    let p = n.process_load_advisories(10).unwrap();
    assert_eq!(p.action, ProposalAction::IncreaseLoad);
    assert_eq!(p.event_reason, "2/2 neighbors signalled spare capacity — boosting load further");
    n.state.load = 95;
    assert!(n.process_load_advisories(10).is_none());
    n.state.load = 40;
    n.state.mode = Mode::Throttled;
    assert!(n.process_load_advisories(10).is_none());
}

#[test]
fn overloaded_neighbors_are_relieved() {
    let hot = |id, load, t| signal(id, SignalType::LoadReduced, Mode::Throttled, load, t);
    let n = with_signals(
        1,
        vec![2, 3, 4],
        vec![hot(4, 90, 9), hot(2, 80, 8), hot(2, 70, 9), signal(3, SignalType::Normal, Mode::Normal, 11, 9)],
    );
    let norm = (80.0f32 + 70.0 + 11.0 + 90.0) / 4.0;
    let excess = ((70.0 - norm).max(0.0)) + (90.0f32 - norm).max(0.0);
    let headroom = 95.0f32 - 40.0;
    let p = n.process_overload_redistribution(10).unwrap();
    assert_eq!(p.action, ProposalAction::IncreaseLoad);
    assert_eq!(p.predicted_state, "high_load_neighbor_failure_relay");
    assert_eq!(
        p.event_reason,
        format!(
            "Neighbor(s) {:?} throttled but still overloaded (excess {:.0} above norm {:.0}) — absorbing share within headroom {:.0}",
            vec![2, 4], excess, norm, headroom
        )
    );
    assert_eq!(float(p.confidence), (excess / (excess + headroom)).min(1.0));
}

#[test]
fn overload_redistribution_needs_mode_and_headroom() {
    let hot = signal(2, SignalType::LoadReduced, Mode::Throttled, 90, 9);
    let cold = signal(3, SignalType::Normal, Mode::Normal, 10, 9);
    let mut n = with_signals(1, vec![2, 3], vec![hot, cold]);
    assert!(n.process_overload_redistribution(10).is_some());
    n.state.load = 95;
    assert!(n.process_overload_redistribution(10).is_none());
    n.state.load = 40;
    n.state.mode = Mode::Boosted;
    assert!(n.process_overload_redistribution(10).is_none());
}

#[test]
fn underloaded_neighbors_are_answered() {
    let weak = signal(2, SignalType::LoadBoosted, Mode::Boosted, 10, 9);
    let strong = signal(3, SignalType::Normal, Mode::Normal, 81, 9);
    let n = with_signals(1, vec![2, 3], vec![weak, strong]);
    let norm = (10.0f32 + 81.0) / 2.0;
    let deficit = norm - 10.0;
    let p = n.process_underload_redistribution(10).unwrap();
    assert_eq!(p.predicted_state, "low_load_neighbor_failure_relay");
    assert_eq!(
        p.event_reason,
        format!(
            "Neighbor(s) {:?} Boosted but underloaded (deficit {:.0} below norm {:.0}) — shedding share to balance within floor",
            vec![2], deficit, norm
        )
    );
    assert_eq!(float(p.confidence), deficit / (deficit + (40.0 - 20.0)));
}

#[test]
fn isolated_neighbors_are_replaced() {
    let gone = |id, load| signal(id, SignalType::Isolation, Mode::Isolated, load, 9);
    let mut n = with_signals(1, vec![2, 3], vec![gone(3, 30), gone(2, 25)]);
    let p = n.process_isolation_redistribution(10).unwrap();
    assert_eq!(
        p.event_reason,
        "Node(s) [2, 3] entering isolation (total load 55 dropped from network) — absorbing share within headroom 55"
    );
    assert_eq!(float(p.confidence), 0.5);
    n.state.mode = Mode::Throttled;
    assert!(n.process_isolation_redistribution(10).is_none());
}

#[test]
fn pressure_lasts_while_a_majority_asks() {
    let advice = |id| signal(id, SignalType::ReduceLoad, Mode::Normal, 40, 9);
    let mut n = with_signals(1, vec![2, 3], vec![advice(2), advice(3)]);
    assert!(!n.load_pressure_still_active(10));
    n.state.mode = Mode::Throttled;
    assert!(n.load_pressure_still_active(10));
    assert!(!n.load_pressure_still_active(15));
    n.state.mode = Mode::Boosted;
    assert!(!n.load_pressure_still_active(10));
}

#[test]
fn two_thirds_of_the_votes_isolate() {
    // Three neighbours: two votes are needed; one neighbour may vote more than once.
    let n = with_signals(1, vec![2, 3, 4], vec![vote(2, 1, 10), vote(2, 1, 10)]);
    assert!(n.process_incoming_signals(10).is_none());
    let mut n = with_signals(1, vec![2, 3, 4], vec![vote(2, 1, 10), vote(3, 1, 10)]);
    let p = n.process_incoming_signals(10).unwrap();
    assert_eq!(p.action, ProposalAction::EnterIsolation);
    assert_eq!(p.predicted_state, "peer_consensus_isolation");
    assert!(n.process_incoming_signals(11).is_none());
    assert_eq!(n.tick(10, 1), Asking::Nothing);
    assert_eq!(n.state.mode, Mode::Isolated);
    assert_eq!(n.pending_lifecycle.len(), 1);
    assert_eq!(n.pending_lifecycle[0].supervisor_reason, "Isolation approved: peer_consensus_isolation");
    assert!(matches!(n.pending_lifecycle[0].ai_predict, DecisionSource::ForcedByPeerConsensus));
    // Five neighbours: four votes are needed.
    let votes = vec![vote(2, 1, 10), vote(3, 1, 10), vote(4, 1, 10)];
    assert!(with_signals(1, vec![2, 3, 4, 5, 6], votes).process_incoming_signals(10).is_none());
    // A single neighbour cannot reach the configured two votes.
    assert!(with_signals(1, vec![2], vec![vote(2, 1, 10)]).process_incoming_signals(10).is_none());
}

#[test]
fn signals_are_received_and_kept_short() {
    let mut n = node(1);
    n.neighbor_ids = vec![2];
    n.receive_signal(signal(3, SignalType::Normal, Mode::Normal, 40, 10), 10);
    assert_eq!(n.neighbor_signals.len(), 0);
    n.receive_signal(signal(2, SignalType::Normal, Mode::Normal, 40, 4), 10);
    assert_eq!(n.neighbor_signals.len(), 0);
    for t in 10..25u64 {
        n.receive_signal(signal(2, SignalType::Normal, Mode::Normal, t as u8, t), t);
    }
    let bucket = n.neighbor_signals.get(&2).unwrap();
    assert_eq!(bucket.iter().map(|s| s.load).collect::<Vec<_>>(), vec![23, 24]);
    let history = n.neighbor_history.get(&2).unwrap();
    assert_eq!(history.recent_timestamps.len(), 10);
    assert_eq!(history.recent_timestamps[0], 15);
    assert_eq!(history.mode_entered_tick, 10);
    assert_eq!(history.times_isolated, 0);
    n.receive_signal(signal(2, SignalType::Isolation, Mode::Isolated, 1, 25), 25);
    n.receive_signal(signal(2, SignalType::Isolation, Mode::Isolated, 1, 26), 26);
    let history = n.neighbor_history.get(&2).unwrap();
    assert_eq!(history.mode_entered_tick, 25);
    assert_eq!(history.times_isolated, 1);
    // One that was a neighbour once is still listened to.
    n.neighbor_ids = vec![];
    n.receive_signal(signal(2, SignalType::Normal, Mode::Normal, 7, 27), 27);
    assert_eq!(n.neighbor_signals.get(&2).unwrap()[1].load, 7);
}

#[test]
fn broadcasts_follow_the_mode() {
    let mut n = node(3);
    for (mode, load, kind) in [
        (Mode::Normal, 90, SignalType::Normal),
        (Mode::Isolated, 40, SignalType::Isolation),
        (Mode::Throttled, 41, SignalType::LoadReduced),
        (Mode::Throttled, 40, SignalType::Normal),
        (Mode::Boosted, 40, SignalType::LoadBoosted),
        (Mode::Degraded, 40, SignalType::Alert),
        (Mode::Reconnecting, 40, SignalType::ReconnectRequest),
    ] {
        n.state.mode = mode;
        n.state.load = load;
        let s = n.generate_broadcast_signal(4);
        assert_eq!((s.source_id, s.target_id, s.signal_type, s.load, s.timestamp), (3, None, kind, load, 4));
    }
}

#[test]
fn facts_become_advice_once() {
    let mut n = node(3);
    assert!(n.take_load_advisory_signal(4).is_none());
    for (fact, advice) in [
        (SignalType::LoadReduced, SignalType::ReduceLoad),
        (SignalType::LoadBoosted, SignalType::BoostLoad),
        (SignalType::Isolation, SignalType::Isolation),
    ] {
        n.state.pending_load_signal = Some(fact);
        assert_eq!(n.take_load_advisory_signal(4).unwrap().signal_type, advice);
        assert!(n.take_load_advisory_signal(4).is_none());
    }
}

#[test]
fn neighbors_without_a_model_are_estimated() {
    let c = Config::default();
    let plain = signal(2, SignalType::Normal, Mode::Normal, 40, 9);
    assert_eq!(float(Node::assess_neighbor_threat(&plain, &c, Some(single(0.25)))), 0.25);
    assert_eq!(float(Node::assess_neighbor_threat(&plain, &c, None)), 0.1);
    let mut s = plain.clone();
    s.ai_state_reason = "neighbor_cascade_failure".to_string();
    s.signal_type = SignalType::Alert;
    assert_eq!(float(Node::assess_neighbor_threat(&s, &c, None)), 0.1f32 + 0.4 + 0.2);
    let mut s = plain.clone();
    s.ai_state_reason = "integrity_violation".to_string();
    assert_eq!(float(Node::assess_neighbor_threat(&s, &c, None)), 0.1f32 + 0.7);
    let mut s = plain.clone();
    s.failed_auth_count = 6;
    s.threat_score = single(-1.0);
    assert_eq!(float(Node::assess_neighbor_threat(&s, &c, None)), -1.0f32 + 0.2 * 6.0);
    s.threat_score = single(0.9);
    assert_eq!(float(Node::assess_neighbor_threat(&s, &c, None)), 1.0);
}

#[test]
fn suspicious_neighbors_are_accused() {
    let mut bad = signal(2, SignalType::Normal, Mode::Normal, 40, 9);
    bad.ai_state_reason = "malware_detected".to_string();
    let mut isolated = bad.clone();
    isolated.source_id = 3;
    isolated.mode = Mode::Isolated;
    let good = signal(4, SignalType::Normal, Mode::Normal, 40, 9);
    let to_me = vote(5, 1, 9);
    let mut n = with_signals(1, vec![2, 3, 4, 5], vec![bad, isolated, good, to_me]);
    let questions = n.suspicion_inputs(10);
    assert_eq!(questions.len(), 3);
    assert_eq!(questions[0].ai_state_reason, "malware_detected");
    assert_eq!(questions[0].signal_age_ticks, 1);
    let votes = n.generate_peer_suspicion_signals(10, &vec![]);
    assert_eq!(votes.len(), 1);
    assert_eq!((votes[0].source_id, votes[0].target_id), (1, Some(2)));
    assert_eq!(votes[0].signal_type, SignalType::PeerSuspicion);
    assert_eq!(float(votes[0].threat_score), 0.1f32 + 0.7);
    // The model's word goes before the estimate.
    let votes = n.generate_peer_suspicion_signals(10, &vec![Some(single(0.0)), Some(single(1.0)), Some(single(0.7))]);
    assert_eq!(votes.len(), 1);
    assert_eq!(votes[0].target_id, Some(4));
    // The node remembers whom it has suspected, and counts no further than it can.
    assert_eq!(n.neighbor_history.get(&2).unwrap().suspicion_votes_cast, 1);
    assert_eq!(n.neighbor_history.get(&4).unwrap().suspicion_votes_cast, 1);
    assert!(!n.neighbor_history.contains_key(&3));
    n.neighbor_history.get_mut(&2).unwrap().suspicion_votes_cast = u32::MAX;
    assert_eq!(n.suspicion_inputs(10)[0].prior_suspicion_votes_against, u32::MAX);
    n.generate_peer_suspicion_signals(10, &vec![]);
    assert_eq!(n.neighbor_history.get(&2).unwrap().suspicion_votes_cast, u32::MAX);
}

#[test]
fn features_of_the_node_are_built() {
    let mut a = signal(2, SignalType::Normal, Mode::Isolated, 30, 9);
    a.threat_score = single(0.6);
    a.failed_auth_count = 2;
    let b = signal(2, SignalType::Normal, Mode::Degraded, 50, 10);
    let c = signal(4, SignalType::Normal, Mode::Reconnecting, 11, 10);
    let mut n = with_signals(1, vec![2, 4], vec![a, b, c, vote(4, 1, 10)]);
    n.state.threat_score_history.push_back(single(0.3));
    n.state.last_threat_score = single(0.3);
    let f = AIFeatureBuilder::build(&n, 10);
    assert_eq!((f.neighbor_count, f.neighbors_isolated, f.neighbors_degraded, f.neighbors_reconnecting), (2, 1, 1, 1));
    assert_eq!(float(f.neighbors_avg_load), (30.0f32 + 50.0 + 11.0 + 40.0) / 2.0);
    assert_eq!(float(f.neighbors_failed_auth_avg), 1.0);
    assert_eq!(float(f.neighbors_avg_connections), 10.0);
    assert_eq!(float(f.neighbors_max_threat), 0.6);
    assert_eq!(f.peer_suspicion_count, 1);
    assert_eq!((f.last_sync_age_sec, f.time_in_state_sec), (10, 9));
    assert_eq!(f.threat_score_history, VecDeque::from(vec![single(0.3)]));
    let m = f.to_raw_metrics();
    assert_eq!((m.neighbor_count, m.self_load, m.previous_threat_score), (2, 40, single(0.3)));
    let empty = AIFeatureBuilder::build(&node(1), 10);
    assert_eq!(empty.neighbors_avg_load.to_bits(), 0);
}

#[test]
fn features_of_a_neighbor_are_built() {
    let old = signal(2, SignalType::Normal, Mode::Normal, 50, 8);
    let mut new = signal(2, SignalType::LoadReduced, Mode::Throttled, 30, 9);
    new.threat_score = single(0.5);
    let other = signal(3, SignalType::Normal, Mode::Normal, 80, 9);
    let stale = signal(4, SignalType::Normal, Mode::Normal, 10, 2);
    let n = with_signals(1, vec![2, 3, 4], vec![old.clone(), new.clone(), other, stale]);
    let history = NeighborHistory {
        last_signal: Some(old),
        mode_entered_tick: 6,
        recent_timestamps: VecDeque::from(vec![7, 8]),
        suspicion_votes_cast: 3,
        times_isolated: 2,
    };
    let f = AIFeatureBuilder::build_neighbour_signs(&new, 10, &history, &n.neighbor_signals, 5);
    assert_eq!((f.mode.as_str(), f.signal_type.as_str()), ("Throttled", "LoadReduced"));
    assert_eq!((f.load_delta, f.failed_auth_delta, f.active_connections_delta), (-20, 0, 0));
    assert_eq!(float(f.threat_score_delta), 0.5f32 - 0.1);
    assert!(f.mode_changed);
    assert_eq!((f.signals_seen_recent, f.prior_suspicion_votes_against, f.times_isolated_historically), (2, 3, 2));
    assert_eq!((f.signal_age_ticks, f.time_in_mode_ticks), (1, 4));
    assert_eq!(float(f.network_avg_load), 80.0);
    let alone = AIFeatureBuilder::build_neighbour_signs(&new, 10, &NeighborHistory::default(), &node(1).neighbor_signals, 5);
    assert_eq!(float(alone.network_avg_load), 30.0);
    assert_eq!((alone.load_delta, alone.mode_changed), (0, false));
}

#[test]
fn an_overridden_model_does_not_answer() {
    let mut ai = AIModel::new();
    assert!(!ai.is_overridden());
    assert!(ai.predict(Ok(output("x", 0.1))).is_ok());
    assert_eq!(ai.predict(Err("gone".to_string())).unwrap_err(), "gone");
    ai.set_overridden(true);
    assert_eq!(
        ai.predict(Ok(output("x", 0.1))).unwrap_err(),
        "AI process unresponsive (scenario override active)"
    );
}

#[test]
fn a_silent_model_degrades_and_comes_back() {
    let mut n = node(1);
    // The first silent tick is noted, and five ticks later the node goes on without its model.
    for tick in 1..=6u64 {
        assert_eq!(n.tick(tick, 0), Asking::Prediction);
        n.resume(Asking::Prediction, Err("gone".to_string()), tick, 0);
        assert_eq!(n.state.ai_state_reason, "ai_module_offline");
        assert_eq!(n.state.mode, if tick < 6 { Mode::Normal } else { Mode::Degraded });
    }
    assert_eq!(n.pending_lifecycle.len(), 1);
    assert_eq!(n.pending_lifecycle[0].proposal_event_reason, "AI module failed for 5 consecutive ticks");
    for tick in 7..=12u64 {
        assert_eq!(n.tick(tick, 0), Asking::Prediction);
        n.resume(Asking::Prediction, Ok(output("do_nothing", 0.1)), tick, 0);
        assert_eq!(n.state.mode, if tick < 12 { Mode::Degraded } else { Mode::Normal });
    }
    assert_eq!(n.pending_lifecycle[1].proposal_event_reason, "AI stable for 5 ticks");
    // While degraded, a proposal to act is taken at once.
    n.state.mode = Mode::Degraded;
    let p = n.generate_ai_proposal(13, Ok(output("enter_isolation", 0.9))).unwrap();
    assert_eq!(p.action, ProposalAction::EnterIsolation);
}

#[test]
fn a_prediction_is_recorded_and_carried_out() {
    let mut n = node(1);
    n.state.load = 60;
    assert_eq!(n.tick(3, 77), Asking::Prediction);
    n.resume(Asking::Prediction, Ok(output("reduce_load", 0.2)), 3, 77);
    assert_eq!((n.state.load, n.state.mode), (48, Mode::Throttled));
    assert_eq!(n.state.ai_state_reason, "state");
    assert_eq!(n.pending_ai_decisions.len(), 1);
    assert_eq!(n.pending_ai_decisions[0].class_name, "state");
    assert_eq!(n.pending_ai_decisions[0].metrics.previous_threat_score, single(0.2));
    assert_eq!(n.pending_ai_decisions[0].recorded_at, 77);
    let e = &n.pending_lifecycle[0];
    assert_eq!(e.change.load, Some((60, 48)));
    assert_eq!(e.change.mode, Some(("Normal".to_string(), "Throttled".to_string())));
    assert_eq!(n.state.threat_score_history.len(), 1);
    // Then the load is held for three ticks.
    for left in [2u64, 1, 0] {
        assert_eq!(n.tick(4, 77), Asking::Nothing);
        assert_eq!(n.state.load_hold_ticks_left, left);
        let e = n.pending_lifecycle.last().unwrap();
        assert_eq!(e.proposal_event_reason, format!("Holding calibration state for {} more tick(s)", left));
    }
    // The node is still overloaded: it takes one step more and holds on.
    assert_eq!(n.tick(7, 77), Asking::Prediction);
    n.resume(Asking::Prediction, Ok(output("do_nothing", 0.2)), 7, 77);
    assert_eq!((n.state.load, n.state.load_hold_ticks_left), (38, 3));
    n.state.load_hold_ticks_left = 0;
    // Now it may return.
    assert_eq!(n.tick(8, 77), Asking::Prediction);
    n.resume(Asking::Prediction, Ok(output("do_nothing", 0.2)), 8, 77);
    assert_eq!(n.state.mode, Mode::Normal);
}

#[test]
fn an_unknown_label_does_nothing() {
    let p = Proposal::from(output("dance", 0.3));
    assert_eq!(p.action, ProposalAction::DoNothing);
    for (label, action) in [
        ("reduce_load", ProposalAction::ReduceLoad),
        ("increase_load", ProposalAction::IncreaseLoad),
        ("enter_isolation", ProposalAction::EnterIsolation),
        ("exit_isolation", ProposalAction::ExitIsolation),
        ("enter_degraded", ProposalAction::EnterDegraded),
        ("exit_degraded", ProposalAction::ExitDegraded),
        ("begin_reconnect", ProposalAction::BeginReconnect),
    ] {
        assert_eq!(Proposal::from(output(label, 0.3)).action, action);
    }
}

#[test]
fn an_isolated_node_waits_out_its_quarantine() {
    let mut n = node(1);
    n.state.mode = Mode::Isolated;
    n.state.state_entered_tick = 10;
    for tick in 11..=14u64 {
        assert_eq!(n.tick(tick, 0), Asking::SelfCheck);
        n.resume(Asking::SelfCheck, Ok(output("do_nothing", 0.1)), tick, 0);
        assert_eq!(n.state.mode, Mode::Isolated);
    }
    assert_eq!(n.tick(15, 0), Asking::SelfCheck);
    n.resume(Asking::SelfCheck, Ok(output("do_nothing", 0.1)), 15, 0);
    assert_eq!(n.state.mode, Mode::Reconnecting);
    assert_eq!(n.state.ai_state_reason, "recovery_conditions_met");
    assert_eq!(n.reconnect.as_ref().unwrap().started_at_tick, 15);
    assert_eq!(n.tick(16, 0), Asking::Nothing);
    let e = n.pending_lifecycle.last().unwrap();
    assert_eq!(e.supervisor_reason, "Waiting for neighbor acks");
    // A model that does not answer is no reason for trust.
    let mut n = node(1);
    n.state.mode = Mode::Isolated;
    n.resume(Asking::SelfCheck, Err("gone".to_string()), 15, 0);
    assert_eq!(n.state.mode, Mode::Isolated);
    assert_eq!(n.state.last_threat_score, single(1.0));
}

#[test]
fn the_threat_history_stays_short() {
    let mut n = node(1);
    for tick in 1..=20u64 {
        let asking = n.tick(tick, 0);
        n.resume(asking, Ok(output("do_nothing", tick as f32)), tick, 0);
    }
    assert_eq!(n.state.threat_score_history.len(), 8);
    assert_eq!(float(n.state.threat_score_history[7]), 20.0);
    assert_eq!(float(n.state.threat_score_history[0]), 13.0);
}

#[test]
fn snapshots_are_relayed_once() {
    let mut n = node(1);
    let snap = NodeSnapshot { node_id: 2, neighbors: vec![1, 3], timestamp: 5, confidence: single(1.0) };
    let relayed = n.receive_lsa(snap.clone(), 5).unwrap();
    assert_eq!(float(relayed.confidence), 1.0f32 * 0.9);
    assert_eq!(relayed.neighbors, vec![1, 3]);
    // What comes from a direct neighbour is held as it came.
    assert_eq!(float(n.topology_map.snapshots.get(&2).unwrap().confidence), 1.0);
    assert!(n.receive_lsa(snap, 5).is_none());
    let faint = NodeSnapshot { node_id: 2, neighbors: vec![], timestamp: 6, confidence: single(0.1) };
    assert_eq!(float(n.receive_lsa(faint, 6).unwrap().confidence), 0.1);
    assert_eq!(n.topology_map.last_updated, 6);
    assert!(n.topology_map.snapshots.get(&2).unwrap().neighbors.is_empty());
}

#[test]
fn links_give_the_neighbors() {
    let nodes = vec![node(1), node(2), node(3)];
    let link = |from, to, active| Link { from, to, active, virtual_link: false };
    let links = vec![link(0, 2, true), link(0, 1, false), link(1, 0, true), link(0, 0, true)];
    assert_eq!(nodes[0].current_neighbors(&links, &nodes), vec![3, 1]);
    let snap = nodes[1].broadcast_lsa(9, &links, &nodes);
    assert_eq!((snap.node_id, snap.neighbors, snap.timestamp), (2, vec![1], 9));
}

fn bridge_seeker() -> Node {
    let mut n = node(1);
    n.neighbor_ids = vec![4];
    for (id, neighbors, timestamp) in [
        (2u32, vec![1u32, 3, 4, 5, 6], 1u64),
        (1, vec![4], 9),
        (4, vec![1, 3, 6], 9),
        (3, vec![4], 9),
        (6, vec![4], 9),
    ] {
        let snap = NodeSnapshot { node_id: id, neighbors, timestamp, confidence: single(0.9) };
        n.topology_map.merge(snap, timestamp);
    }
    n
}

#[test]
fn bridges_are_sought_round_a_fallen_node() {
    let mut n = bridge_seeker();
    let none = HashSet::new();
    // 3 and 6 can be reached, 4 is a neighbour, 5 is out of reach.
    assert_eq!(n.find_virtual_bridge_candidates(&vec![2, 9], &none), vec![(3, 2), (6, 2)]);
    let excluded: HashSet<u32> = [6].into_iter().collect();
    assert_eq!(n.find_virtual_bridge_candidates(&vec![2], &excluded), vec![(3, 2)]);
    assert!(n.initiate_virtual_bridges(6, &none).is_empty());
    let requests = n.initiate_virtual_bridges(10, &none);
    assert_eq!(requests.iter().map(|r| r.target_id).collect::<Vec<_>>(), vec![Some(3), Some(6)]);
    assert!(requests.iter().all(|r| r.signal_type == SignalType::VirtualBridgeRequest));
    assert_eq!(
        n.virtual_bridge_attempts.get(&3),
        Some(&VirtualBridgeAttempt {
            bridge_to: 3,
            via_fallen_node: 2,
            started_at_tick: 10,
            attempts: 1,
            initiated_by_us: true
        })
    );
    assert!(n.initiate_virtual_bridges(10, &none).is_empty());
    let mut faint = bridge_seeker();
    faint.topology_map.merge(
        NodeSnapshot { node_id: 2, neighbors: vec![1, 3], timestamp: 2, confidence: single(0.29) },
        2,
    );
    assert!(faint.find_virtual_bridge_candidates(&vec![2], &none).is_empty());
}

#[test]
fn bridges_are_granted_between_trusted_nodes() {
    let request = signal(1, SignalType::VirtualBridgeRequest, Mode::Normal, 40, 10);
    let mut n = node(3);
    let answer = n.handle_virtual_bridge_request(&request, 10);
    assert_eq!((answer.signal_type, answer.target_id), (SignalType::VirtualBridgeAck, Some(1)));
    assert!(!n.virtual_bridge_attempts.get(&1).unwrap().initiated_by_us);
    for spoil in 0..4 {
        let mut n = node(3);
        let mut r = request.clone();
        match spoil {
            0 => r.threat_score = single(0.71),
            1 => r.mode = Mode::Isolated,
            2 => r.ai_state_reason = "malware_detected".to_string(),
            _ => n.state.ai_state_reason = "auth_bruteforce_detected".to_string(),
        }
        assert_eq!(n.handle_virtual_bridge_request(&r, 10).signal_type, SignalType::VirtualBridgeReject);
        assert!(n.virtual_bridge_attempts.is_empty());
    }
    let mut asker = bridge_seeker();
    asker.initiate_virtual_bridges(10, &HashSet::new());
    let mut answer = signal(3, SignalType::VirtualBridgeAck, Mode::Normal, 40, 10);
    assert!(asker.handle_virtual_bridge_response(&answer));
    assert!(asker.virtual_bridge_attempts.contains_key(&3));
    answer.signal_type = SignalType::VirtualBridgeReject;
    assert!(!asker.handle_virtual_bridge_response(&answer));
    assert!(!asker.virtual_bridge_attempts.contains_key(&3));
    answer.signal_type = SignalType::Normal;
    assert!(!asker.handle_virtual_bridge_response(&answer));
}

#[test]
fn bridges_come_in_pairs_of_links() {
    let links = Node::build_confirmed_links(&vec![(2, 7), (2, 9)], &vec![5, 7, 2]);
    let link = |from, to| Link { from, to, active: true, virtual_link: true };
    assert_eq!(links, vec![link(2, 1), link(1, 2)]);
}

#[test]
fn reconnecting_takes_a_quorum() {
    let mut n = node(1);
    assert!(n.generate_reconnect_requests(5).is_empty());
    n.state.mode = Mode::Reconnecting;
    assert!(n.generate_reconnect_requests(5).is_empty());
    n.topology_map.merge(
        NodeSnapshot { node_id: 1, neighbors: vec![2, 1, 3, 4], timestamp: 1, confidence: single(1.0) },
        1,
    );
    let requests = n.generate_reconnect_requests(5);
    assert_eq!(requests.iter().map(|r| r.target_id).collect::<Vec<_>>(), vec![Some(2), Some(3), Some(4)]);
    let ack = |id| signal(id, SignalType::ReconnectAck, Mode::Normal, 40, 5);
    assert!(!n.handle_reconnect_ack(&ack(2)));
    n.reconnect = Some(ReconnectState { started_at_tick: 4, confirmed_by: HashSet::new(), attempts: 0 });
    // Four entries on the snapshot: three confirmations are needed, of different nodes.
    assert!(!n.handle_reconnect_ack(&ack(2)));
    assert!(!n.handle_reconnect_ack(&ack(2)));
    assert!(!n.handle_reconnect_ack(&ack(3)));
    assert!(n.handle_reconnect_ack(&ack(4)));
    n.state.active_connections = 1;
    n.complete_reconnect(6, 0);
    assert_eq!((n.state.mode, n.state.active_connections, n.state.last_sync_time), (Mode::Normal, 5, 6));
    assert_eq!(n.state.ai_state_reason, "network_partition_healing");
    assert!(n.reconnect.is_none());
    assert_eq!(n.pending_lifecycle[0].change.active_connections, Some((1, 5)));
}

#[test]
fn a_request_to_return_is_judged() {
    let request = signal(1, SignalType::ReconnectRequest, Mode::Reconnecting, 40, 5);
    let mut n = node(2);
    let ack = n.handle_reconnect_request(&request, 5).unwrap();
    assert_eq!((ack.signal_type, ack.target_id), (SignalType::ReconnectAck, Some(1)));
    for spoil in 0..3 {
        let mut r = request.clone();
        match spoil {
            0 => r.ai_state_reason = "malware_detected".to_string(),
            1 => r.failed_auth_count = 6,
            _ => r.threat_score = single(0.7),
        }
        assert!(n.handle_reconnect_request(&r, 5).is_none());
    }
    for mode in [Mode::Isolated, Mode::Reconnecting, Mode::Degraded] {
        n.state.mode = mode;
        assert!(n.handle_reconnect_request(&request, 5).is_none());
    }
}

#[test]
fn the_last_failed_attempt_isolates() {
    let mut n = node(1);
    n.tick_failed_reconnect(3, 0);
    assert!(n.pending_lifecycle.is_empty());
    n.state.mode = Mode::Reconnecting;
    n.reconnect = Some(ReconnectState { started_at_tick: 1, confirmed_by: [2].into_iter().collect(), attempts: 0 });
    for attempt in 1..=4u32 {
        n.tick_failed_reconnect(3, 0);
        let r = n.reconnect.as_ref().unwrap();
        assert_eq!((r.attempts, r.confirmed_by.len()), (attempt, 0));
    }
    n.tick_failed_reconnect(3, 0);
    assert!(n.reconnect.is_none());
    assert_eq!(n.state.mode, Mode::Isolated);
    assert_eq!(n.state.ai_state_reason, "reconnect_timeout");
    assert!(matches!(n.pending_lifecycle[0].ai_predict, DecisionSource::DeterministicReconnectTimeout));
}

#[test]
fn a_question_is_written_twice_at_most() {
    let run = |outcomes: &[AskOutcome]| {
        let mut steps = vec![AskStep::Write];
        for o in outcomes {
            let step = *steps.last().unwrap();
            assert!(!step.is_over());
            steps.push(step.next(*o));
        }
        assert!(steps.last().unwrap().is_over());
        steps
    };
    assert_eq!(run(&[AskOutcome::Done, AskOutcome::Done]), vec![AskStep::Write, AskStep::Read, AskStep::Answered]);
    assert_eq!(run(&[AskOutcome::Done, AskOutcome::Error])[2], AskStep::Failed);
    assert_eq!(run(&[AskOutcome::Done, AskOutcome::Nothing, AskOutcome::Done])[2..], [AskStep::RestartAfterRead, AskStep::Died]);
    assert_eq!(run(&[AskOutcome::Done, AskOutcome::Nothing, AskOutcome::Error])[3], AskStep::Failed);
    assert_eq!(
        run(&[AskOutcome::Error, AskOutcome::Done, AskOutcome::Done, AskOutcome::Done])[1..],
        [AskStep::RestartToWrite, AskStep::WriteAgain, AskStep::Read, AskStep::Answered]
    );
    assert_eq!(run(&[AskOutcome::Error, AskOutcome::Error])[2], AskStep::Failed);
    assert_eq!(run(&[AskOutcome::Error, AskOutcome::Done, AskOutcome::Error])[3], AskStep::Failed);
}
