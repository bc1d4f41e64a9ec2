use adaptive_network::config::Config;
use adaptive_network::executor::Executor;
use adaptive_network::node::{Mode, NodeSignal, NodeState, SignalType};
use adaptive_network::proposal::{Proposal, ProposalAction};
use adaptive_network::single::Single;
use adaptive_network::supervisor::Supervisor;
use std::collections::{BTreeMap, VecDeque};

fn single(x: f32) -> Single {
    Single::from_bits(x.to_bits())
}

fn state(mode: Mode, load: u8) -> NodeState {
    NodeState {
        load,
        temperature: 30,
        active_connections: 5,
        failed_auth_count: 0,
        last_sync_time: 0,
        pending_load_signal: None,
        load_hold_ticks_left: 0,
        ai_state_reason: "normal_operation".to_string(),
        state_entered_tick: 1,
        last_threat_score: single(0.0),
        threat_score_history: VecDeque::new(),
        mode,
    }
}

fn proposal(action: ProposalAction, predicted: &str) -> Proposal {
    Proposal {
        action,
        threat_score: single(0.1),
        predicted_state: predicted.to_string(),
        event_reason: "why".to_string(),
        confidence: single(1.0),
    }
}

fn signal(source_id: u32, mode: Mode, load: u8, timestamp: u64) -> NodeSignal {
    NodeSignal {
        source_id,
        target_id: None,
        mode,
        load,
        active_connections: 5,
        failed_auth_count: 0,
        threat_score: single(0.0),
        ai_state_reason: "normal_operation".to_string(),
        signal_type: SignalType::Normal,
        timestamp,
    }
}

fn book(signals: Vec<NodeSignal>) -> BTreeMap<u32, VecDeque<NodeSignal>> {
    let mut map: BTreeMap<u32, VecDeque<NodeSignal>> = BTreeMap::new();
    for s in signals {
        let id = s.source_id;
        let mut bucket = map.remove(&id).unwrap_or_default();
        bucket.push_back(s);
        map.insert(id, bucket);
    }
    map
}

fn judge(p: &Proposal, s: &NodeState, signals: Vec<NodeSignal>) -> (bool, String) {
    let d = Supervisor.validate(p, s, &Config::default(), 10, &book(signals));
    assert_eq!(d.tick, 10);
    assert_eq!(d.proposal.action, p.action);
    assert_eq!(d.proposal.predicted_state, p.predicted_state);
    (d.allowed, d.reason)
}

#[test]
fn reduce_load_is_allowed_when_overloaded() {
    let p = proposal(ProposalAction::ReduceLoad, "x");
    assert_eq!(judge(&p, &state(Mode::Normal, 60), vec![]), (true, "Load acceptable for reduction".to_string()));
}

#[test]
fn reduce_load_needs_room_and_strain() {
    let p = proposal(ProposalAction::ReduceLoad, "x");
    assert_eq!(
        judge(&p, &state(Mode::Normal, 20), vec![]),
        (false, "Already at reduce floor — nothing left to cut".to_string())
    );
    assert_eq!(judge(&p, &state(Mode::Normal, 30), vec![]), (false, "Load already within normal range".to_string()));
    assert_eq!(
        judge(&p, &state(Mode::Degraded, 60), vec![]),
        (false, "Cannot reduce load from current mode (Degraded)".to_string())
    );
}

#[test]
fn reduce_load_is_blocked_in_a_starving_network() {
    let p = proposal(ProposalAction::ReduceLoad, "x");
    let all = vec![signal(2, Mode::Boosted, 50, 9), signal(3, Mode::Boosted, 50, 9), signal(4, Mode::Normal, 40, 9)];
    assert_eq!(
        judge(&p, &state(Mode::Normal, 30), all),
        (
            false,
            "Network starving (2/3 boosted) and node not overloaded — ReduceLoad blocked".to_string()
        )
    );
}

#[test]
fn only_the_newest_fresh_signal_of_a_neighbor_counts() {
    let p = proposal(ProposalAction::ReduceLoad, "x");
    // Neighbour 2 was boosted and is normal by now; neighbour 3 is stale.
    let all = vec![signal(2, Mode::Boosted, 50, 8), signal(2, Mode::Normal, 40, 9), signal(3, Mode::Boosted, 50, 4)];
    assert_eq!(judge(&p, &state(Mode::Normal, 30), all).1, "Load already within normal range");
    // Of equally new signals the first counts.
    let all = vec![signal(2, Mode::Boosted, 50, 9), signal(2, Mode::Normal, 40, 9)];
    assert_eq!(
        judge(&p, &state(Mode::Normal, 30), all).1,
        "Network starving (1/1 boosted) and node not overloaded — ReduceLoad blocked"
    );
}

#[test]
fn increase_load_is_allowed_with_headroom() {
    let p = proposal(ProposalAction::IncreaseLoad, "x");
    assert_eq!(
        judge(&p, &state(Mode::Throttled, 30), vec![]),
        (true, "Load increase approved: headroom available".to_string())
    );
    for name in [
        "low_load_neighbor_failure_relay",
        "absorbing_neighbor_overload",
        "absorbing_isolated_node_load",
        "load_on_network_has_increased",
    ] {
        let p = proposal(ProposalAction::IncreaseLoad, name);
        assert_eq!(
            judge(&p, &state(Mode::Normal, 30), vec![signal(2, Mode::Throttled, 95, 9)]),
            (true, "Redistribution approved: headroom available".to_string())
        );
    }
}

#[test]
fn increase_load_is_refused_for_each_reason() {
    let p = proposal(ProposalAction::IncreaseLoad, "x");
    // 82 / 95 > 0.85 and 80 / 95 < 0.85
    assert_eq!(
        judge(&p, &state(Mode::Normal, 30), vec![signal(2, Mode::Throttled, 82, 9)]),
        (
            false,
            "Network overloaded (1/1 throttled) — IncreaseLoad blocked to prevent cascade".to_string()
        )
    );
    assert!(judge(&p, &state(Mode::Normal, 30), vec![signal(2, Mode::Throttled, 80, 9)]).0);
    assert_eq!(
        judge(&p, &state(Mode::Normal, 95), vec![]),
        (false, "Cannot increase load: already at boost ceiling".to_string())
    );
    assert_eq!(
        judge(&p, &state(Mode::Isolated, 30), vec![]),
        (false, "Cannot increase load from current mode (Isolated)".to_string())
    );
    let mut s = state(Mode::Normal, 30);
    s.last_threat_score = single(0.7);
    assert_eq!(
        judge(&p, &s, vec![]),
        (false, "Cannot increase load: active security threat (normal_operation)".to_string())
    );
    let mut s = state(Mode::Normal, 30);
    s.failed_auth_count = 6;
    assert!(!judge(&p, &s, vec![]).0);
    s.failed_auth_count = 5;
    assert!(judge(&p, &s, vec![]).0);
}

#[test]
fn degraded_is_entered_and_left_for_its_reasons_only() {
    let enter = proposal(ProposalAction::EnterDegraded, "ai_module_offline");
    assert_eq!(
        judge(&enter, &state(Mode::Normal, 40), vec![]),
        (true, "AI failure confirmed, transitioning to Degraded mode".to_string())
    );
    assert_eq!(
        judge(&enter, &state(Mode::Isolated, 40), vec![]),
        (false, "Cannot enter Degraded from current mode (Isolated)".to_string())
    );
    assert_eq!(
        judge(&proposal(ProposalAction::EnterDegraded, "x"), &state(Mode::Normal, 40), vec![]),
        (false, "EnterDegraded strictly requires 'ai_module_offline' state".to_string())
    );
    let exit = proposal(ProposalAction::ExitDegraded, "ai_recovered");
    assert_eq!(
        judge(&exit, &state(Mode::Degraded, 40), vec![]),
        (true, "AI module recovery confirmed, returning to Normal".to_string())
    );
    assert_eq!(
        judge(&exit, &state(Mode::Normal, 40), vec![]),
        (false, "Cannot exit Degraded: node is in Normal mode".to_string())
    );
    assert_eq!(
        judge(&proposal(ProposalAction::ExitDegraded, "x"), &state(Mode::Degraded, 40), vec![]),
        (false, "ExitDegraded strictly requires 'ai_recovered' state".to_string())
    );
    let mut s = state(Mode::Degraded, 40);
    s.last_threat_score = single(0.9);
    assert_eq!(
        judge(&exit, &s, vec![]),
        (
            false,
            "Cannot exit Degraded: unresolved security threat (normal_operation)".to_string()
        )
    );
}

#[test]
fn isolation_needs_a_finding_or_a_score() {
    for name in [
        "malware_detected",
        "auth_bruteforce_detected",
        "integrity_violation",
        "peer_consensus_isolation",
        "neighbor_cascade_failure",
        "reconnect_timeout_failure",
    ] {
        let p = proposal(ProposalAction::EnterIsolation, name);
        assert_eq!(judge(&p, &state(Mode::Normal, 40), vec![]), (true, format!("Isolation approved: {}", name)));
        assert!(!judge(&p, &state(Mode::Isolated, 40), vec![]).0);
    }
    let mut p = proposal(ProposalAction::EnterIsolation, "x");
    assert_eq!(
        judge(&p, &state(Mode::Normal, 40), vec![]),
        (
            false,
            "Insufficient threat score and unrecognized AI reason for isolation".to_string()
        )
    );
    p.threat_score = single(0.7);
    assert!(!judge(&p, &state(Mode::Normal, 40), vec![]).0);
    p.threat_score = single(0.71);
    assert!(judge(&p, &state(Mode::Normal, 40), vec![]).0);
}

#[test]
fn an_isolated_node_may_only_reconnect() {
    let calm = state(Mode::Isolated, 40);
    let reconnect = proposal(ProposalAction::BeginReconnect, "x");
    assert_eq!(judge(&reconnect, &calm, vec![]), (true, "Network conditions stable, reconnect approved".to_string()));
    let mut strained = state(Mode::Isolated, 40);
    strained.temperature = 31;
    assert_eq!(
        judge(&reconnect, &strained, vec![]),
        (false, "Reconnect denied: wrong mode or high auth failures".to_string())
    );
    let mut threat = state(Mode::Isolated, 40);
    threat.failed_auth_count = 9;
    assert_eq!(
        judge(&reconnect, &threat, vec![]),
        (
            false,
            "Reconnect denied: unresolved security breach (normal_operation)".to_string()
        )
    );
    for action in [
        ProposalAction::ReduceLoad,
        ProposalAction::IncreaseLoad,
        ProposalAction::EnterIsolation,
        ProposalAction::ExitIsolation,
        ProposalAction::EnterDegraded,
        ProposalAction::ExitDegraded,
        ProposalAction::ExitCalibration,
    ] {
        assert!(!judge(&proposal(action, "ai_module_offline"), &calm, vec![]).0);
    }
    assert_eq!(
        judge(&proposal(ProposalAction::DoNothing, "x"), &calm, vec![]),
        (true, "No action required".to_string())
    );
}

#[test]
fn isolation_is_left_from_reconnecting_only() {
    let exit = proposal(ProposalAction::ExitIsolation, "x");
    assert_eq!(
        judge(&exit, &state(Mode::Reconnecting, 40), vec![]),
        (true, "Recovery process complete, returning to normal operations".to_string())
    );
    assert_eq!(
        judge(&exit, &state(Mode::Isolated, 40), vec![]),
        (false, "Cannot exit Isolation: node is in Isolated mode".to_string())
    );
    let mut s = state(Mode::Reconnecting, 40);
    s.failed_auth_count = 6;
    assert_eq!(
        judge(&exit, &s, vec![]),
        (
            false,
            "Exit denied: new security threat detected during reconnect (normal_operation)".to_string()
        )
    );
}

#[test]
fn calibration_ends_when_nothing_persists() {
    let exit = proposal(ProposalAction::ExitCalibration, "x");
    let fine = "Calibration hold elapsed and metrics stabilized, returning to Normal".to_string();
    assert_eq!(judge(&exit, &state(Mode::Throttled, 40), vec![]), (true, fine.clone()));
    assert_eq!(judge(&exit, &state(Mode::Boosted, 60), vec![]), (true, fine.clone()));
    assert_eq!(
        judge(&exit, &state(Mode::Normal, 40), vec![]),
        (false, "Cannot exit calibration: node is in Normal mode".to_string())
    );
    let mut s = state(Mode::Throttled, 40);
    s.load_hold_ticks_left = 1;
    assert_eq!(
        judge(&exit, &s, vec![]),
        (false, "Cannot exit calibration: hold period not yet elapsed".to_string())
    );
    // The node itself is overloaded.
    assert_eq!(
        judge(&exit, &state(Mode::Throttled, 41), vec![]),
        (
            false,
            "Cannot exit calibration: load anomaly persists (mode: Throttled, relative util: 1.00, self overloaded: true)"
                .to_string()
        )
    );
    // 47 / 40 = 1.175 is above 1.15, 46 / 40 is not.
    assert_eq!(
        judge(&exit, &state(Mode::Throttled, 40), vec![signal(2, Mode::Normal, 47, 9)]).1,
        format!(
            "Cannot exit calibration: load anomaly persists (mode: Throttled, relative util: {:.2}, self overloaded: false)",
            47.0f32 / 40.0
        )
    );
    assert!(judge(&exit, &state(Mode::Throttled, 40), vec![signal(2, Mode::Normal, 46, 9)]).0);
    // A boosted neighbour counts with the usual load at most.
    assert!(judge(&exit, &state(Mode::Throttled, 40), vec![signal(2, Mode::Boosted, 90, 9)]).0);
    // A boosted node stays while any neighbour is throttled.
    assert!(!judge(&exit, &state(Mode::Boosted, 60), vec![signal(2, Mode::Throttled, 40, 9)]).0);
    assert!(!judge(&exit, &state(Mode::Boosted, 60), vec![signal(2, Mode::Normal, 71, 9)]).0);
    assert!(judge(&exit, &state(Mode::Boosted, 60), vec![signal(2, Mode::Normal, 70, 9)]).0);
    // Half of the neighbours throttled above the ceiling.
    let two = vec![signal(2, Mode::Throttled, 96, 9), signal(3, Mode::Normal, 0, 9), signal(4, Mode::Normal, 0, 9)];
    assert!(judge(&exit, &state(Mode::Throttled, 40), two).0);
    let two = vec![signal(2, Mode::Degraded, 96, 9), signal(3, Mode::Normal, 0, 9)];
    assert!(!judge(&exit, &state(Mode::Throttled, 40), two).0);
}

fn reduced(load: u8, connections: u8, c: &Config) -> (u8, u8) {
    let f = |s: Single| f32::from_bits(s.to_bits());
    let lc = &c.load_calibration;
    let target = (load as f32 * (1.0 - f(lc.reduce_factor))).max(lc.reduce_floor as f32).round() as u8;
    let ratio = if load > 0 { target as f32 / load as f32 } else { 1.0 };
    let delta = 1.0 - (1.0 - ratio) * f(lc.conn_scale_factor);
    let conns = ((connections as f32) * delta).round() as u8;
    let floor = (c.node_defaults.active_connections as f32 * 0.2).ceil() as u8;
    (target, conns.max(floor))
}

fn increased(load: u8, connections: u8, c: &Config) -> (u8, u8) {
    let f = |s: Single| f32::from_bits(s.to_bits());
    let lc = &c.load_calibration;
    let target = (load as f32 * (1.0 + f(lc.boost_factor))).min(lc.boost_ceiling as f32).round() as u8;
    let ratio = if load > 0 { target as f32 / load as f32 } else { 1.0 };
    let delta = 1.0 + (ratio - 1.0) * f(lc.conn_scale_factor);
    let conns = ((connections as f32) * delta).round() as u8;
    (target, conns.min(c.node_defaults.active_connections * 2))
}

#[test]
fn load_steps_agree_with_the_hardware() {
    let mut configs = vec![Config::default()];
    let mut odd = Config::default();
    odd.load_calibration.reduce_factor = single(1.7);
    odd.load_calibration.boost_factor = single(-0.3);
    odd.load_calibration.conn_scale_factor = single(f32::NAN);
    odd.node_defaults.active_connections = 127;
    configs.push(odd);
    let mut huge = Config::default();
    huge.load_calibration.reduce_factor = single(-50.0);
    huge.load_calibration.boost_factor = single(f32::INFINITY);
    huge.load_calibration.boost_ceiling = 255;
    huge.load_calibration.conn_scale_factor = single(3.5);
    configs.push(huge);
    for c in &configs {
        for load in [0u8, 1, 19, 20, 21, 25, 40, 63, 94, 95, 96, 127, 200, 255] {
            for conns in [0u8, 1, 2, 5, 9, 10, 11, 100, 255] {
                let mut s = state(Mode::Normal, load);
                s.active_connections = conns;
                Executor.apply(&proposal(ProposalAction::ReduceLoad, "x"), &mut s, c, 7);
                assert_eq!((s.load, s.active_connections), reduced(load, conns, c));
                assert!(s.load >= c.load_calibration.reduce_floor);
                let mut s = state(Mode::Normal, load);
                s.active_connections = conns;
                Executor.apply(&proposal(ProposalAction::IncreaseLoad, "x"), &mut s, c, 7);
                assert_eq!((s.load, s.active_connections), increased(load, conns, c));
                assert!(s.load <= c.load_calibration.boost_ceiling);
            }
        }
    }
}

#[test]
fn a_step_down_takes_a_fifth_off() {
    let mut s = state(Mode::Normal, 60);
    Executor.apply(&proposal(ProposalAction::ReduceLoad, "x"), &mut s, &Config::default(), 7);
    assert_eq!(s.load, 48);
    assert_eq!(s.mode, Mode::Throttled);
    assert_eq!(s.state_entered_tick, 7);
    assert_eq!(s.load_hold_ticks_left, 3);
    assert_eq!(s.pending_load_signal, Some(SignalType::LoadReduced));
    // 5 * (1 - 0.2 * 0.6) = 4.4
    assert_eq!(s.active_connections, 4);
}

#[test]
fn a_step_down_takes_any_number_of_usual_connections() {
    let mut c = Config::default();
    c.node_defaults.active_connections = 200;
    let mut s = state(Mode::Normal, 60);
    s.active_connections = 30;
    Executor.apply(&proposal(ProposalAction::ReduceLoad, "x"), &mut s, &c, 7);
    assert_eq!(s.load, 48);
    // 30 * 0.88 = 26.4, but no fewer than a fifth of 200.
    assert_eq!(s.active_connections, 40);
}

#[test]
fn a_step_up_adds_its_share() {
    let mut s = state(Mode::Normal, 40);
    Executor.apply(&proposal(ProposalAction::IncreaseLoad, "x"), &mut s, &Config::default(), 7);
    assert_eq!(s.load, 46);
    assert_eq!(s.mode, Mode::Boosted);
    assert_eq!(s.pending_load_signal, Some(SignalType::LoadBoosted));
    assert_eq!(s.active_connections, 5);
}

#[test]
fn the_other_actions_change_mode_and_time() {
    let c = Config::default();
    for (action, mode) in [
        (ProposalAction::EnterDegraded, Mode::Degraded),
        (ProposalAction::ExitDegraded, Mode::Normal),
        (ProposalAction::EnterIsolation, Mode::Isolated),
        (ProposalAction::ExitIsolation, Mode::Normal),
        (ProposalAction::BeginReconnect, Mode::Reconnecting),
        (ProposalAction::ExitCalibration, Mode::Normal),
    ] {
        let mut s = state(Mode::Throttled, 50);
        s.load_hold_ticks_left = 2;
        Executor.apply(&proposal(action, "x"), &mut s, &c, 9);
        assert_eq!(s.mode, mode);
        assert_eq!(s.state_entered_tick, 9);
        assert_eq!(s.load, 50);
        let held = !matches!(action, ProposalAction::EnterIsolation | ProposalAction::ExitCalibration);
        assert_eq!(s.load_hold_ticks_left, if held { 2 } else { 0 });
        let told = if action == ProposalAction::EnterIsolation { Some(SignalType::Isolation) } else { None };
        assert_eq!(s.pending_load_signal, told);
    }
    let mut s = state(Mode::Throttled, 50);
    Executor.apply(&proposal(ProposalAction::DoNothing, "x"), &mut s, &c, 9);
    assert_eq!((s.mode, s.state_entered_tick, s.load), (Mode::Throttled, 1, 50));
}
