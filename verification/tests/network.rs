use adaptive_network::ai_module::AIOutput;
use adaptive_network::config::Config;
use adaptive_network::network::topology_map::{Link, NodeSnapshot, TopologyMap};
use adaptive_network::network::{Network, RECENT_LIFECYCLE_CAPACITY};
use adaptive_network::node::tick::Asking;
use adaptive_network::node::{Mode, SignalType};
use adaptive_network::persistence::{JsonlLogger, LogLine, NetworkLogger};
use adaptive_network::scenarios::{AttackScenario, ScenarioTarget};
use adaptive_network::setup::build_network;
use adaptive_network::single::Single;
use std::collections::HashSet;
use std::sync::Arc;

fn single(x: f32) -> Single {
    Single::from_bits(x.to_bits())
}

fn logger() -> NetworkLogger {
    NetworkLogger::open("a".to_string(), "b".to_string(), "c".to_string(), 1)
}

fn network() -> Network {
    build_network(Arc::new(Config::default()))
}

fn calm() -> AIOutput {
    AIOutput {
        threat_score: single(0.1),
        predicted_state: "normal_operation".to_string(),
        recommended_action: "do_nothing".to_string(),
        event_reason: "calm".to_string(),
        confidence: single(0.9),
    }
}

/// One whole tick in which the neighbour model trusts everyone and all nodes' models are calm.
fn tick(net: &mut Network, log: &mut NetworkLogger) -> bool {
    let Some(questions) = net.tick(log, 0) else {
        return false;
    };
    let replies: Vec<Vec<Option<Single>>> = questions.iter().map(|q| q.iter().map(|_| Some(single(0.0))).collect()).collect();
    let askings = net.tick_votes(log, &replies, 0);
    let answers = askings.iter().map(|_| Ok(calm())).collect();
    net.tick_decisions(log, &askings, answers, 0);
    true
}

fn open(net: &Network, from: usize, to: usize) -> bool {
    net.links.iter().any(|l| l.active && l.from == from && l.to == to)
}

#[test]
fn a_network_is_built_by_its_settings() {
    let cfg = Arc::new(Config::default());
    assert!(cfg.is_runnable());
    let net = build_network(cfg.clone());
    assert_eq!(net.nodes.iter().map(|n| n.id).collect::<Vec<_>>(), vec![1, 2, 3, 4, 5]);
    assert_eq!(net.links.len(), 12);
    assert_eq!(net.links[0], Link { from: 0, to: 4, active: true, virtual_link: false });
    assert_eq!((net.tick, net.max_ticks, net.finished), (0, 20, false));
    assert!(net.nodes.iter().all(|n| n.state.load == 40 && n.state.mode == Mode::Normal));
    assert_eq!(net.nodes[0].state.ai_state_reason, "normal_operation");
    // All share one set of settings.
    assert!(net.nodes.iter().all(|n| Arc::ptr_eq(&n.config, &cfg)));
    assert_eq!(Arc::strong_count(&cfg), 7);
}

#[test]
fn settings_that_cannot_run_are_told() {
    let mut c = Config::default();
    c.node_defaults.active_connections = 128;
    assert!(!c.is_runnable());
    let mut c = Config::default();
    c.topology.links[2].neighbors.push(6);
    assert!(!c.is_runnable());
    let mut c = Config::default();
    c.topology.links[2].neighbors[0] = 0;
    assert!(!c.is_runnable());
    let mut c = Config::default();
    c.topology.links[4].id = 6;
    assert!(!c.is_runnable());
}

#[test]
fn links_follow_a_topology() {
    let links = Network::build_links(&vec![(1, vec![2, 3]), (3, vec![]), (2, vec![1])]);
    let link = |from, to| Link { from, to, active: true, virtual_link: false };
    assert_eq!(links, vec![link(0, 1), link(0, 2), link(1, 0)]);
}

#[test]
fn a_simulation_ends_with_its_last_tick() {
    let mut net = network();
    let mut log = logger();
    for t in 1..=20u64 {
        assert!(!net.finished);
        assert!(tick(&mut net, &mut log));
        assert_eq!(net.tick, t);
    }
    assert!(net.finished);
    assert!(!tick(&mut net, &mut log));
    assert_eq!(net.tick, 20);
}

#[test]
fn every_tick_is_logged_and_handed_over() {
    let mut net = network();
    let mut log = logger();
    tick(&mut net, &mut log);
    // Twelve links carry one broadcast each.
    let signals = log.signals.take_outgoing();
    assert_eq!(signals.len(), 12);
    assert_eq!((signals[0].sender_id, signals[0].receiver_id), (1, 5));
    assert_eq!(signals[0].signal_type, "Normal");
    let decisions = log.lifecycle.take_outgoing();
    assert_eq!(decisions.len(), 5);
    assert!(decisions.iter().all(|d| d.proposal_action == "DoNothing" && d.allowed && d.tick == 1));
    assert_eq!(log.ai_decisions.take_outgoing().len(), 5);
    assert!(log.signals.buffer.is_empty() && log.lifecycle.buffer.is_empty() && log.ai_decisions.buffer.is_empty());
    assert!(net.nodes.iter().all(|n| n.pending_lifecycle.is_empty() && n.pending_ai_decisions.is_empty()));
    // Not before the second tick do the nodes know their neighbours.
    assert!(net.nodes.iter().all(|n| n.neighbor_signals.len() == 0));
    assert_eq!(net.nodes[1].neighbor_ids, vec![1, 3, 4, 5]);
    tick(&mut net, &mut log);
    assert_eq!(net.nodes[1].neighbor_signals.len(), 4);
}

#[test]
fn the_last_decisions_are_kept_for_show() {
    let mut c = Config::default();
    c.simulation.max_ticks = 1000;
    let mut net = build_network(Arc::new(c));
    let mut log = logger();
    for _ in 0..60 {
        tick(&mut net, &mut log);
    }
    assert_eq!(net.recent_lifecycle.len(), RECENT_LIFECYCLE_CAPACITY);
    assert_eq!(net.recent_lifecycle[199].tick, 60);
    assert_eq!(net.recent_lifecycle[0].tick, 21);
}

#[test]
fn models_are_asked_for_what_they_are_needed() {
    let mut net = network();
    let mut log = logger();
    net.nodes[0].state.mode = Mode::Isolated;
    net.nodes[1].state.mode = Mode::Reconnecting;
    net.nodes[2].ai.set_overridden(true);
    net.tick(&mut log, 0).unwrap();
    let askings = net.tick_votes(&mut log, &vec![], 0);
    assert_eq!(
        askings,
        vec![Asking::SelfCheck, Asking::Nothing, Asking::Prediction, Asking::Prediction, Asking::Prediction]
    );
    let questions = net.questions(&askings);
    assert_eq!(questions.iter().map(|q| q.is_some()).collect::<Vec<_>>(), vec![true, false, false, true, true]);
    assert_eq!(questions[3].as_ref().unwrap().neighbor_count, 2);
}

#[test]
fn accused_nodes_are_isolated_and_cut_off() {
    let mut net = network();
    let mut log = logger();
    tick(&mut net, &mut log);
    // From the second tick on everyone holds signals of node 1 and takes it for malware.
    let questions = net.tick(&mut log, 0).unwrap();
    let mut replies: Vec<Vec<Option<Single>>> = Vec::new();
    for (i, q) in questions.iter().enumerate() {
        let sources: Vec<u32> = net.nodes[i].neighbor_signals.keys().copied().collect();
        assert_eq!(q.len(), sources.len());
        replies.push(sources.iter().map(|s| Some(single(if *s == 1 { 0.9 } else { 0.0 }))).collect());
    }
    let askings = net.tick_votes(&mut log, &replies, 0);
    assert_eq!(net.nodes[0].state.mode, Mode::Isolated);
    assert!(net.nodes[1..].iter().all(|n| n.state.mode == Mode::Normal));
    let answers = askings.iter().map(|_| Ok(calm())).collect();
    net.tick_decisions(&mut log, &askings, answers, 0);
    // Its links are closed, the others are not.
    assert!(net.links.iter().all(|l| l.active == (l.from != 0 && l.to != 0)));
    let sent = log.signals.take_outgoing();
    assert_eq!(sent.iter().filter(|s| s.signal_type == "PeerSuspicion").count(), 2);
    // Before that, its neighbours are told of the isolation.
    assert_eq!(sent.iter().filter(|s| s.signal_type == "Isolation" && s.sender_id == 1).count(), 2);
    tick(&mut net, &mut log);
    assert!(net.nodes[1].neighbor_ids.iter().all(|id| *id != 1));
    // A neighbour takes over load of the node that has gone.
    assert!(net.nodes[4].state.load > 40);
}

#[test]
fn cut_nodes_hear_nothing() {
    let mut net = network();
    let mut log = logger();
    for _ in 0..3 {
        tick(&mut net, &mut log);
    }
    net.nodes[2].state.mode = Mode::Isolated;
    net.nodes[2].state.state_entered_tick = net.tick;
    tick(&mut net, &mut log);
    let last = |net: &Network| net.nodes[2].neighbor_signals.get(&2).unwrap().back().unwrap().timestamp;
    let heard = last(&net);
    assert_eq!(heard, 4);
    net.tick(&mut log, 0).unwrap();
    net.tick_votes(&mut log, &vec![], 0);
    assert_eq!(last(&net), heard);
    assert!(net.nodes[2].neighbor_ids.is_empty());
    // Its neighbours go on hearing each other.
    assert_eq!(net.nodes[1].neighbor_signals.get(&4).unwrap().back().unwrap().timestamp, 5);
}

#[test]
fn an_isolated_node_comes_back_by_quorum() {
    let mut c = Config::default();
    c.simulation.max_ticks = 100;
    let mut net = build_network(Arc::new(c));
    let mut log = logger();
    for _ in 0..3 {
        tick(&mut net, &mut log);
    }
    net.nodes[2].state.mode = Mode::Isolated;
    net.nodes[2].state.state_entered_tick = net.tick;
    let mut seen = Vec::new();
    for _ in 0..20 {
        tick(&mut net, &mut log);
        let mode = net.nodes[2].state.mode;
        if seen.last() != Some(&mode) {
            seen.push(mode);
        }
        let open_links = net.links.iter().filter(|l| !l.virtual_link && (l.from == 2 || l.to == 2) && l.active).count();
        assert_eq!(open_links, if mode == Mode::Isolated { 0 } else { 4 });
    }
    // The node asks to be let in and is, all in the tick in which its quarantine is over.
    assert_eq!(seen[..2], [Mode::Isolated, Mode::Normal]);
}

#[test]
fn a_partition_is_cut_off_and_bridged_and_healed() {
    let mut c = Config::default();
    c.simulation.max_ticks = 200;
    // 1 - 2 - 3 - 4 - 1, a ring, so that 1 and 3 can be bridged round 2.
    c.topology.links.truncate(4);
    for (i, neighbors) in [vec![2u32, 4], vec![1, 3], vec![2, 4], vec![3, 1]].into_iter().enumerate() {
        c.topology.links[i].neighbors = neighbors;
    }
    let mut net = build_network(Arc::new(c));
    let mut log = logger();
    for _ in 0..4 {
        tick(&mut net, &mut log);
    }
    net.apply_scenario(AttackScenario::network_partition(ScenarioTarget::ById(2), 12));
    assert!(net.partitioned_nodes.contains(&2));
    assert_eq!(net.nodes[1].state.ai_state_reason, "network_partitioned");
    let mut bridged = false;
    for _ in 0..11 {
        tick(&mut net, &mut log);
        assert!(net.links.iter().all(|l| !l.active || (l.from != 1 && l.to != 1)));
        let virtual_links: Vec<(usize, usize)> =
            net.links.iter().filter(|l| l.virtual_link).map(|l| (l.from, l.to)).collect();
        if !virtual_links.is_empty() {
            bridged = true;
            assert_eq!(virtual_links, vec![(0, 2), (2, 0)]);
        }
    }
    assert!(bridged);
    assert!(open(&net, 0, 2) && open(&net, 2, 0));
    // The scenario ends: the node is let in again, and the bridge is taken down.
    for _ in 0..2 {
        tick(&mut net, &mut log);
    }
    assert!(net.partitioned_nodes.is_empty());
    assert!(net.active_effects.is_empty());
    assert!(open(&net, 0, 1) && open(&net, 1, 2));
    assert!(net.links.iter().all(|l| !l.virtual_link));
    assert!(net.recovered_at_tick.contains_key(&2));
    let sent = log.signals.take_outgoing();
    assert!(sent.iter().any(|s| s.signal_type == "VirtualBridgeRequest"));
    assert!(sent.iter().any(|s| s.signal_type == "VirtualBridgeAck"));
}

#[test]
fn floods_reach_the_neighbors_of_neighbors() {
    let mut net = network();
    let mut log = logger();
    tick(&mut net, &mut log);
    let map = &net.nodes[2].topology_map;
    // Node 3 is linked with 2 and 4, and hears of 1 and 5 from 2.
    for (id, steps) in [(2u32, 1), (4, 1), (1, 2), (5, 2)] {
        let confidence = f32::from_bits(map.snapshots.get(&id).unwrap().confidence.to_bits());
        assert_eq!(confidence, if steps == 1 { 1.0f32 } else { 1.0f32 * 0.9 });
    }
    assert_eq!(map.snapshots.get(&2).unwrap().neighbors, vec![1, 3, 4, 5]);
    assert_eq!(map.detect_stale_nodes(6, 5), Vec::<u32>::new());
    assert_eq!(map.detect_stale_nodes(7, 5), vec![1, 2, 3, 4, 5]);
}

#[test]
fn a_reconnecting_node_gives_up_after_its_attempts() {
    let mut net = network();
    let mut log = logger();
    net.nodes[0].state.mode = Mode::Reconnecting;
    net.nodes[0].reconnect = Some(adaptive_network::node::ReconnectState {
        started_at_tick: 0,
        confirmed_by: HashSet::new(),
        attempts: 0,
    });
    // Nobody knows the node yet, so nobody is asked in the first tick.
    tick(&mut net, &mut log);
    assert_eq!(net.nodes[0].reconnect.as_ref().unwrap().attempts, 1);
    net.nodes[0].state.failed_auth_count = 6;
    for _ in 0..4 {
        tick(&mut net, &mut log);
    }
    assert!(net.nodes[0].reconnect.is_none());
    assert_eq!(net.nodes[0].state.mode, Mode::Isolated);
    assert_eq!(net.nodes[0].state.ai_state_reason, "reconnect_timeout");
}

#[test]
fn a_reconnecting_node_is_welcomed() {
    let mut net = network();
    let mut log = logger();
    for _ in 0..2 {
        tick(&mut net, &mut log);
    }
    net.nodes[0].state.mode = Mode::Reconnecting;
    net.nodes[0].reconnect = Some(adaptive_network::node::ReconnectState {
        started_at_tick: 2,
        confirmed_by: HashSet::new(),
        attempts: 0,
    });
    tick(&mut net, &mut log);
    assert_eq!(net.nodes[0].state.mode, Mode::Normal);
    assert_eq!(net.nodes[0].state.ai_state_reason, "network_partition_healing");
    let sent = log.signals.take_outgoing();
    assert!(sent.iter().any(|s| s.signal_type == "ReconnectAck" && s.receiver_id == 1));
}

fn map(entries: &[(u32, &[u32])]) -> TopologyMap {
    let mut m = TopologyMap::new();
    for (id, neighbors) in entries {
        m.merge(NodeSnapshot { node_id: *id, neighbors: neighbors.to_vec(), timestamp: 1, confidence: single(1.0) }, 1);
    }
    m
}

#[test]
fn the_shortest_way_is_found() {
    let m = map(&[(1, &[2, 4]), (2, &[3]), (3, &[5]), (4, &[5]), (5, &[6])]);
    let none = HashSet::new();
    assert_eq!(m.find_path(1, 6, &none), Some(vec![1, 4, 5, 6]));
    assert_eq!(m.find_path(1, 1, &none), Some(vec![1]));
    assert_eq!(m.find_path(6, 1, &none), None);
    let without: HashSet<u32> = [4].into_iter().collect();
    assert_eq!(m.find_path(1, 6, &without), Some(vec![1, 2, 3, 5, 6]));
    let cut: HashSet<u32> = [5].into_iter().collect();
    assert_eq!(m.find_path(1, 6, &cut), None);
}

#[test]
fn newer_snapshots_replace_older_ones() {
    let mut m = map(&[(1, &[2])]);
    m.merge(NodeSnapshot { node_id: 1, neighbors: vec![9], timestamp: 1, confidence: single(1.0) }, 5);
    assert_eq!(m.snapshots.get(&1).unwrap().neighbors, vec![2]);
    assert_eq!(m.last_updated, 1);
    m.merge(NodeSnapshot { node_id: 1, neighbors: vec![9], timestamp: 2, confidence: single(1.0) }, 5);
    assert_eq!(m.snapshots.get(&1).unwrap().neighbors, vec![9]);
    assert_eq!(m.last_updated, 5);
}

#[test]
fn degraded_nodes_raise_an_alert() {
    let mut net = network();
    let mut log = logger();
    net.nodes[0].state.mode = Mode::Degraded;
    tick(&mut net, &mut log);
    let sent = log.signals.take_outgoing();
    assert_eq!(sent.iter().filter(|s| s.signal_type == "Alert").count(), 2);
    assert_eq!(SignalType::Alert.name(), "Alert");
}

#[test]
fn a_log_flushes_by_its_interval() {
    let mut log: JsonlLogger<adaptive_network::persistence::SignalEntry> = JsonlLogger::open("x".to_string(), 3);
    assert_eq!(log.path(), "x");
    let entry = |t| {
        adaptive_network::persistence::SignalEntry::now(
            t,
            1,
            2,
            "Normal".to_string(),
            adaptive_network::persistence::SignalContent {
                mode: "Normal".to_string(),
                load: 1,
                active_connections: 1,
                failed_auth_count: 0,
                ai_state_reason: String::new(),
                signal_threat_score: single(0.0),
            },
            single(0.0),
            0,
        )
    };
    log.push(entry(1), 1);
    log.push(entry(2), 2);
    assert_eq!((log.buffer.len(), log.outgoing.len()), (2, 0));
    log.push(entry(3), 3);
    assert_eq!((log.buffer.len(), log.outgoing.len(), log.last_flush), (0, 3, 3));
    log.push(entry(4), 4);
    let failed = log.take_outgoing();
    log.put_back(failed, 0);
    assert_eq!(log.buffer.iter().map(|e| e.tick).collect::<Vec<_>>(), vec![1, 2, 3, 4]);
    assert_eq!(log.last_flush, 0);
    let last = log.last_tick(Ok(vec![entry(3), entry(9), entry(5)]));
    assert_eq!(last.unwrap(), Some(9));
    assert!(matches!(log.last_tick(Ok(vec![])), Ok(None)));
    let (read, errors) = log.load_all(vec![
        LogLine::Entry(entry(1)),
        LogLine::Corrupted,
        LogLine::Blank,
        LogLine::Entry(entry(2)),
        LogLine::Corrupted,
    ]);
    assert_eq!((read.len(), errors), (2, 2));
}

#[test]
fn suspicions_are_remembered_and_told_to_the_model() {
    let mut net = network();
    let mut log = logger();
    tick(&mut net, &mut log);
    let mut cast = 0;
    for _ in 0..3 {
        let questions = net.tick(&mut log, 0).unwrap();
        // Whom each node is asked about: one question for each signal it holds that is not to itself.
        let sources: Vec<Vec<u32>> = net
            .nodes
            .iter()
            .map(|n| {
                let held = n.neighbor_signals.values().flatten();
                held.filter(|s| s.target_id != Some(n.id)).map(|s| s.source_id).collect()
            })
            .collect();
        for (i, asked) in sources.iter().enumerate() {
            assert_eq!(asked.len(), questions[i].len());
            for (k, source) in asked.iter().enumerate() {
                // Node 3 tells the model how often it has suspected node 2; no other suspects any.
                let expected = if i == 2 && *source == 2 { cast } else { 0 };
                assert_eq!(questions[i][k].prior_suspicion_votes_against, expected);
            }
        }
        let reply = |i: usize, source: u32| Some(single(if i == 2 && source == 2 { 0.9 } else { 0.0 }));
        let replies = sources.iter().enumerate().map(|(i, q)| q.iter().map(|s| reply(i, *s)).collect()).collect();
        let askings = net.tick_votes(&mut log, &replies, 0);
        let answers = askings.iter().map(|_| Ok(calm())).collect();
        net.tick_decisions(&mut log, &askings, answers, 0);
        let about: Vec<u32> = sources[2].iter().copied().filter(|s| *s == 2).collect();
        assert!(!about.is_empty());
        cast += about.len() as u32;
        assert_eq!(net.nodes[2].neighbor_history.get(&2).unwrap().suspicion_votes_cast, cast);
        assert_eq!(net.nodes[2].neighbor_history.get(&4).unwrap().suspicion_votes_cast, 0);
    }
}

#[test]
fn a_tick_logs_its_decisions_once_and_keeps_the_last_ones() {
    let mut net = network();
    let mut log = logger();
    let mut all: Vec<(u64, u32, String)> = Vec::new();
    for _ in 0..15 {
        tick(&mut net, &mut log);
        all.extend(log.lifecycle.take_outgoing().into_iter().map(|e| (e.tick, e.node_id, e.supervisor_reason)));
        let shown: Vec<(u64, u32, String)> =
            net.recent_lifecycle.iter().map(|e| (e.tick, e.node_id, e.supervisor_reason.clone())).collect();
        assert_eq!(shown[..], all[all.len().saturating_sub(RECENT_LIFECYCLE_CAPACITY)..]);
        assert!(net.nodes.iter().all(|n| n.pending_lifecycle.is_empty() && n.pending_ai_decisions.is_empty()));
        assert!(net.links.iter().all(|l| l.active));
    }
    assert_eq!(all.len(), 75);
}

#[test]
fn links_are_open_exactly_between_nodes_that_are_not_cut() {
    let mut c = Config::default();
    c.simulation.max_ticks = 100;
    let mut net = build_network(Arc::new(c));
    let mut log = logger();
    net.apply_scenario(AttackScenario::network_partition(ScenarioTarget::ById(2), 8));
    for t in 0..20 {
        if t == 5 {
            net.nodes[3].state.mode = Mode::Isolated;
            net.nodes[3].state.failed_auth_count = 9;
        }
        tick(&mut net, &mut log);
        let cut = |i: usize| net.nodes[i].state.mode == Mode::Isolated || net.partitioned_nodes.contains(&net.nodes[i].id);
        assert!(net.links.iter().all(|l| l.active == (!cut(l.from) && !cut(l.to))));
    }
}
