use adaptive_network::config::Config;
use adaptive_network::control::{Round, SimControl};
use adaptive_network::network::Network;
use adaptive_network::node::{Mode, SignalType};
use adaptive_network::persistence::{record_text, LoadError, NetworkLogger, StateChange, StateSnapshot};
use adaptive_network::scenarios::engine::ScenarioEngine;
use adaptive_network::scenarios::{AppliedDelta, AttackScenario, EffectKind, ScenarioAction, ScenarioTarget};
use adaptive_network::setup::{build_network, create_node};
use adaptive_network::single::Single;
use adaptive_network::visualization::build_visual_state;
use adaptive_network::visualization::command::{read_command, Command, Duration, Refusal, ScenarioRequest, Viewer};
use std::collections::HashSet;
use std::sync::Arc;

fn network() -> Network {
    build_network(Arc::new(Config::default()))
}

fn single(x: f32) -> Single {
    Single::from_bits(x.to_bits())
}

#[test]
fn targets_are_resolved() {
    let mut net = network();
    assert_eq!(ScenarioTarget::ById(3).resolve(&net), vec![2]);
    assert_eq!(ScenarioTarget::ById(9).resolve(&net), Vec::<usize>::new());
    assert_eq!(ScenarioTarget::Ids(vec![5, 9, 1, 5]).resolve(&net), vec![4, 0, 4]);
    assert_eq!(ScenarioTarget::All.resolve(&net), vec![0, 1, 2, 3, 4]);
    assert_eq!(ScenarioTarget::NeighborsOf(1).resolve(&net), vec![4, 1]);
    assert_eq!(ScenarioTarget::NeighborsOf(9).resolve(&net), Vec::<usize>::new());
    net.links[0].active = false;
    assert_eq!(ScenarioTarget::NeighborsOf(1).resolve(&net), vec![1]);
}

#[test]
fn random_targets_vary_and_are_distinct() {
    let mut net = network();
    net.nodes[3].state.mode = Mode::Isolated;
    let mut first: HashSet<usize> = HashSet::new();
    for _ in 0..300 {
        let picks = ScenarioTarget::Random { count: 3 }.resolve(&net);
        assert_eq!(picks.len(), 3);
        assert_eq!(picks.iter().collect::<HashSet<_>>().len(), 3);
        assert!(picks.iter().all(|i| *i < 5 && *i != 3));
        first.insert(picks[0]);
    }
    assert_eq!(first.len(), 4);
    assert_eq!(ScenarioTarget::Random { count: 10 }.resolve(&net).len(), 4);
    assert!(ScenarioTarget::Random { count: 0 }.resolve(&net).is_empty());
}

#[test]
fn actions_are_done_and_undone() {
    for (action, load_kept) in [
        (ScenarioAction::InflateLoad { delta: 20 }, true),
        (ScenarioAction::InflateConnections { delta: -10 }, true),
        (ScenarioAction::InflateConnections { delta: 127 }, true),
        (ScenarioAction::InflateFailedAuth { delta: 255 }, true),
        (ScenarioAction::ForceMode { mode: Mode::Degraded }, true),
        (ScenarioAction::AgeSync { seconds: 60 }, true),
        (ScenarioAction::TagAiState { label: "x".to_string() }, true),
        (ScenarioAction::OverrideAI { enabled: true }, true),
    ] {
        let mut n = create_node(1, Arc::new(Config::default()));
        n.state.load = 80;
        n.state.last_sync_time = 30;
        let delta = action.apply_once(&mut n);
        delta.revert(&mut n);
        assert!(load_kept);
        assert_eq!(
            (n.state.load, n.state.active_connections, n.state.failed_auth_count, n.state.mode),
            (80, 5, 0, Mode::Normal)
        );
        assert_eq!((n.state.last_sync_time, n.state.ai_state_reason.as_str()), (30, "normal_operation"));
        assert!(!n.ai.is_overridden());
    }
}

#[test]
fn actions_stay_in_range() {
    let mut n = create_node(1, Arc::new(Config::default()));
    n.state.load = 250;
    assert!(matches!(ScenarioAction::InflateLoad { delta: 20 }.apply_once(&mut n), AppliedDelta::Load(5)));
    assert_eq!(n.state.load, 255);
    n.state.load = 3;
    assert!(matches!(ScenarioAction::InflateLoad { delta: -10 }.apply_once(&mut n), AppliedDelta::Load(-3)));
    assert_eq!(n.state.load, 0);
    n.state.last_sync_time = 10;
    ScenarioAction::AgeSync { seconds: 60 }.apply_once(&mut n);
    assert_eq!(n.state.last_sync_time, 0);
    ScenarioAction::EmitLoadSignal { signal: SignalType::LoadReduced }.apply_once(&mut n);
    assert_eq!(n.state.pending_load_signal, Some(SignalType::LoadReduced));
}

#[test]
fn a_reverted_load_comes_back_between_70_and_120() {
    let mut n = create_node(1, Arc::new(Config::default()));
    let delta = ScenarioAction::InflateLoad { delta: 20 }.apply_once(&mut n);
    assert_eq!(n.state.load, 60);
    delta.revert(&mut n);
    assert_eq!(n.state.load, 70);
    n.state.load = 200;
    AppliedDelta::Load(10).revert(&mut n);
    assert_eq!(n.state.load, 120);
    n.state.active_connections = 5;
    AppliedDelta::Connections(9).revert(&mut n);
    assert_eq!(n.state.active_connections, 0);
    n.state.active_connections = 250;
    AppliedDelta::Connections(-10).revert(&mut n);
    assert_eq!(n.state.active_connections, 4);
}

#[test]
fn scenarios_hold_their_actions() {
    let s = AttackScenario::ddos(ScenarioTarget::All, 7);
    assert_eq!(s.name, "ddos");
    assert_eq!(s.effect, EffectKind::Sustained { duration_ticks: 7, revert_on_expire: true });
    assert_eq!(s.actions.len(), 4);
    assert!(!s.cuts_links);
    assert_eq!(AttackScenario::underscale(ScenarioTarget::All, 7).actions.len(), 4);
    assert_eq!(AttackScenario::brute_force(ScenarioTarget::All, 7).actions.len(), 2);
    assert_eq!(AttackScenario::ai_crash(ScenarioTarget::All, 7).actions.len(), 3);
    assert_eq!(AttackScenario::node_infection(ScenarioTarget::All, 7).actions.len(), 4);
    assert!(AttackScenario::network_partition(ScenarioTarget::All, 7).cuts_links);
}

#[test]
fn an_effect_is_repeated_and_taken_back() {
    let mut net = network();
    net.apply_scenario(AttackScenario::brute_force(ScenarioTarget::ById(2), 3));
    assert_eq!(net.nodes[1].state.failed_auth_count, 5);
    assert_eq!(net.active_effects.len(), 1);
    assert_eq!(net.active_effects[0].target_node_indices, vec![1]);
    let mut effects = std::mem::take(&mut net.active_effects);
    for count in [10u8, 15] {
        effects = ScenarioEngine::advance_active_effects(&mut net, effects);
        assert_eq!(net.nodes[1].state.failed_auth_count, count);
        assert_eq!(effects.len(), 1);
    }
    effects = ScenarioEngine::advance_active_effects(&mut net, effects);
    assert!(effects.is_empty());
    assert_eq!(net.nodes[1].state.failed_auth_count, 0);
    assert_eq!(net.nodes[1].state.ai_state_reason, "normal_operation");
}

#[test]
fn a_node_that_escapes_keeps_its_mode() {
    let mut net = network();
    net.apply_scenario(AttackScenario::ai_crash(ScenarioTarget::ById(2), 2));
    assert_eq!(net.nodes[1].state.mode, Mode::Degraded);
    assert!(net.nodes[1].ai.is_overridden());
    net.nodes[1].state.mode = Mode::Isolated;
    let effects = std::mem::take(&mut net.active_effects);
    let effects = ScenarioEngine::advance_active_effects(&mut net, effects);
    assert_eq!(net.nodes[1].state.mode, Mode::Isolated);
    assert!(ScenarioEngine::advance_active_effects(&mut net, effects).is_empty());
    assert_eq!(net.nodes[1].state.mode, Mode::Isolated);
    assert!(net.nodes[1].ai.is_overridden());
    assert_eq!(net.nodes[1].state.ai_state_reason, "normal_operation");
}

#[test]
fn an_instant_effect_stays() {
    let mut net = network();
    let scenario = AttackScenario {
        name: "push".to_string(),
        target: ScenarioTarget::ById(1),
        actions: vec![ScenarioAction::InflateLoad { delta: 5 }],
        effect: EffectKind::Instant,
        cuts_links: false,
    };
    assert!(ScenarioEngine::apply(&mut net, &scenario).is_none());
    assert_eq!(net.nodes[0].state.load, 45);
    let nobody = AttackScenario::ddos(ScenarioTarget::ById(77), 5);
    assert!(ScenarioEngine::apply(&mut net, &nobody).is_none());
}

#[test]
fn an_effect_that_is_not_taken_back_stays() {
    let mut net = network();
    let scenario = AttackScenario {
        name: "cut".to_string(),
        target: ScenarioTarget::ById(1),
        actions: vec![ScenarioAction::InflateLoad { delta: 5 }],
        effect: EffectKind::Sustained { duration_ticks: 1, revert_on_expire: false },
        cuts_links: true,
    };
    net.apply_scenario(scenario);
    let effects = std::mem::take(&mut net.active_effects);
    assert!(ScenarioEngine::advance_active_effects(&mut net, effects).is_empty());
    assert_eq!(net.nodes[0].state.load, 45);
    assert!(net.partitioned_nodes.contains(&1));
}

#[test]
fn commands_are_read() {
    assert!(matches!(read_command("run"), Command::Run));
    assert!(matches!(read_command("stop"), Command::Stop));
    assert!(matches!(read_command("restart"), Command::Restart));
    for other in ["", "Run", "scenario", "scenario:ddos", "scenarios:ddos:All", "run "] {
        assert!(matches!(read_command(other), Command::Other), "{}", other);
    }
    let read = |text: &str| match read_command(text) {
        Command::Scenario(r) => r,
        _ => panic!("{}", text),
    };
    let r = read("scenario:ddos:ById:3:15");
    assert_eq!(r.name, "ddos");
    assert!(matches!(r.target, ScenarioTarget::ById(3)));
    assert!(matches!(r.duration, Duration::Ticks(15)));
    let r = read("scenario:x:Random");
    assert!(matches!(r.target, ScenarioTarget::Random { count: 1 }));
    assert!(matches!(r.duration, Duration::Usual));
    assert!(matches!(read("scenario:x:ById").target, ScenarioTarget::ById(0)));
    assert!(matches!(read("scenario:x:ById:abc").target, ScenarioTarget::ById(0)));
    assert!(matches!(read("scenario:x:ById:+4").target, ScenarioTarget::ById(4)));
    assert!(matches!(read("scenario:x:ById:-4").target, ScenarioTarget::ById(0)));
    assert!(matches!(read("scenario:x:ById:4294967295").target, ScenarioTarget::ById(u32::MAX)));
    assert!(matches!(read("scenario:x:ById:4294967296").target, ScenarioTarget::ById(0)));
    assert!(matches!(read("scenario:x:Everyone:4").target, ScenarioTarget::All));
    assert!(matches!(read("scenario:x:All::18446744073709551615:rest").duration, Duration::Ticks(u64::MAX)));
    for raw in ["", "+", "1 ", "18446744073709551616", "1.5", "é"] {
        match read(&format!("scenario:x:All:0:{}", raw)).duration {
            Duration::Unreadable(text) => assert_eq!(text, raw),
            _ => panic!("{}", raw),
        }
    }
    assert!(matches!(read("scenario:x:All:0:0007").duration, Duration::Ticks(7)));
}

#[test]
fn numbers_are_read_as_the_standard_library_reads_them() {
    for raw in ["", "+", "-", "0", "00", "+0", "-0", "12", "+12", "1+", "9999999999", "4294967295", "4294967296", "٣", "1_0", " 1"] {
        let expected: u32 = raw.parse().unwrap_or(0);
        match read_command(&format!("scenario:x:ById:{}", raw)) {
            Command::Scenario(r) => assert!(matches!(r.target, ScenarioTarget::ById(id) if id == expected), "{}", raw),
            _ => panic!("{}", raw),
        }
    }
}

fn request(name: &str, duration: Duration) -> ScenarioRequest {
    ScenarioRequest { name: name.to_string(), target: ScenarioTarget::ById(1), duration }
}

#[test]
fn requests_are_granted_or_refused() {
    for (name, usual) in [
        ("ddos", 20),
        ("underscale", 20),
        ("brute_force", 10),
        ("ai_crash", 20),
        ("node_infection", 20),
        ("network_partition", 10),
    ] {
        let s = request(name, Duration::Usual).scenario(3).unwrap();
        assert_eq!(s.name, name);
        assert_eq!(s.effect, EffectKind::Sustained { duration_ticks: usual, revert_on_expire: true });
    }
    assert!(request("ddos", Duration::Ticks(3)).scenario(3).is_ok());
    assert!(matches!(
        request("ddos", Duration::Ticks(4)).scenario(3),
        Err(Refusal::OutOfRange { ticks: 4, remaining: 3 })
    ));
    assert!(matches!(
        request("ddos", Duration::Ticks(0)).scenario(3),
        Err(Refusal::OutOfRange { ticks: 0, remaining: 3 })
    ));
    assert!(matches!(
        request("ddos", Duration::Unreadable("x".to_string())).scenario(3),
        Err(Refusal::Unreadable(raw)) if raw == "x"
    ));
    assert!(matches!(request("flood", Duration::Usual).scenario(3), Err(Refusal::Unknown(name)) if name == "flood"));
}

#[test]
fn a_network_obeys() {
    let mut net = network();
    assert_eq!(net.remaining_ticks(), 20);
    assert!(net.obey(request("ddos", Duration::Ticks(20))).is_ok());
    assert_eq!((net.nodes[0].state.load, net.nodes[0].state.active_connections), (60, 45));
    assert_eq!(net.active_effects.len(), 1);
    assert!(matches!(
        net.obey(request("ddos", Duration::Ticks(21))),
        Err(Refusal::OutOfRange { ticks: 21, remaining: 20 })
    ));
    assert!(matches!(net.obey(request("flood", Duration::Ticks(3))), Err(Refusal::Unknown(name)) if name == "flood"));
    assert!(matches!(
        net.obey(request("flood", Duration::Unreadable("x".to_string()))),
        Err(Refusal::Unreadable(raw)) if raw == "x"
    ));
    assert_eq!(net.active_effects.len(), 1);
}

#[test]
fn a_viewer_is_shown_what_is_new() {
    let mut net = network();
    let mut log = NetworkLogger::open("a".to_string(), "b".to_string(), "c".to_string(), 1);
    let mut viewer = Viewer::new();
    for _ in 0..3 {
        net.tick(&mut log, 0).unwrap();
        let askings = net.tick_votes(&mut log, &vec![], 0);
        let answers = askings.iter().map(|_| Err("none".to_string())).collect();
        net.nodes[1].state.load_hold_ticks_left = 1;
        net.tick_decisions(&mut log, &askings, answers, 0);
    }
    net.nodes[0].state.load = 43;
    net.links[0].active = false;
    let state = viewer.show(&net);
    assert_eq!(viewer.last_sent_tick, 3);
    assert_eq!((state.tick, state.max_ticks, state.finished), (3, 20, false));
    assert_eq!(state.nodes.len(), 5);
    assert_eq!((state.nodes[0].id, state.nodes[0].mode.as_str(), state.nodes[0].load), (1, "Normal", 43));
    assert_eq!(state.nodes[0].predicted_state, "");
    assert_eq!(state.nodes[0].confidence.to_bits(), 0);
    assert_eq!(state.edges.len(), 11);
    assert_eq!((state.edges[0].source, state.edges[0].target, state.edges[0].virtual_link), (1, 2, false));
    // (43 + 4 * 40) / 5 = 40.6
    assert_eq!(state.network_avg_load, 41);
    assert_eq!(f32::from_bits(state.network_utilization.to_bits()), 200.0f32 / (5.0 * 95.0));
    assert!(!state.network_starving);
    assert!(viewer.show(&net).logs.is_empty());
    assert_eq!(build_visual_state(&net, 0).logs.len(), net.recent_lifecycle.len());
}

#[test]
fn lines_of_the_log_are_written_out() {
    let mut net = network();
    let mut log = NetworkLogger::open("a".to_string(), "b".to_string(), "c".to_string(), 1);
    net.nodes[2].state.mode = Mode::Reconnecting;
    for _ in 0..2 {
        net.tick(&mut log, 0).unwrap();
        let askings = net.tick_votes(&mut log, &vec![], 0);
        let answers = askings.iter().map(|_| Err("none".to_string())).collect();
        net.tick_decisions(&mut log, &askings, answers, 0);
    }
    let logs = build_visual_state(&net, 1).logs;
    assert_eq!(logs, vec!["[T2] Node 3: DoNothing -> true (Waiting for neighbor acks)".to_string()]);
    let mut viewer = Viewer::new();
    let mut control = SimControl::new(false);
    viewer.last_sent_tick = 9;
    assert!(viewer.heed(Command::Run, &mut control).is_none());
    assert!(control.is_running());
    assert!(viewer.heed(Command::Stop, &mut control).is_none());
    assert!(!control.is_running());
    assert_eq!(viewer.last_sent_tick, 9);
    assert!(viewer.heed(Command::Restart, &mut control).is_none());
    assert_eq!(viewer.last_sent_tick, 0);
    assert!(control.is_running());
    assert!(control.take_restart());
    assert!(!control.take_restart());
    assert!(viewer.heed(read_command("scenario:ddos:All"), &mut control).is_some());
    assert!(viewer.heed(Command::Other, &mut control).is_none());
}

#[test]
fn rounds_follow_the_switches() {
    let mut c = SimControl::new(false);
    assert_eq!(c.next_round(false), Round { restart: false, tick: false });
    c.run();
    assert_eq!(c.next_round(false), Round { restart: false, tick: true });
    assert_eq!(c.next_round(true), Round { restart: false, tick: false });
    c.restart();
    assert_eq!(c.next_round(true), Round { restart: true, tick: true });
    c.stop();
    assert_eq!(c.next_round(false), Round { restart: false, tick: false });
}

#[test]
fn changes_are_told_apart() {
    let a = StateSnapshot { mode: "Normal".to_string(), load: 40, active_connections: 5, failed_auth_count: 0 };
    let b = StateSnapshot { mode: "Boosted".to_string(), load: 40, active_connections: 6, failed_auth_count: 0 };
    let d = StateChange::diff(&a, &b);
    assert_eq!(d.mode, Some(("Normal".to_string(), "Boosted".to_string())));
    assert_eq!((d.load, d.active_connections, d.failed_auth_count), (None, Some((5, 6)), None));
    assert!(!d.is_empty());
    assert!(StateChange::diff(&a, &a).is_empty());
    assert!(StateChange::default().is_empty());
}

#[test]
fn the_last_logged_tick_is_found() {
    let log = NetworkLogger::open("a".to_string(), "b".to_string(), "c".to_string(), 1);
    let broken = || Err(LoadError::Io("gone".to_string()));
    assert_eq!(log.last_tick(Ok(Some(3)), Ok(Some(9)), broken()), Some(9));
    assert_eq!(log.last_tick(Ok(None), Ok(Some(2)), Ok(Some(1))), Some(2));
    assert_eq!(log.last_tick(broken(), Ok(None), broken()), None);
    assert_eq!(LoadError::Io("gone".to_string()).message(), "IO error: gone");
}

#[test]
fn texts_are_built() {
    let mut s = String::from("x");
    adaptive_network::text::push_decimal(&mut s, 0);
    adaptive_network::text::push_decimal(&mut s, 1203);
    adaptive_network::text::push_id_list(&mut s, &vec![1, 22]);
    adaptive_network::text::push_id_list(&mut s, &vec![]);
    adaptive_network::text::push_truth(&mut s, false);
    assert_eq!(s, "x01203[1, 22][]false");
    assert!(adaptive_network::text::is_text(&s, "x01203[1, 22][]false"));
    assert!(!adaptive_network::text::is_text(&s, "x"));
    assert_eq!(single(1.0).to_bits(), adaptive_network::single::ONE);
}

#[test]
fn ids_are_listed_in_ascending_order() {
    let m: std::collections::BTreeMap<u32, &str> = [(7, "g"), (2, "b"), (u32::MAX, "z"), (0, "a")].into_iter().collect();
    assert_eq!(adaptive_network::ids::ids_of(&m), vec![0, 2, 7, u32::MAX]);
}

#[test]
fn texts_are_trimmed_as_the_standard_library_trims_them() {
    for raw in ["", " ", "a", " a b\t", "\u{85}x\u{a0}", "\u{2003}\u{3000}", "\u{200b}x ", "\r\n{\"a\": 1}\n", "é \u{1680}"] {
        assert_eq!(adaptive_network::text::trim(raw), raw.trim());
        assert_eq!(record_text(raw), Some(raw.trim()).filter(|t| !t.is_empty()));
    }
    for c in (0..0x3100u32).filter_map(char::from_u32) {
        assert_eq!(adaptive_network::text::trim(&c.to_string()).is_empty(), c.is_whitespace(), "{:?}", c);
    }
}

#[test]
fn an_effect_lasts_as_long_as_it_is_asked_to() {
    for d in 0..5u64 {
        let mut net = network();
        net.apply_scenario(AttackScenario::brute_force(ScenarioTarget::Ids(vec![2, 4]), d));
        let mut effects = std::mem::take(&mut net.active_effects);
        let lasts = d.max(1);
        for k in 1..=6u64 {
            effects = ScenarioEngine::advance_active_effects(&mut net, effects);
            assert_eq!(effects.len(), if k < lasts { 1 } else { 0 });
            let strikes = if k < lasts { (k + 1).min(lasts) } else { 0 };
            assert_eq!(net.nodes[1].state.failed_auth_count as u64, 5 * strikes);
            assert_eq!(net.nodes[3].state.failed_auth_count as u64, 5 * strikes);
            assert_eq!(net.nodes[0].state.failed_auth_count, 0);
        }
    }
}

#[test]
fn a_whole_run_is_taken_back_in_spite_of_other_changes() {
    let mut net = network();
    net.nodes[1].state.last_sync_time = 100;
    net.apply_scenario(AttackScenario::ai_crash(ScenarioTarget::ById(2), 3));
    net.apply_scenario(AttackScenario::node_infection(ScenarioTarget::ById(2), 3));
    let mut effects = std::mem::take(&mut net.active_effects);
    for k in 0..3u64 {
        net.nodes[1].state.ai_state_reason = format!("found {}", k);
        net.nodes[1].state.last_sync_time = 200 + k;
        effects = ScenarioEngine::advance_active_effects(&mut net, effects);
    }
    assert!(effects.is_empty());
    // The first scenario was there first: the second ends at what that one had left.
    assert_eq!(net.nodes[1].state.ai_state_reason, "error");
    assert_eq!(net.nodes[1].state.last_sync_time, 100);
    assert_eq!(net.nodes[1].state.mode, Mode::Normal);
    assert!(!net.nodes[1].ai.is_overridden());
}

#[test]
fn effects_keep_their_order() {
    let mut net = network();
    net.apply_scenario(AttackScenario::brute_force(ScenarioTarget::ById(1), 3));
    net.apply_scenario(AttackScenario::brute_force(ScenarioTarget::ById(2), 1));
    net.apply_scenario(AttackScenario::ddos(ScenarioTarget::ById(3), 3));
    let effects = std::mem::take(&mut net.active_effects);
    let effects = ScenarioEngine::advance_active_effects(&mut net, effects);
    assert_eq!(effects.iter().map(|e| e.target_node_indices[0]).collect::<Vec<_>>(), vec![0, 2]);
}

#[test]
fn a_restart_is_taken_once_and_outlives_a_stop() {
    let mut c = SimControl::new(true);
    assert!(!c.take_restart());
    c.restart();
    c.restart();
    c.stop();
    assert!(!c.is_running());
    assert!(c.take_restart());
    assert!(!c.take_restart());
    assert!(!c.is_running());
}
