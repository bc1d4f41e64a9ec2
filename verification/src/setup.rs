//! Building a network by its settings.

use std::collections::{BTreeMap, HashMap, VecDeque};
use std::sync::Arc;

use vstd::prelude::*;

use crate::ai_module::AIModel;
use crate::config::Config;
use crate::executor::Executor;
use crate::network::topology_map::{Link, TopologyMap, TopologyView};
use crate::network::{links_of, Network, NetworkView};
use crate::node::{Mode, Node, NodeState, NodeView, StateView};
use crate::single::Single;
use crate::supervisor::Supervisor;

verus! {

broadcast use vstd::std_specs::hash::group_hash_axioms;

/// Another pointer to the same settings: `Arc::clone` of std, which copies the pointer and leaves
/// what it points to alone.
#[verifier::external_body]
fn share(cfg: &Arc<Config>) -> (shared: Arc<Config>)
    ensures
        *shared == **cfg,
{
    Arc::clone(cfg)
}

/// The settings behind a pointer.
pub open spec fn settings_of(cfg: Arc<Config>) -> Config {
    *cfg
}

/// A node that has not started yet.
pub open spec fn fresh_node(id: u32, cfg: Config) -> NodeView {
    let d = cfg.node_defaults;
    NodeView {
        id,
        state: StateView {
            load: d.load,
            temperature: d.temperature,
            active_connections: d.active_connections,
            failed_auth_count: d.failed_auth_count,
            last_sync_time: d.last_sync_time,
            pending_load_signal: None,
            load_hold_ticks_left: 0,
            ai_state_reason: "normal_operation"@,
            state_entered_tick: 1,
            last_threat_score: Single { bits: 0 },
            threat_score_history: seq![],
            mode: Mode::Normal,
        },
        ai: AIModel { overridden: false },
        config: cfg,
        neighbor_signals: map![],
        last_proposal: None,
        topology_map: TopologyView { snapshots: map![], last_updated: 0 },
        incoming_alerts: seq![],
        neighbor_ids: seq![],
        reconnect: None,
        neighbor_history: map![],
        pending_lifecycle: seq![],
        pending_ai_decisions: seq![],
        virtual_bridge_attempts: map![],
        pending_virtual_bridge_signals: seq![],
    }
}

/// The links that the settings list: from each node to each of its neighbours, nodes by their position
/// in the list.
pub open spec fn listed_links(cfg: Config, n: nat) -> Seq<Link>
    decreases n,
{
    if n == 0 {
        seq![]
    } else {
        let l = cfg.topology.links@[n - 1];
        listed_links(cfg, (n - 1) as nat) + l.neighbors@.map_values(
            |to: u32| Link { from: (l.id - 1) as usize, to: (to - 1) as usize, active: true, virtual_link: false },
        )
    }
}

/// The network that the settings describe, before its first tick.
pub open spec fn fresh_network(cfg: Config) -> NetworkView {
    NetworkView {
        nodes: Seq::new(cfg.topology.links@.len(), |i: int| fresh_node(cfg.topology.links@[i].id, cfg)),
        links: listed_links(cfg, cfg.topology.links@.len()),
        tick: 0,
        config: cfg,
        max_ticks: cfg.simulation.max_ticks,
        finished: false,
        active_effects: seq![],
        recent_lifecycle: seq![],
        partitioned_nodes: set![],
        recovered_at_tick: map![],
    }
}

/// A network built by settings that can be run is sound.
pub proof fn law_fresh_network_sound(cfg: Config)
    requires
        cfg.valid(),
        cfg.connected(),
    ensures
        fresh_network(cfg).sound(),
{
    lemma_listed_links_within(cfg, cfg.topology.links@.len());
    assert forall|i: int| 0 <= i < fresh_network(cfg).nodes.len() implies (#[trigger] fresh_network(cfg).nodes[i]).id
        >= 1 by {
        assert(cfg.listed(cfg.topology.links@[i].id));
    }
}

/// A network starts with one node for each entry of the settings, under its id, at work with the usual numbers and with
/// nothing heard, proposed or logged yet; before its first tick, with nobody cut off and no scenario at work.
pub proof fn law_network_starts_afresh(cfg: Config, i: int)
    requires
        0 <= i < cfg.topology.links@.len(),
    ensures
        ({
            let net = fresh_network(cfg);
            let node = net.nodes[i];
            &&& net.nodes.len() == cfg.topology.links@.len()
            &&& net.tick == 0
            &&& !net.finished
            &&& net.max_ticks == cfg.simulation.max_ticks
            &&& net.active_effects.len() == 0
            &&& net.recent_lifecycle.len() == 0
            &&& net.partitioned_nodes == Set::<u32>::empty()
            &&& net.recovered_at_tick == Map::<u32, u64>::empty()
            &&& node.id == cfg.topology.links@[i].id
            &&& node.config == cfg
            &&& node.state.mode == Mode::Normal
            &&& node.state.load == cfg.node_defaults.load
            &&& node.state.temperature == cfg.node_defaults.temperature
            &&& node.state.active_connections == cfg.node_defaults.active_connections
            &&& node.state.failed_auth_count == cfg.node_defaults.failed_auth_count
            &&& node.state.last_sync_time == cfg.node_defaults.last_sync_time
            &&& node.state.ai_state_reason == "normal_operation"@
            &&& node.state.pending_load_signal is None
            &&& node.state.load_hold_ticks_left == 0
            &&& node.state.last_threat_score == (Single { bits: 0 })
            &&& node.state.threat_score_history.len() == 0
            &&& !node.ai.overridden
            &&& node.reconnect is None
            &&& node.last_proposal is None
            &&& node.neighbor_ids.len() == 0
            &&& node.pending_lifecycle.len() == 0
            &&& node.pending_ai_decisions.len() == 0
            &&& forall|id: u32| !(#[trigger] node.neighbor_signals.contains_key(id))
            &&& forall|id: u32| !(#[trigger] node.neighbor_history.contains_key(id))
            &&& forall|id: u32| !(#[trigger] node.topology_map.snapshots.contains_key(id))
        }),
{
}

/// The entry of the settings lists the link.
pub open spec fn lists_link(cfg: Config, i: int, l: Link) -> bool {
    exists|k: int|
        0 <= k < cfg.topology.links@[i].neighbors@.len() && l.from == cfg.topology.links@[i].id - 1 && l.to == (
        #[trigger] cfg.topology.links@[i].neighbors@[k]) - 1
}

/// A network starts with exactly the links that the settings list, from each node to each of its neighbours, all of them
/// active and physical.
pub proof fn law_links_as_listed(cfg: Config, l: Link)
    requires
        cfg.counted(),
    ensures
        fresh_network(cfg).links.contains(l) <==> l.active && !l.virtual_link && exists|i: int|
            0 <= i < cfg.topology.links@.len() && #[trigger] lists_link(cfg, i, l),
{
    lemma_listed(cfg, cfg.topology.links@.len(), l);
}

proof fn lemma_listed(cfg: Config, n: nat, l: Link)
    requires
        cfg.counted(),
        n <= cfg.topology.links@.len(),
    ensures
        listed_links(cfg, n).contains(l) <==> l.active && !l.virtual_link && exists|i: int|
            0 <= i < n && #[trigger] lists_link(cfg, i, l),
    decreases n,
{
    if n > 0 {
        let m = (n - 1) as nat;
        lemma_listed(cfg, m, l);
        let entry = cfg.topology.links@[n - 1];
        let past = listed_links(cfg, m);
        let all = listed_links(cfg, n);
        let more = entry.neighbors@.map_values(
            |to: u32| Link { from: (entry.id - 1) as usize, to: (to - 1) as usize, active: true, virtual_link: false },
        );
        assert(all == past + more);
        assert(cfg.topology.links@[n - 1].id >= 1);
        if all.contains(l) {
            let k = all.index_of(l);
            if k < past.len() {
                assert(past[k] == l);
            } else {
                assert(more[k - past.len()] == l);
                assert(cfg.topology.links@[n - 1].neighbors@[k - past.len()] >= 1);
                assert(lists_link(cfg, n - 1, l));
            }
        }
        if past.contains(l) {
            assert(all[past.index_of(l)] == l);
        }
        if l.active && !l.virtual_link && lists_link(cfg, n - 1, l) {
            let k = choose|k: int|
                0 <= k < cfg.topology.links@[n - 1].neighbors@.len() && l.from == cfg.topology.links@[n - 1].id - 1 && l.to
                    == (#[trigger] cfg.topology.links@[n - 1].neighbors@[k]) - 1;
            assert(cfg.topology.links@[n - 1].neighbors@[k] >= 1);
            assert(more[k] == l);
            assert(all[past.len() + k] == l);
        }
    }
}

proof fn lemma_listed_links_within(cfg: Config, n: nat)
    requires
        cfg.connected(),
        n <= cfg.topology.links@.len(),
    ensures
        forall|i: int|
            0 <= i < listed_links(cfg, n).len() ==> (#[trigger] listed_links(cfg, n)[i]).from
                < cfg.topology.links@.len() && listed_links(cfg, n)[i].to < cfg.topology.links@.len(),
    decreases n,
{
    if n > 0 {
        lemma_listed_links_within(cfg, (n - 1) as nat);
        let before = listed_links(cfg, (n - 1) as nat);
        let after = listed_links(cfg, n);
        let l = cfg.topology.links@[n - 1];
        assert forall|i: int| 0 <= i < after.len() implies (#[trigger] after[i]).from < cfg.topology.links@.len()
            && after[i].to < cfg.topology.links@.len() by {
            if i < before.len() {
                assert(after[i] == before[i]);
            } else {
                assert(cfg.listed(l.id));
                assert(cfg.listed(cfg.topology.links@[n - 1].neighbors@[i - before.len()]));
            }
        }
    }
}

/// A node that has not started yet.
pub fn create_node(id: u32, cfg: Arc<Config>) -> (n: Node)
    ensures
        n@ == fresh_node(id, *cfg),
{
    let n = Node {
        id,
        state: NodeState {
            load: cfg.node_defaults.load,
            temperature: cfg.node_defaults.temperature,
            active_connections: cfg.node_defaults.active_connections,
            failed_auth_count: cfg.node_defaults.failed_auth_count,
            last_sync_time: cfg.node_defaults.last_sync_time,
            pending_load_signal: None,
            load_hold_ticks_left: 0,
            ai_state_reason: "normal_operation".to_string(),
            state_entered_tick: 1,
            last_threat_score: Single { bits: 0 },
            threat_score_history: VecDeque::new(),
            mode: Mode::Normal,
        },
        ai: AIModel::new(),
        supervisor: Supervisor,
        executor: Executor,
        config: cfg,
        neighbor_signals: BTreeMap::new(),
        last_proposal: None,
        topology_map: TopologyMap::new(),
        incoming_alerts: Vec::new(),
        neighbor_ids: Vec::new(),
        reconnect: None,
        neighbor_history: HashMap::new(),
        pending_lifecycle: Vec::new(),
        pending_ai_decisions: Vec::new(),
        virtual_bridge_attempts: HashMap::new(),
        pending_virtual_bridge_signals: Vec::new(),
    };
    proof {
        let f = fresh_node(id, n@.config);
        assert(n@.neighbor_signals =~= f.neighbor_signals);
        assert(n@.topology_map =~= f.topology_map);
        assert(n@.neighbor_history =~= f.neighbor_history);
        assert(n@.pending_lifecycle =~= f.pending_lifecycle);
        assert(n@.pending_ai_decisions =~= f.pending_ai_decisions);
        assert(n@.virtual_bridge_attempts =~= f.virtual_bridge_attempts);
        assert(n@.pending_virtual_bridge_signals =~= f.pending_virtual_bridge_signals);
        assert(n@ =~= f);
    }
    n
}

/// Builds the network that the settings describe.
pub fn build_network(cfg: Arc<Config>) -> (network: Network)
    requires
        cfg.counted(),
    ensures
        network@ == fresh_network(*cfg),
        cfg.valid() && cfg.connected() ==> network@.sound(),
{
    let ghost settings = settings_of(cfg);
    let mut nodes: Vec<Node> = Vec::new();
    let mut topology: Vec<(u32, Vec<u32>)> = Vec::new();
    let n: usize = cfg.topology.links.len();
    let mut i: usize = 0;
    while i < n
        invariant
            i <= n,
            settings == *cfg,
            settings.counted(),
            n == settings.topology.links@.len(),
            nodes@.len() == i,
            topology@.len() == i,
            forall|k: int|
                0 <= k < i ==> (#[trigger] nodes@[k])@ == fresh_node(settings.topology.links@[k].id, settings),
            forall|k: int|
                0 <= k < i ==> (#[trigger] topology@[k]).0 == settings.topology.links@[k].id && topology@[k].1@
                    == settings.topology.links@[k].neighbors@,
        decreases n - i,
    {
        let link = &cfg.topology.links[i];
        nodes.push(create_node(link.id, share(&cfg)));
        let neighbors = link.neighbors.clone();
        assert(neighbors@ =~= link.neighbors@);
        topology.push((link.id, neighbors));
        i = i + 1;
    }
    proof {
        assert forall|i: int| 0 <= i < topology@.len() implies (#[trigger] topology@[i]).0 >= 1 && forall|k: int|
            0 <= k < topology@[i].1@.len() ==> (#[trigger] topology@[i].1@[k]) >= 1 by {
            assert(settings.topology.links@[i].id >= 1);
            assert forall|k: int| 0 <= k < topology@[i].1@.len() implies (#[trigger] topology@[i].1@[k]) >= 1 by {
                assert(settings.topology.links@[i].neighbors@[k] >= 1);
            }
        }
        lemma_same_links(settings, topology@, n as nat);
        if settings.valid() && settings.connected() {
            law_fresh_network_sound(settings);
        }
    }
    let links = Network::build_links(&topology);
    let max_ticks: u64 = cfg.simulation.max_ticks;
    let network = Network::new(nodes, links, 0, cfg, max_ticks, false);
    assert(network@.nodes =~= fresh_network(settings).nodes);
    network
}

proof fn lemma_same_links(cfg: Config, topology: Seq<(u32, Vec<u32>)>, n: nat)
    requires
        n <= topology.len(),
        topology.len() == cfg.topology.links@.len(),
        forall|k: int|
            0 <= k < topology.len() ==> (#[trigger] topology[k]).0 == cfg.topology.links@[k].id && topology[k].1@
                == cfg.topology.links@[k].neighbors@,
    ensures
        links_of(topology, n) == listed_links(cfg, n),
    decreases n,
{
    if n > 0 {
        lemma_same_links(cfg, topology, (n - 1) as nat);
        let l = cfg.topology.links@[n - 1];
        let (from, neighbors) = topology[n - 1];
        assert(from == l.id);
        assert(neighbors@ == l.neighbors@);
        assert(links_of(topology, n) =~= listed_links(cfg, n));
    }
}

} // verus!
