//! The settings of a simulation.

use vstd::prelude::*;

use crate::single::Single;

verus! {

#[derive(Debug, Clone)]
pub struct Config {
    pub simulation: SimulationConfig,
    pub topology: TopologyConfig,
    pub node_defaults: NodeDefaultsConfig,
    pub security: SecurityConfig,
    pub load_calibration: LoadCalibrationConfig,
    pub ai: AiConfig,
    pub persistence: PersistenceConfig,
}

#[derive(Debug, Clone)]
pub struct SimulationConfig {
    pub max_ticks: u64,
    pub tick_interval_ms: u64,
}

#[derive(Debug, Clone)]
pub struct TopologyConfig {
    pub links: Vec<NodeLink>,
}

#[derive(Debug, Clone)]
pub struct NodeLink {
    pub id: u32,
    pub neighbors: Vec<u32>,
}

#[derive(Debug, Clone)]
pub struct NodeDefaultsConfig {
    pub load: u8,
    pub temperature: i8,
    pub active_connections: u8,
    pub failed_auth_count: u8,
    pub last_sync_time: u64,
}

#[derive(Debug, Clone)]
pub struct SecurityConfig {
    pub threat_score_normal: Single,
    pub stale_ttl: u64,
    pub node_stale_ttl: u64,
    pub max_len_neighbor_signals: usize,
    pub max_count_signals_from_neighbor: usize,
    pub peer_suspicion_threshold: usize,
    pub threat_score_isolation: Single,
    pub max_failed_auth: u8,
    pub max_reconnect_attempts: u32,
    pub min_quarantine_ticks: u64,
}

#[derive(Debug, Clone)]
pub struct LoadCalibrationConfig {
    /// The share of the present load that one step down takes off, 0 to 1.
    pub reduce_factor: Single,
    /// The share of the present load that one step up adds.
    pub boost_factor: Single,
    /// The lowest load of a throttled node.
    pub reduce_floor: u8,
    /// The highest load of a boosted node.
    pub boost_ceiling: u8,
    /// How many ticks a node stays throttled or boosted before it is judged again.
    pub hold_ticks: u64,
    /// How far the connections follow the load, 0 to 1.
    pub conn_scale_factor: Single,
}

#[derive(Debug, Clone)]
pub struct AiConfig {
    pub self_model_path: String,
    pub neighbor_model_path: String,
    pub ticks_to_degraded: u64,
    pub ticks_to_normal: u64,
}

#[derive(Debug, Clone)]
pub struct PersistenceConfig {
    pub log_dir: String,
    pub flush_every_ticks: u64,
}

/// The neighbour lists of the built-in topology, by node.
pub open spec fn built_in_neighbors() -> Seq<Seq<u32>> {
    seq![
        seq![5u32, 2],
        seq![1u32, 3, 4, 5],
        seq![2u32, 4],
        seq![2u32, 3],
        seq![1u32, 2],
    ]
}

impl Config {
    /// A node may double its connections.
    pub open spec fn valid(&self) -> bool {
        2 * self.node_defaults.active_connections <= u8::MAX
    }
}

impl Config {
    /// The ids of the topology count from one.
    pub open spec fn counted(&self) -> bool {
        &&& forall|i: int| 0 <= i < self.topology.links@.len() ==> (#[trigger] self.topology.links@[i]).id >= 1
        &&& forall|i: int, k: int|
            #![trigger self.topology.links@[i].neighbors@[k]]
            0 <= i < self.topology.links@.len() && 0 <= k < self.topology.links@[i].neighbors@.len()
                ==> self.topology.links@[i].neighbors@[k] >= 1
    }

    /// The topology can be run: ids count from one, and every neighbour is one of the nodes listed.
    pub open spec fn connected(&self) -> bool {
        &&& self.topology.links@.len() <= u32::MAX
        &&& forall|i: int| 0 <= i < self.topology.links@.len() ==> self.listed((#[trigger] self.topology.links@[i]).id)
        &&& forall|i: int, k: int|
            #![trigger self.topology.links@[i].neighbors@[k]]
            0 <= i < self.topology.links@.len() && 0 <= k < self.topology.links@[i].neighbors@.len() ==> self.listed(
                self.topology.links@[i].neighbors@[k],
            )
    }

    pub open spec fn listed(&self, id: u32) -> bool {
        1 <= id <= self.topology.links@.len()
    }

    /// Whether a network can be built and run by the settings.
    pub fn is_runnable(&self) -> (b: bool)
        ensures
            b == (self.valid() && self.connected()),
            b ==> self.counted(),
    {
        if self.node_defaults.active_connections as u32 * 2 > 255 {
            return false;
        }
        let links = &self.topology.links;
        let n: usize = links.len();
        if n as u64 > 0xffff_ffff {
            return false;
        }
        let mut i: usize = 0;
        while i < n
            invariant
                i <= n,
                n == links@.len() <= u32::MAX,
                links@ == self.topology.links@,
                forall|a: int| 0 <= a < i ==> self.listed((#[trigger] self.topology.links@[a]).id),
                forall|a: int, b: int|
                    #![trigger self.topology.links@[a].neighbors@[b]]
                    0 <= a < i && 0 <= b < self.topology.links@[a].neighbors@.len() ==> self.listed(
                        self.topology.links@[a].neighbors@[b],
                    ),
            decreases n - i,
        {
            let id: u32 = links[i].id;
            if id < 1 || id as u64 > n as u64 {
                assert(!self.listed(self.topology.links@[i as int].id));
                return false;
            }
            let neighbors = &links[i].neighbors;
            let mut k: usize = 0;
            while k < neighbors.len()
                invariant
                    i < n,
                    k <= neighbors@.len(),
                    n == links@.len() <= u32::MAX,
                    links@ == self.topology.links@,
                    neighbors@ == self.topology.links@[i as int].neighbors@,
                    forall|b: int|
                        0 <= b < k ==> self.listed(#[trigger] self.topology.links@[i as int].neighbors@[b]),
                decreases neighbors@.len() - k,
            {
                let to: u32 = neighbors[k];
                if to < 1 || to as u64 > n as u64 {
                    assert(!self.listed(self.topology.links@[i as int].neighbors@[k as int]));
                    return false;
                }
                k = k + 1;
            }
            i = i + 1;
        }
        true
    }
}

impl Default for Config {
    /// The built-in settings.
    fn default() -> (c: Self)
        ensures
            c.valid(),
            c.connected(),
            c.counted(),
            c.simulation == (SimulationConfig { max_ticks: 20, tick_interval_ms: 1000 }),
            c.topology.links@.len() == 5,
            forall|i: int|
                0 <= i < 5 ==> (#[trigger] c.topology.links@[i]).id == i + 1
                    && c.topology.links@[i].neighbors@ == built_in_neighbors()[i],
            c.node_defaults == (NodeDefaultsConfig {
                load: 40,
                temperature: 30,
                active_connections: 5,
                failed_auth_count: 0,
                last_sync_time: 0,
            }),
            // 0.4 and 0.7
            c.security == (SecurityConfig {
                threat_score_normal: Single { bits: 0x3ecc_cccd },
                stale_ttl: 5,
                node_stale_ttl: 5,
                max_len_neighbor_signals: 10,
                max_count_signals_from_neighbor: 2,
                peer_suspicion_threshold: 2,
                threat_score_isolation: Single { bits: 0x3f33_3333 },
                max_failed_auth: 5,
                max_reconnect_attempts: 5,
                min_quarantine_ticks: 4,
            }),
            // 0.2, 0.15 and 0.6
            c.load_calibration == (LoadCalibrationConfig {
                reduce_factor: Single { bits: 0x3e4c_cccd },
                boost_factor: Single { bits: 0x3e19_999a },
                reduce_floor: 20,
                boost_ceiling: 95,
                hold_ticks: 3,
                conn_scale_factor: Single { bits: 0x3f19_999a },
            }),
            c.ai.self_model_path@ == "ai_model/self_model.py"@,
            c.ai.neighbor_model_path@ == "ai_model/neighbor_model.py"@,
            c.ai.ticks_to_degraded == 5,
            c.ai.ticks_to_normal == 5,
            c.persistence.log_dir@ == "logs"@,
            c.persistence.flush_every_ticks == 1,
    {
        let c = Config {
            simulation: SimulationConfig { max_ticks: 20, tick_interval_ms: 1000 },
            topology: TopologyConfig {
                links: vec![
                    NodeLink { id: 1, neighbors: vec![5, 2] },
                    NodeLink { id: 2, neighbors: vec![1, 3, 4, 5] },
                    NodeLink { id: 3, neighbors: vec![2, 4] },
                    NodeLink { id: 4, neighbors: vec![2, 3] },
                    NodeLink { id: 5, neighbors: vec![1, 2] },
                ],
            },
            node_defaults: NodeDefaultsConfig {
                load: 40,
                temperature: 30,
                active_connections: 5,
                failed_auth_count: 0,
                last_sync_time: 0,
            },
            security: SecurityConfig {
                threat_score_normal: Single { bits: 0x3ecc_cccd },
                stale_ttl: 5,
                node_stale_ttl: 5,
                max_len_neighbor_signals: 10,
                max_count_signals_from_neighbor: 2,
                peer_suspicion_threshold: 2,
                threat_score_isolation: Single { bits: 0x3f33_3333 },
                max_failed_auth: 5,
                max_reconnect_attempts: 5,
                min_quarantine_ticks: 4,
            },
            load_calibration: LoadCalibrationConfig {
                reduce_factor: Single { bits: 0x3e4c_cccd },
                boost_factor: Single { bits: 0x3e19_999a },
                reduce_floor: 20,
                boost_ceiling: 95,
                hold_ticks: 3,
                conn_scale_factor: Single { bits: 0x3f19_999a },
            },
            ai: AiConfig {
                self_model_path: "ai_model/self_model.py".to_string(),
                neighbor_model_path: "ai_model/neighbor_model.py".to_string(),
                ticks_to_degraded: 5,
                ticks_to_normal: 5,
            },
            persistence: PersistenceConfig { log_dir: "logs".to_string(), flush_every_ticks: 1 },
        };
        proof {
            let links = c.topology.links@;
            assert(links[0].neighbors@ =~= built_in_neighbors()[0]);
            assert(links[1].neighbors@ =~= built_in_neighbors()[1]);
            assert(links[2].neighbors@ =~= built_in_neighbors()[2]);
            assert(links[3].neighbors@ =~= built_in_neighbors()[3]);
            assert(links[4].neighbors@ =~= built_in_neighbors()[4]);
        }
        c
    }
}

} // verus!
