//! A node: what it holds and what it does in a tick.

use std::collections::{BTreeMap, HashMap, HashSet, VecDeque};
use std::sync::Arc;

use vstd::prelude::*;

use crate::ai_module::AIModel;
use crate::config::Config;
use crate::executor::Executor;
use crate::network::topology_map::{TopologyMap, TopologyView};
use crate::persistence::{AiDecisionEntry, AiDecisionView, LifecycleEntry, LifecycleView};
use crate::proposal::{Proposal, ProposalView};
use crate::single::Single;
use crate::supervisor::Supervisor;

pub mod ai_processes;
pub mod balance;
pub mod bridges;
pub mod course;
pub mod decisions;
pub mod heuristics;
pub mod laws;
pub mod reconnect;
pub mod signals;
pub mod tick;
pub mod topology;

verus! {

broadcast use vstd::std_specs::hash::group_hash_axioms;

/// An attempt at a direct link with a node that was reached through a third one.
#[derive(Debug, Clone, Copy, PartialEq, Eq, Structural)]
pub struct VirtualBridgeAttempt {
    pub bridge_to: u32,
    /// The node between that has gone silent.
    pub via_fallen_node: u32,
    pub started_at_tick: u64,
    pub attempts: u32,
    pub initiated_by_us: bool,
}

/// What the supervisor made of a proposal.
#[derive(Debug)]
pub struct DecisionRecord {
    pub tick: u64,
    pub proposal: Proposal,
    pub allowed: bool,
    pub reason: String,
}

#[verifier::ext_equal]
pub struct DecisionView {
    pub tick: u64,
    pub proposal: ProposalView,
    pub allowed: bool,
    pub reason: Seq<char>,
}

impl View for DecisionRecord {
    type V = DecisionView;

    open spec fn view(&self) -> DecisionView {
        DecisionView {
            tick: self.tick,
            proposal: self.proposal@,
            allowed: self.allowed,
            reason: self.reason@,
        }
    }
}

#[derive(Debug, Clone, Copy, PartialEq, Eq, Structural)]
pub enum SignalType {
    Normal,
    Alert,
    Isolation,
    /// The sender has lowered its load.
    LoadReduced,
    /// The receiver should lower its load.
    ReduceLoad,
    /// The sender has raised its load.
    LoadBoosted,
    /// The receiver should raise its load.
    BoostLoad,
    PeerSuspicion,
    ReconnectRequest,
    ReconnectAck,
    VirtualBridgeRequest,
    VirtualBridgeAck,
    VirtualBridgeReject,
}

impl SignalType {
    /// The name of the type.
    pub open spec fn text(self) -> Seq<char> {
        match self {
            SignalType::Normal => "Normal"@,
            SignalType::Alert => "Alert"@,
            SignalType::Isolation => "Isolation"@,
            SignalType::LoadReduced => "LoadReduced"@,
            SignalType::ReduceLoad => "ReduceLoad"@,
            SignalType::LoadBoosted => "LoadBoosted"@,
            SignalType::BoostLoad => "BoostLoad"@,
            SignalType::PeerSuspicion => "PeerSuspicion"@,
            SignalType::ReconnectRequest => "ReconnectRequest"@,
            SignalType::ReconnectAck => "ReconnectAck"@,
            SignalType::VirtualBridgeRequest => "VirtualBridgeRequest"@,
            SignalType::VirtualBridgeAck => "VirtualBridgeAck"@,
            SignalType::VirtualBridgeReject => "VirtualBridgeReject"@,
        }
    }

    pub fn name(self) -> (s: String)
        ensures
            s@ == self.text(),
    {
        match self {
            SignalType::Normal => "Normal".to_string(),
            SignalType::Alert => "Alert".to_string(),
            SignalType::Isolation => "Isolation".to_string(),
            SignalType::LoadReduced => "LoadReduced".to_string(),
            SignalType::ReduceLoad => "ReduceLoad".to_string(),
            SignalType::LoadBoosted => "LoadBoosted".to_string(),
            SignalType::BoostLoad => "BoostLoad".to_string(),
            SignalType::PeerSuspicion => "PeerSuspicion".to_string(),
            SignalType::ReconnectRequest => "ReconnectRequest".to_string(),
            SignalType::ReconnectAck => "ReconnectAck".to_string(),
            SignalType::VirtualBridgeRequest => "VirtualBridgeRequest".to_string(),
            SignalType::VirtualBridgeAck => "VirtualBridgeAck".to_string(),
            SignalType::VirtualBridgeReject => "VirtualBridgeReject".to_string(),
        }
    }
}

#[derive(Debug, Clone, Copy, PartialEq, Eq, Structural)]
pub enum Mode {
    Normal,
    /// Runs at a lowered load.
    Throttled,
    /// Runs at a raised load.
    Boosted,
    /// Runs without its prediction model.
    Degraded,
    /// Cut off from the network.
    Isolated,
    /// Asks its neighbours to be let in again.
    Reconnecting,
}

impl Mode {
    /// The name of the mode.
    pub open spec fn text(self) -> Seq<char> {
        match self {
            Mode::Normal => "Normal"@,
            Mode::Throttled => "Throttled"@,
            Mode::Boosted => "Boosted"@,
            Mode::Degraded => "Degraded"@,
            Mode::Isolated => "Isolated"@,
            Mode::Reconnecting => "Reconnecting"@,
        }
    }

    pub fn name(self) -> (s: String)
        ensures
            s@ == self.text(),
    {
        match self {
            Mode::Normal => "Normal".to_string(),
            Mode::Throttled => "Throttled".to_string(),
            Mode::Boosted => "Boosted".to_string(),
            Mode::Degraded => "Degraded".to_string(),
            Mode::Isolated => "Isolated".to_string(),
            Mode::Reconnecting => "Reconnecting".to_string(),
        }
    }
}

/// What one node tells another, or all of its neighbours.
#[derive(Debug)]
pub struct NodeSignal {
    pub source_id: u32,
    /// `None` where the signal is for every neighbour.
    pub target_id: Option<u32>,
    pub mode: Mode,
    pub load: u8,
    pub active_connections: u8,
    pub failed_auth_count: u8,
    /// How much of a threat the sender takes itself for.
    pub threat_score: Single,
    pub ai_state_reason: String,
    pub signal_type: SignalType,
    pub timestamp: u64,
}

#[verifier::ext_equal]
pub struct SignalView {
    pub source_id: u32,
    pub target_id: Option<u32>,
    pub mode: Mode,
    pub load: u8,
    pub active_connections: u8,
    pub failed_auth_count: u8,
    pub threat_score: Single,
    pub ai_state_reason: Seq<char>,
    pub signal_type: SignalType,
    pub timestamp: u64,
}

impl View for NodeSignal {
    type V = SignalView;

    open spec fn view(&self) -> SignalView {
        SignalView {
            source_id: self.source_id,
            target_id: self.target_id,
            mode: self.mode,
            load: self.load,
            active_connections: self.active_connections,
            failed_auth_count: self.failed_auth_count,
            threat_score: self.threat_score,
            ai_state_reason: self.ai_state_reason@,
            signal_type: self.signal_type,
            timestamp: self.timestamp,
        }
    }
}

impl Clone for NodeSignal {
    fn clone(&self) -> (s: Self)
        ensures
            s == *self,
    {
        NodeSignal {
            source_id: self.source_id,
            target_id: self.target_id,
            mode: self.mode,
            load: self.load,
            active_connections: self.active_connections,
            failed_auth_count: self.failed_auth_count,
            threat_score: self.threat_score,
            ai_state_reason: self.ai_state_reason.clone(),
            signal_type: self.signal_type,
            timestamp: self.timestamp,
        }
    }
}

/// What a node remembers of a neighbour.
#[derive(Debug)]
pub struct NeighborHistory {
    pub last_signal: Option<NodeSignal>,
    pub mode_entered_tick: u64,
    /// When its last signals came.
    pub recent_timestamps: VecDeque<u64>,
    /// How often the node itself has suspected it.
    pub suspicion_votes_cast: u32,
    /// How often it was seen to become isolated.
    pub times_isolated: u32,
}

#[verifier::ext_equal]
pub struct HistoryView {
    pub last_signal: Option<SignalView>,
    pub mode_entered_tick: u64,
    pub recent_timestamps: Seq<u64>,
    pub suspicion_votes_cast: u32,
    pub times_isolated: u32,
}

impl View for NeighborHistory {
    type V = HistoryView;

    open spec fn view(&self) -> HistoryView {
        HistoryView {
            last_signal: match self.last_signal {
                Some(s) => Some(s@),
                None => None,
            },
            mode_entered_tick: self.mode_entered_tick,
            recent_timestamps: self.recent_timestamps@,
            suspicion_votes_cast: self.suspicion_votes_cast,
            times_isolated: self.times_isolated,
        }
    }
}

impl HistoryView {
    /// The history of a neighbour that was never heard of.
    pub open spec fn nothing() -> HistoryView {
        HistoryView {
            last_signal: None,
            mode_entered_tick: 0,
            recent_timestamps: seq![],
            suspicion_votes_cast: 0,
            times_isolated: 0,
        }
    }
}

impl Default for NeighborHistory {
    fn default() -> (h: Self)
        ensures
            h@ == HistoryView::nothing(),
    {
        NeighborHistory {
            last_signal: None,
            mode_entered_tick: 0,
            recent_timestamps: VecDeque::new(),
            suspicion_votes_cast: 0,
            times_isolated: 0,
        }
    }
}

/// How a node is doing.
#[derive(Debug)]
pub struct NodeState {
    pub load: u8,
    pub temperature: i8,
    pub active_connections: u8,
    pub failed_auth_count: u8,
    pub last_sync_time: u64,
    /// What the neighbours have still to be told.
    pub pending_load_signal: Option<SignalType>,
    pub load_hold_ticks_left: u64,
    pub ai_state_reason: String,
    pub state_entered_tick: u64,
    pub last_threat_score: Single,
    pub threat_score_history: VecDeque<Single>,
    pub mode: Mode,
}

#[verifier::ext_equal]
pub struct StateView {
    pub load: u8,
    pub temperature: i8,
    pub active_connections: u8,
    pub failed_auth_count: u8,
    pub last_sync_time: u64,
    pub pending_load_signal: Option<SignalType>,
    pub load_hold_ticks_left: u64,
    pub ai_state_reason: Seq<char>,
    pub state_entered_tick: u64,
    pub last_threat_score: Single,
    pub threat_score_history: Seq<Single>,
    pub mode: Mode,
}

impl View for NodeState {
    type V = StateView;

    open spec fn view(&self) -> StateView {
        StateView {
            load: self.load,
            temperature: self.temperature,
            active_connections: self.active_connections,
            failed_auth_count: self.failed_auth_count,
            last_sync_time: self.last_sync_time,
            pending_load_signal: self.pending_load_signal,
            load_hold_ticks_left: self.load_hold_ticks_left,
            ai_state_reason: self.ai_state_reason@,
            state_entered_tick: self.state_entered_tick,
            last_threat_score: self.last_threat_score,
            threat_score_history: self.threat_score_history@,
            mode: self.mode,
        }
    }
}

/// How far a node has come on its way back into the network.
#[derive(Debug)]
pub struct ReconnectState {
    pub started_at_tick: u64,
    pub confirmed_by: HashSet<u32>,
    pub attempts: u32,
}

#[verifier::ext_equal]
pub struct ReconnectView {
    pub started_at_tick: u64,
    pub confirmed_by: Set<u32>,
    pub attempts: u32,
}

impl View for ReconnectState {
    type V = ReconnectView;

    open spec fn view(&self) -> ReconnectView {
        ReconnectView {
            started_at_tick: self.started_at_tick,
            confirmed_by: self.confirmed_by@,
            attempts: self.attempts,
        }
    }
}

pub struct Node {
    pub id: u32,
    pub state: NodeState,
    pub ai: AIModel,
    pub supervisor: Supervisor,
    pub executor: Executor,
    pub config: Arc<Config>,
    /// The last signals of each neighbour, oldest first.
    pub neighbor_signals: BTreeMap<u32, VecDeque<NodeSignal>>,
    pub last_proposal: Option<Proposal>,
    pub topology_map: TopologyMap,
    pub incoming_alerts: Vec<SignalType>,
    pub neighbor_ids: Vec<u32>,
    pub reconnect: Option<ReconnectState>,
    pub neighbor_history: HashMap<u32, NeighborHistory>,
    pub pending_lifecycle: Vec<LifecycleEntry>,
    pub pending_ai_decisions: Vec<AiDecisionEntry>,
    pub virtual_bridge_attempts: HashMap<u32, VirtualBridgeAttempt>,
    pub pending_virtual_bridge_signals: Vec<NodeSignal>,
}

#[verifier::ext_equal]
pub struct NodeView {
    pub id: u32,
    pub state: StateView,
    pub ai: AIModel,
    pub config: Config,
    pub neighbor_signals: Map<u32, Seq<SignalView>>,
    pub last_proposal: Option<ProposalView>,
    pub topology_map: TopologyView,
    pub incoming_alerts: Seq<SignalType>,
    pub neighbor_ids: Seq<u32>,
    pub reconnect: Option<ReconnectView>,
    pub neighbor_history: Map<u32, HistoryView>,
    pub pending_lifecycle: Seq<LifecycleView>,
    pub pending_ai_decisions: Seq<AiDecisionView>,
    pub virtual_bridge_attempts: Map<u32, VirtualBridgeAttempt>,
    pub pending_virtual_bridge_signals: Seq<SignalView>,
}

/// The values of a list of records.
pub open spec fn lifecycle_views(entries: Seq<LifecycleEntry>) -> Seq<LifecycleView> {
    entries.map_values(|e: LifecycleEntry| e@)
}

pub open spec fn ai_decision_views(entries: Seq<AiDecisionEntry>) -> Seq<AiDecisionView> {
    entries.map_values(|e: AiDecisionEntry| e@)
}

impl View for Node {
    type V = NodeView;

    open spec fn view(&self) -> NodeView {
        NodeView {
            id: self.id,
            state: self.state@,
            ai: self.ai,
            config: *self.config,
            neighbor_signals: signals::told(self.neighbor_signals@),
            last_proposal: match self.last_proposal {
                Some(p) => Some(p@),
                None => None,
            },
            topology_map: self.topology_map@,
            incoming_alerts: self.incoming_alerts@,
            neighbor_ids: self.neighbor_ids@,
            reconnect: match self.reconnect {
                Some(r) => Some(r@),
                None => None,
            },
            neighbor_history: self.neighbor_history@.map_values(|h: NeighborHistory| h@),
            pending_lifecycle: lifecycle_views(self.pending_lifecycle@),
            pending_ai_decisions: ai_decision_views(self.pending_ai_decisions@),
            virtual_bridge_attempts: self.virtual_bridge_attempts@,
            pending_virtual_bridge_signals: signals::signal_views(self.pending_virtual_bridge_signals@),
        }
    }
}

} // verus!
