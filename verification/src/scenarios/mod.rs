//! Attacks on the network, and taking them back.

use std::collections::HashMap;

use vstd::prelude::*;

use crate::node::{Mode, SignalType};

pub mod actions;
pub mod choice;
pub mod engine;
pub mod laws;
pub mod named;
pub mod targets;

verus! {

/// Whom a scenario strikes.
#[derive(Debug)]
pub enum ScenarioTarget {
    ById(u32),
    Random { count: usize },
    NeighborsOf(u32),
    Ids(Vec<u32>),
    All,
}

/// What a scenario does to a node.
#[allow(inconsistent_fields)]
#[derive(Debug)]
pub enum ScenarioAction {
    InflateLoad { delta: i8 },
    InflateConnections { delta: i8 },
    InflateFailedAuth { delta: u8 },
    ForceMode { mode: Mode },
    /// Moves the last sync into the past.
    AgeSync { seconds: u64 },
    /// Replaces the node's finding.
    TagAiState { label: String },
    EmitLoadSignal { signal: SignalType },
    /// Keeps the node's model from answering, or lets it answer again.
    OverrideAI { enabled: bool },
}

#[allow(inconsistent_fields)]
#[verifier::ext_equal]
pub enum ActionView {
    InflateLoad { delta: i8 },
    InflateConnections { delta: i8 },
    InflateFailedAuth { delta: u8 },
    ForceMode { mode: Mode },
    AgeSync { seconds: u64 },
    TagAiState { label: Seq<char> },
    EmitLoadSignal { signal: SignalType },
    OverrideAI { enabled: bool },
}

impl View for ScenarioAction {
    type V = ActionView;

    open spec fn view(&self) -> ActionView {
        match *self {
            ScenarioAction::InflateLoad { delta } => ActionView::InflateLoad { delta },
            ScenarioAction::InflateConnections { delta } => ActionView::InflateConnections { delta },
            ScenarioAction::InflateFailedAuth { delta } => ActionView::InflateFailedAuth { delta },
            ScenarioAction::ForceMode { mode } => ActionView::ForceMode { mode },
            ScenarioAction::AgeSync { seconds } => ActionView::AgeSync { seconds },
            ScenarioAction::TagAiState { label } => ActionView::TagAiState { label: label@ },
            ScenarioAction::EmitLoadSignal { signal } => ActionView::EmitLoadSignal { signal },
            ScenarioAction::OverrideAI { enabled } => ActionView::OverrideAI { enabled },
        }
    }
}

impl Clone for ScenarioAction {
    fn clone(&self) -> (a: Self)
        ensures
            a == *self,
    {
        match self {
            ScenarioAction::InflateLoad { delta } => ScenarioAction::InflateLoad { delta: *delta },
            ScenarioAction::InflateConnections { delta } => ScenarioAction::InflateConnections { delta: *delta },
            ScenarioAction::InflateFailedAuth { delta } => ScenarioAction::InflateFailedAuth { delta: *delta },
            ScenarioAction::ForceMode { mode } => ScenarioAction::ForceMode { mode: *mode },
            ScenarioAction::AgeSync { seconds } => ScenarioAction::AgeSync { seconds: *seconds },
            ScenarioAction::TagAiState { label } => ScenarioAction::TagAiState { label: label.clone() },
            ScenarioAction::EmitLoadSignal { signal } => ScenarioAction::EmitLoadSignal { signal: *signal },
            ScenarioAction::OverrideAI { enabled } => ScenarioAction::OverrideAI { enabled: *enabled },
        }
    }
}

/// What an action changed, so that it can be taken back.
#[allow(inconsistent_fields)]
#[derive(Debug)]
pub enum AppliedDelta {
    Load(i16),
    Connections(i32),
    FailedAuth(i16),
    Mode { before: Mode },
    Sync { before: u64 },
    AiState { before: String },
    AiOverride { before: bool },
    NoOp,
}

#[allow(inconsistent_fields)]
#[verifier::ext_equal]
pub enum DeltaView {
    Load(int),
    Connections(int),
    FailedAuth(int),
    Mode { before: Mode },
    Sync { before: u64 },
    AiState { before: Seq<char> },
    AiOverride { before: bool },
    NoOp,
}

impl View for AppliedDelta {
    type V = DeltaView;

    open spec fn view(&self) -> DeltaView {
        match *self {
            AppliedDelta::Load(d) => DeltaView::Load(d as int),
            AppliedDelta::Connections(d) => DeltaView::Connections(d as int),
            AppliedDelta::FailedAuth(d) => DeltaView::FailedAuth(d as int),
            AppliedDelta::Mode { before } => DeltaView::Mode { before },
            AppliedDelta::Sync { before } => DeltaView::Sync { before },
            AppliedDelta::AiState { before } => DeltaView::AiState { before: before@ },
            AppliedDelta::AiOverride { before } => DeltaView::AiOverride { before },
            AppliedDelta::NoOp => DeltaView::NoOp,
        }
    }
}

/// How long a scenario lasts.
#[derive(Debug, Clone, Copy, PartialEq, Eq, Structural)]
pub enum EffectKind {
    Instant,
    Sustained { duration_ticks: u64, revert_on_expire: bool },
}

#[derive(Debug)]
pub struct AttackScenario {
    pub name: String,
    pub target: ScenarioTarget,
    pub actions: Vec<ScenarioAction>,
    pub effect: EffectKind,
    pub cuts_links: bool,
}

#[verifier::ext_equal]
pub struct ScenarioView {
    pub name: Seq<char>,
    pub target: ScenarioTarget,
    pub actions: Seq<ActionView>,
    pub effect: EffectKind,
    pub cuts_links: bool,
}

pub open spec fn action_views(actions: Seq<ScenarioAction>) -> Seq<ActionView> {
    actions.map_values(|a: ScenarioAction| a@)
}

pub open spec fn delta_views(deltas: Seq<AppliedDelta>) -> Seq<DeltaView> {
    deltas.map_values(|d: AppliedDelta| d@)
}

impl View for AttackScenario {
    type V = ScenarioView;

    open spec fn view(&self) -> ScenarioView {
        ScenarioView {
            name: self.name@,
            target: self.target,
            actions: action_views(self.actions@),
            effect: self.effect,
            cuts_links: self.cuts_links,
        }
    }
}

/// A scenario at work.
pub struct ActiveEffect {
    pub scenario_name: String,
    pub target_node_indices: Vec<usize>,
    pub actions: Vec<ScenarioAction>,
    pub ticks_remaining: u64,
    pub revert_on_expire: bool,
    /// What was done to each node, by its position.
    pub accumulated: HashMap<usize, Vec<AppliedDelta>>,
    pub partitioned_ids: Vec<u32>,
}

#[verifier::ext_equal]
pub struct EffectView {
    pub scenario_name: Seq<char>,
    pub target_node_indices: Seq<usize>,
    pub actions: Seq<ActionView>,
    pub ticks_remaining: u64,
    pub revert_on_expire: bool,
    pub accumulated: Map<usize, Seq<DeltaView>>,
    pub partitioned_ids: Seq<u32>,
}

pub open spec fn accumulated_views(m: Map<usize, Vec<AppliedDelta>>) -> Map<usize, Seq<DeltaView>> {
    m.map_values(|v: Vec<AppliedDelta>| delta_views(v@))
}

impl View for ActiveEffect {
    type V = EffectView;

    open spec fn view(&self) -> EffectView {
        EffectView {
            scenario_name: self.scenario_name@,
            target_node_indices: self.target_node_indices@,
            actions: action_views(self.actions@),
            ticks_remaining: self.ticks_remaining,
            revert_on_expire: self.revert_on_expire,
            accumulated: accumulated_views(self.accumulated@),
            partitioned_ids: self.partitioned_ids@,
        }
    }
}

pub open spec fn effect_views(effects: Seq<ActiveEffect>) -> Seq<EffectView> {
    effects.map_values(|e: ActiveEffect| e@)
}

/// A scenario that lasts and is taken back.
pub open spec fn lasting_scenario(
    name: Seq<char>,
    target: ScenarioTarget,
    actions: Seq<ActionView>,
    duration_ticks: u64,
    cuts_links: bool,
) -> ScenarioView {
    ScenarioView {
        name,
        target,
        actions,
        effect: EffectKind::Sustained { duration_ticks, revert_on_expire: true },
        cuts_links,
    }
}

impl ScenarioView {
    pub open spec fn ddos(target: ScenarioTarget, duration_ticks: u64) -> ScenarioView {
        lasting_scenario(
            "ddos"@,
            target,
            seq![
                ActionView::InflateLoad { delta: 20 },
                ActionView::InflateConnections { delta: 40 },
                ActionView::TagAiState { label: "high_load_anomalous_activity"@ },
                ActionView::EmitLoadSignal { signal: SignalType::LoadReduced },
            ],
            duration_ticks,
            false,
        )
    }

    pub open spec fn underscale(target: ScenarioTarget, duration_ticks: u64) -> ScenarioView {
        lasting_scenario(
            "underscale"@,
            target,
            seq![
                ActionView::InflateLoad { delta: (-10) as i8 },
                ActionView::InflateConnections { delta: (-10) as i8 },
                ActionView::TagAiState { label: "load_below_normal"@ },
                ActionView::EmitLoadSignal { signal: SignalType::LoadBoosted },
            ],
            duration_ticks,
            false,
        )
    }

    pub open spec fn brute_force(target: ScenarioTarget, duration_ticks: u64) -> ScenarioView {
        lasting_scenario(
            "brute_force"@,
            target,
            seq![
                ActionView::InflateFailedAuth { delta: 5 },
                ActionView::TagAiState { label: "auth_bruteforce_detected"@ },
            ],
            duration_ticks,
            false,
        )
    }

    pub open spec fn ai_crash(target: ScenarioTarget, duration_ticks: u64) -> ScenarioView {
        lasting_scenario(
            "ai_crash"@,
            target,
            seq![
                ActionView::ForceMode { mode: Mode::Degraded },
                ActionView::OverrideAI { enabled: true },
                ActionView::TagAiState { label: "error"@ },
            ],
            duration_ticks,
            false,
        )
    }

    pub open spec fn node_infection(target: ScenarioTarget, duration_ticks: u64) -> ScenarioView {
        lasting_scenario(
            "node_infection"@,
            target,
            seq![
                ActionView::InflateLoad { delta: 10 },
                ActionView::InflateConnections { delta: 20 },
                ActionView::AgeSync { seconds: 60 },
                ActionView::TagAiState { label: "malware_detected"@ },
            ],
            duration_ticks,
            false,
        )
    }

    pub open spec fn network_partition(target: ScenarioTarget, duration_ticks: u64) -> ScenarioView {
        lasting_scenario(
            "network_partition"@,
            target,
            seq![
                ActionView::TagAiState { label: "network_partitioned"@ },
            ],
            duration_ticks,
            true,
        )
    }
}

impl AttackScenario {
    /// Floods nodes with requests.
    pub fn ddos(target: ScenarioTarget, duration_ticks: u64) -> (s: Self)
        ensures
            s@ == ScenarioView::ddos(target, duration_ticks),
    {
        let s = AttackScenario {
            name: "ddos".to_string(),
            target,
            actions: vec![
                ScenarioAction::InflateLoad { delta: 20 },
                ScenarioAction::InflateConnections { delta: 40 },
                ScenarioAction::TagAiState { label: "high_load_anomalous_activity".to_string() },
                ScenarioAction::EmitLoadSignal { signal: SignalType::LoadReduced },
            ],
            effect: EffectKind::Sustained { duration_ticks, revert_on_expire: true },
            cuts_links: false,
        };
        assert(s@.actions =~= ScenarioView::ddos(target, duration_ticks).actions);
        s
    }

    /// Starves nodes of work.
    pub fn underscale(target: ScenarioTarget, duration_ticks: u64) -> (s: Self)
        ensures
            s@ == ScenarioView::underscale(target, duration_ticks),
    {
        let s = AttackScenario {
            name: "underscale".to_string(),
            target,
            actions: vec![
                ScenarioAction::InflateLoad { delta: -10 },
                ScenarioAction::InflateConnections { delta: -10 },
                ScenarioAction::TagAiState { label: "load_below_normal".to_string() },
                ScenarioAction::EmitLoadSignal { signal: SignalType::LoadBoosted },
            ],
            effect: EffectKind::Sustained { duration_ticks, revert_on_expire: true },
            cuts_links: false,
        };
        assert(s@.actions =~= ScenarioView::underscale(target, duration_ticks).actions);
        s
    }

    /// Tries passwords on nodes.
    pub fn brute_force(target: ScenarioTarget, duration_ticks: u64) -> (s: Self)
        ensures
            s@ == ScenarioView::brute_force(target, duration_ticks),
    {
        let s = AttackScenario {
            name: "brute_force".to_string(),
            target,
            actions: vec![
                ScenarioAction::InflateFailedAuth { delta: 5 },
                ScenarioAction::TagAiState { label: "auth_bruteforce_detected".to_string() },
            ],
            effect: EffectKind::Sustained { duration_ticks, revert_on_expire: true },
            cuts_links: false,
        };
        assert(s@.actions =~= ScenarioView::brute_force(target, duration_ticks).actions);
        s
    }

    /// Takes nodes' models down.
    pub fn ai_crash(target: ScenarioTarget, duration_ticks: u64) -> (s: Self)
        ensures
            s@ == ScenarioView::ai_crash(target, duration_ticks),
    {
        let s = AttackScenario {
            name: "ai_crash".to_string(),
            target,
            actions: vec![
                ScenarioAction::ForceMode { mode: Mode::Degraded },
                ScenarioAction::OverrideAI { enabled: true },
                ScenarioAction::TagAiState { label: "error".to_string() },
            ],
            effect: EffectKind::Sustained { duration_ticks, revert_on_expire: true },
            cuts_links: false,
        };
        assert(s@.actions =~= ScenarioView::ai_crash(target, duration_ticks).actions);
        s
    }

    /// Infects nodes with malware.
    pub fn node_infection(target: ScenarioTarget, duration_ticks: u64) -> (s: Self)
        ensures
            s@ == ScenarioView::node_infection(target, duration_ticks),
    {
        let s = AttackScenario {
            name: "node_infection".to_string(),
            target,
            actions: vec![
                ScenarioAction::InflateLoad { delta: 10 },
                ScenarioAction::InflateConnections { delta: 20 },
                ScenarioAction::AgeSync { seconds: 60 },
                ScenarioAction::TagAiState { label: "malware_detected".to_string() },
            ],
            effect: EffectKind::Sustained { duration_ticks, revert_on_expire: true },
            cuts_links: false,
        };
        assert(s@.actions =~= ScenarioView::node_infection(target, duration_ticks).actions);
        s
    }

    /// Cuts nodes off from the others.
    pub fn network_partition(target: ScenarioTarget, duration_ticks: u64) -> (s: Self)
        ensures
            s@ == ScenarioView::network_partition(target, duration_ticks),
    {
        let s = AttackScenario {
            name: "network_partition".to_string(),
            target,
            actions: vec![
                ScenarioAction::TagAiState { label: "network_partitioned".to_string() },
            ],
            effect: EffectKind::Sustained { duration_ticks, revert_on_expire: true },
            cuts_links: true,
        };
        assert(s@.actions =~= ScenarioView::network_partition(target, duration_ticks).actions);
        s
    }
}

} // verus!
