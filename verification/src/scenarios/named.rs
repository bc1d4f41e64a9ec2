//! What each named scenario does to the nodes that it strikes.

use vstd::prelude::*;

use crate::ai_module::AIModel;
use crate::network::NetworkView;
use crate::node::{Mode, NodeView, SignalType, StateView};
use crate::scenarios::actions::{struck, struck_by, undone};
use crate::scenarios::engine::{attacked, lasting, struck_nodes};
use crate::scenarios::laws::law_start_strikes_once;
use crate::scenarios::{ActionView, DeltaView, EffectKind, ScenarioTarget, ScenarioView};

verus! {

/// The number, or the nearest one that a byte holds.
pub open spec fn within_byte(n: int) -> u8 {
    if n <= 0 {
        0
    } else if n >= 255 {
        255
    } else {
        n as u8
    }
}

/// The node is struck by the scenario, as one of its targets, in the way of `after`; the others are left alone.
pub open spec fn strikes_as(
    net: NetworkView,
    scenario: ScenarioView,
    targets: Seq<usize>,
    i: int,
    after: NodeView,
) -> bool {
    attacked(net, scenario, targets).nodes[i] == if targets.contains(i as usize) { after } else { net.nodes[i] }
}

/// The scenario lasts for the given ticks, is taken back at its end, and is for the given target.
pub open spec fn lasts(scenario: ScenarioView, name: Seq<char>, target: ScenarioTarget, duration_ticks: u64) -> bool {
    &&& scenario.name == name
    &&& scenario.target == target
    &&& scenario.effect == EffectKind::Sustained { duration_ticks, revert_on_expire: true }
}

/// The positions are those of different nodes.
pub open spec fn distinct(net: NetworkView, targets: Seq<usize>) -> bool {
    &&& net.nodes.len() <= u32::MAX
    &&& targets.no_duplicates()
    &&& forall|k: int| 0 <= k < targets.len() ==> (#[trigger] targets[k]) < net.nodes.len()
}

/// A flood of requests raises each target's load by 20 and its connections by 40, as far as a byte goes, gives it the
/// finding of anomalous activity and makes it tell its neighbours that it has lowered its load. It does nothing
/// else, and nobody is cut off.
pub proof fn law_ddos(net: NetworkView, target: ScenarioTarget, duration_ticks: u64, targets: Seq<usize>, i: int)
    requires
        distinct(net, targets),
        0 <= i < net.nodes.len(),
    ensures
        ({
            let scenario = ScenarioView::ddos(target, duration_ticks);
            let node = net.nodes[i];
            &&& lasts(scenario, "ddos"@, target, duration_ticks)
            &&& attacked(net, scenario, targets).partitioned_nodes == net.partitioned_nodes
            &&& strikes_as(
                net,
                scenario,
                targets,
                i,
                NodeView {
                    state: StateView {
                        load: within_byte(node.state.load + 20),
                        active_connections: within_byte(node.state.active_connections + 40),
                        ai_state_reason: "high_load_anomalous_activity"@,
                        pending_load_signal: Some(SignalType::LoadReduced),
                        ..node.state
                    },
                    ..node
                },
            )
        }),
{
    let scenario = ScenarioView::ddos(target, duration_ticks);
    law_start_strikes_once(net, scenario, targets, i);
    reveal_with_fuel(struck_by, 5);
    lemma_partition(net, scenario, targets, targets.len());
}

/// Starving nodes of work lowers each target's load and connections by 10, down to zero, gives it the finding of a
/// load below normal and makes it tell its neighbours that it has raised its load. It does nothing else, and
/// nobody is cut off.
pub proof fn law_underscale(net: NetworkView, target: ScenarioTarget, duration_ticks: u64, targets: Seq<usize>, i: int)
    requires
        distinct(net, targets),
        0 <= i < net.nodes.len(),
    ensures
        ({
            let scenario = ScenarioView::underscale(target, duration_ticks);
            let node = net.nodes[i];
            &&& lasts(scenario, "underscale"@, target, duration_ticks)
            &&& attacked(net, scenario, targets).partitioned_nodes == net.partitioned_nodes
            &&& strikes_as(
                net,
                scenario,
                targets,
                i,
                NodeView {
                    state: StateView {
                        load: within_byte(node.state.load - 10),
                        active_connections: within_byte(node.state.active_connections - 10),
                        ai_state_reason: "load_below_normal"@,
                        pending_load_signal: Some(SignalType::LoadBoosted),
                        ..node.state
                    },
                    ..node
                },
            )
        }),
{
    let scenario = ScenarioView::underscale(target, duration_ticks);
    law_start_strikes_once(net, scenario, targets, i);
    reveal_with_fuel(struck_by, 5);
    lemma_partition(net, scenario, targets, targets.len());
}

/// Trying passwords adds 5 failed logins to each target, as far as a byte goes, and gives it the finding of a brute
/// force attack. It does nothing else, and nobody is cut off.
pub proof fn law_brute_force(net: NetworkView, target: ScenarioTarget, duration_ticks: u64, targets: Seq<usize>, i: int)
    requires
        distinct(net, targets),
        0 <= i < net.nodes.len(),
    ensures
        ({
            let scenario = ScenarioView::brute_force(target, duration_ticks);
            let node = net.nodes[i];
            &&& lasts(scenario, "brute_force"@, target, duration_ticks)
            &&& attacked(net, scenario, targets).partitioned_nodes == net.partitioned_nodes
            &&& strikes_as(
                net,
                scenario,
                targets,
                i,
                NodeView {
                    state: StateView {
                        failed_auth_count: within_byte(node.state.failed_auth_count + 5),
                        ai_state_reason: "auth_bruteforce_detected"@,
                        ..node.state
                    },
                    ..node
                },
            )
        }),
{
    let scenario = ScenarioView::brute_force(target, duration_ticks);
    law_start_strikes_once(net, scenario, targets, i);
    reveal_with_fuel(struck_by, 5);
    lemma_partition(net, scenario, targets, targets.len());
}

/// Taking the models down makes each target degraded, keeps its model from answering and gives it the finding of an
/// error. It does nothing else, and nobody is cut off.
pub proof fn law_ai_crash(net: NetworkView, target: ScenarioTarget, duration_ticks: u64, targets: Seq<usize>, i: int)
    requires
        distinct(net, targets),
        0 <= i < net.nodes.len(),
    ensures
        ({
            let scenario = ScenarioView::ai_crash(target, duration_ticks);
            let node = net.nodes[i];
            &&& lasts(scenario, "ai_crash"@, target, duration_ticks)
            &&& attacked(net, scenario, targets).partitioned_nodes == net.partitioned_nodes
            &&& strikes_as(
                net,
                scenario,
                targets,
                i,
                NodeView {
                    state: StateView { mode: Mode::Degraded, ai_state_reason: "error"@, ..node.state },
                    ai: AIModel { overridden: true },
                    ..node
                },
            )
        }),
{
    let scenario = ScenarioView::ai_crash(target, duration_ticks);
    law_start_strikes_once(net, scenario, targets, i);
    reveal_with_fuel(struck_by, 5);
    lemma_partition(net, scenario, targets, targets.len());
}

/// Infecting nodes raises each target's load by 10 and its connections by 20, as far as a byte goes, moves its last sync
/// 60 into the past, to zero at most, and gives it the finding of malware. It does nothing else, and nobody is cut
/// off.
pub proof fn law_node_infection(
    net: NetworkView,
    target: ScenarioTarget,
    duration_ticks: u64,
    targets: Seq<usize>,
    i: int,
)
    requires
        distinct(net, targets),
        0 <= i < net.nodes.len(),
    ensures
        ({
            let scenario = ScenarioView::node_infection(target, duration_ticks);
            let node = net.nodes[i];
            &&& lasts(scenario, "node_infection"@, target, duration_ticks)
            &&& attacked(net, scenario, targets).partitioned_nodes == net.partitioned_nodes
            &&& strikes_as(
                net,
                scenario,
                targets,
                i,
                NodeView {
                    state: StateView {
                        load: within_byte(node.state.load + 10),
                        active_connections: within_byte(node.state.active_connections + 20),
                        last_sync_time: if node.state.last_sync_time > 60 {
                            (node.state.last_sync_time - 60) as u64
                        } else {
                            0
                        },
                        ai_state_reason: "malware_detected"@,
                        ..node.state
                    },
                    ..node
                },
            )
        }),
{
    let scenario = ScenarioView::node_infection(target, duration_ticks);
    law_start_strikes_once(net, scenario, targets, i);
    reveal_with_fuel(struck_by, 5);
    lemma_partition(net, scenario, targets, targets.len());
}

/// Cutting nodes off parts exactly the targets from the others, beside those that are parted already, and gives each
/// of them the finding of it. It does nothing else.
pub proof fn law_network_partition(
    net: NetworkView,
    target: ScenarioTarget,
    duration_ticks: u64,
    targets: Seq<usize>,
    i: int,
    id: u32,
)
    requires
        distinct(net, targets),
        0 <= i < net.nodes.len(),
    ensures
        ({
            let scenario = ScenarioView::network_partition(target, duration_ticks);
            let node = net.nodes[i];
            &&& lasts(scenario, "network_partition"@, target, duration_ticks)
            &&& attacked(net, scenario, targets).partitioned_nodes.contains(id) <==> net.partitioned_nodes.contains(id)
                || exists|k: int| 0 <= k < targets.len() && net.nodes[#[trigger] targets[k] as int].id == id
            &&& strikes_as(
                net,
                scenario,
                targets,
                i,
                NodeView { state: StateView { ai_state_reason: "network_partitioned"@, ..node.state }, ..node },
            )
        }),
{
    let scenario = ScenarioView::network_partition(target, duration_ticks);
    law_start_strikes_once(net, scenario, targets, i);
    reveal_with_fuel(struck_by, 5);
    lemma_partition(net, scenario, targets, targets.len());
    let ids = targets.map_values(|k: usize| net.ids()[k as int]);
    if ids.to_set().contains(id) {
        let k = ids.index_of(id);
        assert(net.nodes[targets[k] as int].id == id);
    }
    if exists|k: int| 0 <= k < targets.len() && net.nodes[#[trigger] targets[k] as int].id == id {
        let k = choose|k: int| 0 <= k < targets.len() && net.nodes[#[trigger] targets[k] as int].id == id;
        assert(ids[k] == id);
    }
}

/// Striking nodes parts nobody from the others by itself.
proof fn lemma_partition(net: NetworkView, scenario: ScenarioView, targets: Seq<usize>, n: nat)
    ensures
        struck_nodes(net, scenario.actions, targets, n).0.partitioned_nodes
            == net.partitioned_nodes,
    decreases n,
{
    if n > 0 {
        lemma_partition(net, scenario, targets, (n - 1) as nat);
    }
}

/// A scenario that is set to work on someone and lasts `d` ticks goes on for `d - 1` ticks after its start, with its
/// targets and actions; it keeps those in mind that it has parted from the others. One that is instant, or that finds
/// nobody, leaves nothing at work.
pub proof fn law_left_at_work(net: NetworkView, scenario: ScenarioView, targets: Seq<usize>)
    ensures
        lasting(net, scenario, targets) is Some <==> targets.len() > 0 && scenario.effect is Sustained,
        lasting(net, scenario, targets) matches Some(e) ==> {
            &&& e.scenario_name == scenario.name
            &&& e.target_node_indices == targets
            &&& e.actions == scenario.actions
            &&& scenario.effect->duration_ticks > 0 ==> e.ticks_remaining == scenario.effect->duration_ticks - 1
            &&& scenario.effect->duration_ticks == 0 ==> e.ticks_remaining == 0
            &&& e.revert_on_expire == scenario.effect->revert_on_expire
            &&& scenario.cuts_links ==> e.partitioned_ids.len() == targets.len() && forall|k: int|
                0 <= k < targets.len() ==> (#[trigger] e.partitioned_ids[k]) == net.ids()[targets[k] as int]
            &&& !scenario.cuts_links ==> e.partitioned_ids.len() == 0
        },
{
}

/// What each single action does: counts move by the given number as far as a byte goes, the last sync moves into the
/// past down to zero, and the mode, the finding, the news to tell and the access to the model are set. An action
/// changes nothing else.
pub proof fn law_single_action(node: NodeView, action: ActionView)
    ensures
        struck(node, action).0 == match action {
            ActionView::InflateLoad { delta } => NodeView {
                state: StateView { load: within_byte(node.state.load + delta), ..node.state },
                ..node
            },
            ActionView::InflateConnections { delta } => NodeView {
                state: StateView {
                    active_connections: within_byte(node.state.active_connections + delta),
                    ..node.state
                },
                ..node
            },
            ActionView::InflateFailedAuth { delta } => NodeView {
                state: StateView { failed_auth_count: within_byte(node.state.failed_auth_count + delta), ..node.state },
                ..node
            },
            ActionView::ForceMode { mode } => NodeView { state: StateView { mode, ..node.state }, ..node },
            ActionView::AgeSync { seconds } => NodeView {
                state: StateView {
                    last_sync_time: if node.state.last_sync_time > seconds {
                        (node.state.last_sync_time - seconds) as u64
                    } else {
                        0
                    },
                    ..node.state
                },
                ..node
            },
            ActionView::TagAiState { label } => NodeView {
                state: StateView { ai_state_reason: label, ..node.state },
                ..node
            },
            ActionView::EmitLoadSignal { signal } => NodeView {
                state: StateView { pending_load_signal: Some(signal), ..node.state },
                ..node
            },
            ActionView::OverrideAI { enabled } => NodeView { ai: AIModel { overridden: enabled }, ..node },
        },
{
}

/// Taking a change of the load back moves it by as much in the other direction, but never below 70 nor above 120.
/// Taking back a change of a count does so down to zero. Neither changes anything else.
pub proof fn law_counts_come_back(node: NodeView, d: int)
    requires
        -255 <= d <= 255,
    ensures
        ({
            let back = undone(node, DeltaView::Load(d));
            &&& back == NodeView { state: StateView { load: back.state.load, ..node.state }, ..node }
            &&& 70 <= back.state.load <= 120
            &&& 70 <= node.state.load - d <= 120 ==> back.state.load == node.state.load - d
            &&& node.state.load - d < 70 ==> back.state.load == 70
            &&& node.state.load - d > 120 ==> back.state.load == 120
        }),
        ({
            let back = undone(node, DeltaView::Connections(d));
            &&& back == NodeView {
                state: StateView { active_connections: back.state.active_connections, ..node.state },
                ..node
            }
            &&& 0 <= node.state.active_connections - d <= 255 ==> back.state.active_connections
                == node.state.active_connections - d
            &&& node.state.active_connections < d ==> back.state.active_connections == 0
        }),
        ({
            let back = undone(node, DeltaView::FailedAuth(d));
            &&& back == NodeView {
                state: StateView { failed_auth_count: back.state.failed_auth_count, ..node.state },
                ..node
            }
            &&& 0 <= node.state.failed_auth_count - d <= 255 ==> back.state.failed_auth_count
                == node.state.failed_auth_count - d
            &&& node.state.failed_auth_count < d ==> back.state.failed_auth_count == 0
        }),
{
}

} // verus!
