//! What a scenario does to one node, and undoing it.

use vstd::prelude::*;

use crate::ai_module::AIModel;
use crate::node::{Mode, Node, NodeView, StateView};
use crate::persistence::since;
use crate::scenarios::{action_views, delta_views, ActionView, AppliedDelta, DeltaView, ScenarioAction};

verus! {

/// The number brought into the range of a byte.
pub open spec fn clamped_byte(n: int) -> u8 {
    if n < 0 {
        0
    } else if n > u8::MAX {
        u8::MAX
    } else {
        n as u8
    }
}

/// What the action does to the node, and what it takes to undo it.
pub open spec fn struck(node: NodeView, action: ActionView) -> (NodeView, DeltaView) {
    let state = node.state;
    match action {
        ActionView::InflateLoad { delta } => {
            let load = clamped_byte(state.load + delta);
            (NodeView { state: StateView { load, ..state }, ..node }, DeltaView::Load(load - state.load))
        },
        ActionView::InflateConnections { delta } => {
            let active_connections = clamped_byte(state.active_connections + delta);
            (
                NodeView { state: StateView { active_connections, ..state }, ..node },
                DeltaView::Connections(active_connections - state.active_connections),
            )
        },
        ActionView::InflateFailedAuth { delta } => {
            let failed_auth_count = clamped_byte(state.failed_auth_count + delta);
            (
                NodeView { state: StateView { failed_auth_count, ..state }, ..node },
                DeltaView::FailedAuth(failed_auth_count - state.failed_auth_count),
            )
        },
        ActionView::ForceMode { mode } => (
            NodeView { state: StateView { mode, ..state }, ..node },
            DeltaView::Mode { before: state.mode },
        ),
        ActionView::AgeSync { seconds } => (
            NodeView { state: StateView { last_sync_time: since(state.last_sync_time, seconds), ..state }, ..node },
            DeltaView::Sync { before: state.last_sync_time },
        ),
        ActionView::TagAiState { label } => (
            NodeView { state: StateView { ai_state_reason: label, ..state }, ..node },
            DeltaView::AiState { before: state.ai_state_reason },
        ),
        ActionView::EmitLoadSignal { signal } => (
            NodeView { state: StateView { pending_load_signal: Some(signal), ..state }, ..node },
            DeltaView::NoOp,
        ),
        ActionView::OverrideAI { enabled } => (
            NodeView { ai: AIModel { overridden: enabled }, ..node },
            DeltaView::AiOverride { before: node.ai.overridden },
        ),
    }
}

/// The node after the first `n` actions, and what it takes to undo them.
pub open spec fn struck_by(node: NodeView, actions: Seq<ActionView>, n: nat) -> (NodeView, Seq<DeltaView>)
    decreases n,
{
    if n == 0 {
        (node, seq![])
    } else {
        let (before, deltas) = struck_by(node, actions, (n - 1) as nat);
        let (after, delta) = struck(before, actions[n - 1]);
        (after, deltas.push(delta))
    }
}

/// The node after a change was taken back. A load comes back into the range from 70 to 120; a count
/// does not go below zero, and keeps its low eight bits.
pub open spec fn undone(node: NodeView, delta: DeltaView) -> NodeView {
    let state = node.state;
    match delta {
        DeltaView::Load(d) => {
            let load = state.load - d;
            let load = if load < 70 {
                70u8
            } else if load > 120 {
                120u8
            } else {
                load as u8
            };
            NodeView { state: StateView { load, ..state }, ..node }
        },
        DeltaView::Connections(d) => NodeView {
            state: StateView { active_connections: low_byte(state.active_connections - d), ..state },
            ..node
        },
        DeltaView::FailedAuth(d) => NodeView {
            state: StateView { failed_auth_count: low_byte(state.failed_auth_count - d), ..state },
            ..node
        },
        DeltaView::Mode { before } => NodeView { state: StateView { mode: before, ..state }, ..node },
        DeltaView::Sync { before } => NodeView { state: StateView { last_sync_time: before, ..state }, ..node },
        DeltaView::AiState { before } => NodeView { state: StateView { ai_state_reason: before, ..state }, ..node },
        DeltaView::AiOverride { before } => NodeView { ai: AIModel { overridden: before }, ..node },
        DeltaView::NoOp => node,
    }
}

/// The low eight bits of the number; zero where it is negative.
pub open spec fn low_byte(n: int) -> u8 {
    if n < 0 { 0 } else { (n % 256) as u8 }
}

/// The change is one of the node's mode or of its access to the model.
pub open spec fn of_mode(delta: DeltaView) -> bool {
    delta is Mode || delta is AiOverride
}

/// The node after the changes were taken back, the last first; where the node owns its mode, changes
/// of that are left in place.
pub open spec fn undone_all(node: NodeView, deltas: Seq<DeltaView>, owns_mode: bool) -> NodeView
    decreases deltas.len(),
{
    if deltas.len() == 0 {
        node
    } else {
        let after = if owns_mode && of_mode(deltas.last()) { node } else { undone(node, deltas.last()) };
        undone_all(after, deltas.drop_last(), owns_mode)
    }
}

/// The node has left the others by its own decision, not by the scenario.
pub open spec fn escaped(node: NodeView, partitioned_ids: Seq<u32>) -> bool {
    (node.state.mode == Mode::Isolated || node.state.mode == Mode::Reconnecting) && !partitioned_ids.contains(node.id)
}

fn clamp_byte(n: i32) -> (b: u8)
    ensures
        b == clamped_byte(n as int),
{
    if n < 0 {
        0
    } else if n > 255 {
        255
    } else {
        n as u8
    }
}

fn keep_low_byte(n: i64) -> (b: u8)
    ensures
        b == low_byte(n as int),
{
    if n < 0 { 0 } else { (n % 256) as u8 }
}

impl ScenarioAction {
    /// Does the action to the node.
    pub fn apply_once(&self, node: &mut Node) -> (delta: AppliedDelta)
        ensures
            (final(node)@, delta@) == struck(old(node)@, self@),
    {
        match self {
            ScenarioAction::InflateLoad { delta } => {
                let before: u8 = node.state.load;
                node.state.load = clamp_byte(before as i32 + *delta as i32);
                AppliedDelta::Load(node.state.load as i16 - before as i16)
            },
            ScenarioAction::InflateConnections { delta } => {
                let before: u8 = node.state.active_connections;
                node.state.active_connections = clamp_byte(before as i32 + *delta as i32);
                AppliedDelta::Connections(node.state.active_connections as i32 - before as i32)
            },
            ScenarioAction::InflateFailedAuth { delta } => {
                let before: u8 = node.state.failed_auth_count;
                node.state.failed_auth_count = before.saturating_add(*delta);
                AppliedDelta::FailedAuth(node.state.failed_auth_count as i16 - before as i16)
            },
            ScenarioAction::ForceMode { mode } => {
                let before = node.state.mode;
                node.state.mode = *mode;
                AppliedDelta::Mode { before }
            },
            ScenarioAction::AgeSync { seconds } => {
                let before: u64 = node.state.last_sync_time;
                node.state.last_sync_time = before.saturating_sub(*seconds);
                AppliedDelta::Sync { before }
            },
            ScenarioAction::TagAiState { label } => {
                let before = node.state.ai_state_reason.clone();
                node.state.ai_state_reason = label.clone();
                AppliedDelta::AiState { before }
            },
            ScenarioAction::EmitLoadSignal { signal } => {
                node.state.pending_load_signal = Some(*signal);
                AppliedDelta::NoOp
            },
            ScenarioAction::OverrideAI { enabled } => {
                let before = node.ai.is_overridden();
                node.ai.set_overridden(*enabled);
                AppliedDelta::AiOverride { before }
            },
        }
    }

    /// Does all actions to the node, one after the other.
    pub(crate) fn apply_all(actions: &Vec<ScenarioAction>, node: &mut Node) -> (deltas: Vec<AppliedDelta>)
        ensures
            (final(node)@, delta_views(deltas@)) == struck_by(
                old(node)@,
                action_views(actions@),
                actions@.len(),
            ),
    {
        let mut deltas: Vec<AppliedDelta> = Vec::new();
        let ghost start = node@;
        let ghost all = action_views(actions@);
        let mut i: usize = 0;
        assert(delta_views(deltas@) =~= seq![]);
        while i < actions.len()
            invariant
                i <= actions@.len(),
                all == action_views(actions@),
                (node@, delta_views(deltas@)) == struck_by(start, all, i as nat),
            decreases actions@.len() - i,
        {
            let delta = actions[i].apply_once(node);
            let ghost d = delta@;
            let ghost before = deltas@;
            deltas.push(delta);
            proof {
                assert(all[i as int] == actions@[i as int]@);
                assert(delta_views(deltas@) =~= delta_views(before).push(d));
            }
            i = i + 1;
        }
        deltas
    }
}

impl AppliedDelta {
    /// Takes the change back.
    pub fn revert(&self, node: &mut Node)
        ensures
            final(node)@ == undone(old(node)@, self@),
    {
        match self {
            AppliedDelta::Load(d) => {
                let load: i32 = node.state.load as i32 - *d as i32;
                node.state.load = if load < 70 {
                    70
                } else if load > 120 {
                    120
                } else {
                    load as u8
                };
            },
            AppliedDelta::Connections(d) => {
                node.state.active_connections = keep_low_byte(node.state.active_connections as i64 - *d as i64);
            },
            AppliedDelta::FailedAuth(d) => {
                node.state.failed_auth_count = keep_low_byte(node.state.failed_auth_count as i64 - *d as i64);
            },
            AppliedDelta::Mode { before } => {
                node.state.mode = *before;
            },
            AppliedDelta::Sync { before } => {
                node.state.last_sync_time = *before;
            },
            AppliedDelta::AiState { before } => {
                node.state.ai_state_reason = before.clone();
            },
            AppliedDelta::AiOverride { before } => {
                node.ai.set_overridden(*before);
            },
            AppliedDelta::NoOp => {},
        }
    }

    /// Takes the changes back, the last first.
    pub(crate) fn revert_all(deltas: &Vec<AppliedDelta>, node: &mut Node, owns_mode: bool)
        ensures
            final(node)@ == undone_all(old(node)@, delta_views(deltas@), owns_mode),
    {
        let ghost start = node@;
        let ghost all = delta_views(deltas@);
        let mut n: usize = deltas.len();
        assert(all.take(n as int) =~= all);
        while n > 0
            invariant
                n <= deltas@.len(),
                all == delta_views(deltas@),
                undone_all(start, all, owns_mode) == undone_all(node@, all.take(n as int), owns_mode),
            decreases n,
        {
            let delta = &deltas[n - 1];
            proof {
                assert(all.take(n as int).drop_last() =~= all.take(n - 1));
                assert(all.take(n as int).last() == delta@);
            }
            let kept = owns_mode && matches!(delta, AppliedDelta::Mode { .. } | AppliedDelta::AiOverride { .. });
            if !kept {
                delta.revert(node);
            }
            n = n - 1;
        }
    }
}

/// The action can be undone: a load that is to come back is in the range that loads come back into.
pub open spec fn restorable(node: NodeView, action: ActionView) -> bool {
    action is InflateLoad ==> 70 <= node.state.load <= 120
}

/// The nodes are the same but for what they still have to tell their neighbours.
pub open spec fn same_but_for_signal(a: NodeView, b: NodeView) -> bool {
    a == NodeView {
        state: StateView { pending_load_signal: a.state.pending_load_signal, ..b.state },
        ..b
    }
}

pub(crate) proof fn lemma_undone_alike(a: NodeView, b: NodeView, deltas: Seq<DeltaView>, owns_mode: bool)
    requires
        same_but_for_signal(a, b),
    ensures
        same_but_for_signal(undone_all(a, deltas, owns_mode), undone_all(b, deltas, owns_mode)),
    decreases deltas.len(),
{
    if deltas.len() > 0 {
        let last = deltas.last();
        let x = if owns_mode && of_mode(last) { a } else { undone(a, last) };
        let y = if owns_mode && of_mode(last) { b } else { undone(b, last) };
        assert(same_but_for_signal(x, y));
        lemma_undone_alike(x, y, deltas.drop_last(), owns_mode);
    }
}

/// Taking an action back restores the node, but for a signal that it has been made to send.
pub proof fn law_undone(node: NodeView, action: ActionView)
    requires
        restorable(node, action),
    ensures
        same_but_for_signal(undone(struck(node, action).0, struck(node, action).1), node),
{
}

/// Taking a series of actions back, the last first, restores the node, but for a signal that it has
/// been made to send.
pub proof fn law_undone_all(node: NodeView, actions: Seq<ActionView>, n: nat)
    requires
        n <= actions.len(),
        forall|i: int|
            #![trigger actions[i]]
            0 <= i < n ==> restorable(struck_by(node, actions, i as nat).0, actions[i]),
    ensures
        ({
            let (after, deltas) = struck_by(node, actions, n);
            same_but_for_signal(undone_all(after, deltas, false), node)
        }),
    decreases n,
{
    if n > 0 {
        law_undone_all(node, actions, (n - 1) as nat);
        let (before, past) = struck_by(node, actions, (n - 1) as nat);
        let (after, deltas) = struck_by(node, actions, n);
        let delta = struck(before, actions[n - 1]).1;
        law_undone(before, actions[n - 1]);
        assert(deltas.drop_last() =~= past);
        assert(deltas.last() == delta);
        let back = undone(after, delta);
        lemma_undone_alike(back, before, past, false);
    }
}

/// What the nodes have still to log is the same.
pub open spec fn same_pending(a: NodeView, b: NodeView) -> bool {
    a.pending_lifecycle == b.pending_lifecycle && a.pending_ai_decisions == b.pending_ai_decisions
}

/// Striking a node changes neither its id nor its settings, nor what it has still to log.
pub proof fn lemma_struck_by_keeps(node: NodeView, actions: Seq<ActionView>, n: nat)
    ensures
        struck_by(node, actions, n).0.id == node.id,
        struck_by(node, actions, n).0.config == node.config,
        same_pending(node, struck_by(node, actions, n).0),
    decreases n,
{
    if n > 0 {
        lemma_struck_by_keeps(node, actions, (n - 1) as nat);
    }
}

/// Taking changes back alters neither the node's id nor its settings, nor what it has still to log.
pub proof fn lemma_undone_keeps(node: NodeView, deltas: Seq<DeltaView>, owns_mode: bool)
    ensures
        undone_all(node, deltas, owns_mode).id == node.id,
        undone_all(node, deltas, owns_mode).config == node.config,
        same_pending(node, undone_all(node, deltas, owns_mode)),
    decreases deltas.len(),
{
    if deltas.len() > 0 {
        let after = if owns_mode && of_mode(deltas.last()) { node } else { undone(node, deltas.last()) };
        lemma_undone_keeps(after, deltas.drop_last(), owns_mode);
    }
}

/// Actions that leave the mode and the model alone leave no changes of these.
pub(crate) proof fn lemma_no_mode_deltas(node: NodeView, actions: Seq<ActionView>, n: nat)
    requires
        n <= actions.len(),
        forall|k: int|
            0 <= k < actions.len() ==> !((#[trigger] actions[k]) is ForceMode) && !(actions[k] is OverrideAI),
    ensures
        forall|k: int| 0 <= k < struck_by(node, actions, n).1.len() ==> !of_mode(#[trigger] struck_by(node, actions, n).1[k]),
    decreases n,
{
    if n > 0 {
        lemma_no_mode_deltas(node, actions, (n - 1) as nat);
        assert(!(actions[n - 1] is ForceMode) && !(actions[n - 1] is OverrideAI));
        let (before, past) = struck_by(node, actions, (n - 1) as nat);
        let deltas = struck_by(node, actions, n).1;
        assert(deltas == past.push(struck(before, actions[n - 1]).1));
        assert forall|k: int| 0 <= k < deltas.len() implies !of_mode(#[trigger] deltas[k]) by {
            if k < past.len() {
                assert(deltas[k] == past[k]);
            }
        }
    }
}

/// Where there are no changes of the mode, it does not matter who owns it.
pub(crate) proof fn lemma_mode_not_touched(node: NodeView, deltas: Seq<DeltaView>)
    requires
        forall|k: int| 0 <= k < deltas.len() ==> !of_mode(#[trigger] deltas[k]),
    ensures
        undone_all(node, deltas, true) == undone_all(node, deltas, false),
    decreases deltas.len(),
{
    if deltas.len() > 0 {
        assert(!of_mode(deltas[deltas.len() - 1]));
        lemma_mode_not_touched(undone(node, deltas.last()), deltas.drop_last());
    }
}

} // verus!
