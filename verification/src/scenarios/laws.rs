//! What holds of a scenario from its start to its end.

use vstd::prelude::*;

use crate::network::NetworkView;
use crate::node::{Mode, NodeView};
use crate::scenarios::actions::{escaped, of_mode, struck, struck_by, undone, undone_all};
use crate::scenarios::engine::{
    advanced, advanced_effect, advanced_net, attacked, expired, lasting, lemma_repeated_keeps, lemma_struck_nodes, repeated,
    restored,
};
use crate::scenarios::{ActionView, DeltaView, EffectKind, EffectView, ScenarioView};

verus! {

/// What is left of an effect after `k` ticks, on the networks as they were before each of them.
pub open spec fn effect_after(effect: EffectView, nets: Seq<NetworkView>, k: nat) -> Option<EffectView>
    decreases k,
{
    if k == 0 {
        Some(effect)
    } else {
        match effect_after(effect, nets, (k - 1) as nat) {
            Some(e) => advanced_effect(nets[k - 1], e),
            None => None,
        }
    }
}

/// In how many ticks a scenario strikes: one at least.
pub open spec fn strike_ticks(scenario: ScenarioView) -> nat {
    match scenario.effect {
        EffectKind::Sustained { duration_ticks, .. } => if duration_ticks == 0 { 1 } else { duration_ticks as nat },
        EffectKind::Instant => 1,
    }
}

/// A tick of the effect strikes the node at the position.
pub open spec fn strikes_in(effect: EffectView, net: NetworkView, i: usize) -> bool {
    &&& effect.ticks_remaining > 0
    &&& effect.target_node_indices.contains(i)
    &&& i < net.nodes.len()
    &&& !escaped(net.nodes[i as int], effect.partitioned_ids)
}

/// How often the node at the position was struck: at the start, and in those of the first `k` ticks in which
/// the effect strikes it.
pub open spec fn strikes(effect: EffectView, nets: Seq<NetworkView>, k: nat, i: usize) -> nat
    decreases k,
{
    if k == 0 {
        1
    } else {
        strikes(effect, nets, (k - 1) as nat, i) + match effect_after(effect, nets, (k - 1) as nat) {
            Some(e) => if strikes_in(e, nets[k - 1], i) { 1nat } else { 0 },
            None => 0,
        }
    }
}

/// A scenario of `d` ticks is at work for exactly the first `d - 1` ticks after its start, or for none where
/// `d` is zero, whatever becomes of the network meanwhile; it keeps its targets, its actions and what it
/// has to take back.
pub proof fn law_effect_lasts(
    net: NetworkView,
    scenario: ScenarioView,
    targets: Seq<usize>,
    nets: Seq<NetworkView>,
    k: nat,
)
    requires
        lasting(net, scenario, targets) is Some,
        k <= nets.len(),
    ensures
        ({
            let first = lasting(net, scenario, targets)->0;
            let now = effect_after(first, nets, k);
            &&& now is Some <==> k < strike_ticks(scenario)
            &&& now matches Some(e) ==> {
                &&& e.ticks_remaining == strike_ticks(scenario) - 1 - k
                &&& e == EffectView { ticks_remaining: e.ticks_remaining, accumulated: e.accumulated, ..first }
            }
        }),
    decreases k,
{
    if k > 0 {
        law_effect_lasts(net, scenario, targets, nets, (k - 1) as nat);
        let first = lasting(net, scenario, targets)->0;
        match effect_after(first, nets, (k - 1) as nat) {
            Some(e) => {
                lemma_repeated_keeps(nets[k - 1], e, e.target_node_indices.len());
            },
            None => {},
        }
    }
}

/// Up to `k` ticks after its start a scenario of `d` ticks has struck a target `k + 1` times, and `d` times at
/// most (once where `d` is zero), provided that the target has never left the others by itself.
pub proof fn law_number_of_strikes(
    net: NetworkView,
    scenario: ScenarioView,
    targets: Seq<usize>,
    nets: Seq<NetworkView>,
    k: nat,
    i: usize,
)
    requires
        lasting(net, scenario, targets) is Some,
        k <= nets.len(),
        targets.contains(i),
        forall|j: int|
            0 <= j < k ==> i < (#[trigger] nets[j]).nodes.len() && !escaped(
                nets[j].nodes[i as int],
                lasting(net, scenario, targets)->0.partitioned_ids,
            ),
    ensures
        strikes(lasting(net, scenario, targets)->0, nets, k, i) == if k + 1 < strike_ticks(scenario) {
            k + 1
        } else {
            strike_ticks(scenario)
        },
    decreases k,
{
    if k > 0 {
        law_number_of_strikes(net, scenario, targets, nets, (k - 1) as nat, i);
        law_effect_lasts(net, scenario, targets, nets, (k - 1) as nat);
        assert(i < nets[k - 1].nodes.len());
    }
}

/// At its start a scenario strikes each of its targets once, and no other node.
pub proof fn law_start_strikes_once(net: NetworkView, scenario: ScenarioView, targets: Seq<usize>, i: int)
    requires
        net.nodes.len() <= u32::MAX,
        targets.no_duplicates(),
        forall|k: int| 0 <= k < targets.len() ==> (#[trigger] targets[k]) < net.nodes.len(),
        0 <= i < net.nodes.len(),
    ensures
        attacked(net, scenario, targets).nodes[i] == if targets.contains(i as usize) {
            struck_by(net.nodes[i], scenario.actions, scenario.actions.len()).0
        } else {
            net.nodes[i]
        },
{
    lemma_struck_nodes(net, scenario.actions, targets, targets.len());
    assert(targets.take(targets.len() as int) =~= targets);
}

/// A tick of an effect that goes on strikes each of its targets once, but for those that have left the others
/// by themselves, and no other node; what it takes to undo the strike is put behind what was there.
pub proof fn law_tick_strikes_once(net: NetworkView, effect: EffectView, i: usize)
    requires
        effect.target_node_indices.no_duplicates(),
        effect.ticks_remaining > 0,
        i < net.nodes.len(),
    ensures
        ({
            let (node, deltas) = struck_by(net.nodes[i as int], effect.actions, effect.actions.len());
            let past = if effect.accumulated.contains_key(i) { effect.accumulated[i] } else { seq![] };
            let after = advanced_effect(net, effect)->0;
            if strikes_in(effect, net, i) {
                &&& advanced_net(net, effect).nodes[i as int] == node
                &&& after.accumulated.contains_key(i)
                &&& after.accumulated[i] == past + deltas
            } else {
                &&& advanced_net(net, effect).nodes[i as int] == net.nodes[i as int]
                &&& after.accumulated.contains_key(i) == effect.accumulated.contains_key(i)
                &&& after.accumulated[i] == effect.accumulated[i]
            }
        }),
{
    let targets = effect.target_node_indices;
    lemma_repeated_nodes(net, effect, targets.len(), i);
    assert(targets.take(targets.len() as int) =~= targets);
}

proof fn lemma_repeated_nodes(net: NetworkView, effect: EffectView, n: nat, i: usize)
    requires
        effect.target_node_indices.no_duplicates(),
        n <= effect.target_node_indices.len(),
        i < net.nodes.len(),
    ensures
        ({
            let (node, deltas) = struck_by(net.nodes[i as int], effect.actions, effect.actions.len());
            let past = if effect.accumulated.contains_key(i) { effect.accumulated[i] } else { seq![] };
            let (after, e) = repeated(net, effect, n);
            &&& after.nodes.len() == net.nodes.len()
            &&& if effect.target_node_indices.take(n as int).contains(i) && !escaped(
                net.nodes[i as int],
                effect.partitioned_ids,
            ) {
                &&& after.nodes[i as int] == node
                &&& e.accumulated.contains_key(i)
                &&& e.accumulated[i] == past + deltas
            } else {
                &&& after.nodes[i as int] == net.nodes[i as int]
                &&& e.accumulated.contains_key(i) == effect.accumulated.contains_key(i)
                &&& e.accumulated[i] == effect.accumulated[i]
            }
        }),
    decreases n,
{
    let targets = effect.target_node_indices;
    if n > 0 {
        lemma_repeated_nodes(net, effect, (n - 1) as nat, i);
        let t = targets[n - 1];
        let shorter = targets.take(n - 1);
        let longer = targets.take(n as int);
        assert(longer =~= shorter.push(t));
        if shorter.contains(t) {
            let k = shorter.index_of(t);
            assert(targets[k] == targets[n - 1]);
        }
        if longer.contains(i) && i != t {
            assert(shorter[longer.index_of(i)] == i);
        }
        if shorter.contains(i) {
            assert(longer[shorter.index_of(i)] == i);
        }
        assert(longer[n - 1] == t);
    }
}

/// The effects that go on keep their order, and what they are: all but the time that is left and what they have
/// to take back.
pub proof fn law_effects_keep_order(net: NetworkView, effects: Seq<EffectView>, n: nat)
    requires
        n <= effects.len(),
    ensures
        advanced(net, effects, n).1.map_values(|e: EffectView| plan_of(e)) == effects.take(n as int).filter(
            |e: EffectView| e.ticks_remaining > 0,
        ).map_values(|e: EffectView| plan_of(aged(e))),
    decreases n,
{
    let p = |e: EffectView| e.ticks_remaining > 0;
    let f = |e: EffectView| plan_of(e);
    let g = |e: EffectView| plan_of(aged(e));
    reveal(Seq::filter);
    if n > 0 {
        law_effects_keep_order(net, effects, (n - 1) as nat);
        let (before, active) = advanced(net, effects, (n - 1) as nat);
        let e = effects[n - 1];
        let kept = effects.take(n - 1).filter(p);
        lemma_repeated_keeps(before, e, e.target_node_indices.len());
        assert(effects.take(n as int).drop_last() =~= effects.take(n - 1));
        assert(effects.take(n as int).last() == e);
        if e.ticks_remaining > 0 {
            let next = advanced_effect(before, e)->0;
            assert(plan_of(next) == plan_of(aged(e)));
            assert(active.push(next).map_values(f) =~= active.map_values(f).push(plan_of(next)));
            assert(kept.push(e).map_values(g) =~= kept.map_values(g).push(plan_of(aged(e))));
        }
    } else {
        assert(effects.take(0) =~= seq![]);
        assert(advanced(net, effects, 0).1.map_values(f) =~= effects.take(0).filter(p).map_values(g));
    }
}

/// The effect but for what it has to take back.
pub open spec fn plan_of(effect: EffectView) -> EffectView {
    EffectView { accumulated: Map::empty(), ..effect }
}

/// The effect one tick later, but for what it has to take back.
pub open spec fn aged(effect: EffectView) -> EffectView {
    EffectView { ticks_remaining: (effect.ticks_remaining - 1) as u64, ..effect }
}

/// The parts of a node that a scenario replaces, where it moves others up and down.
pub enum Part {
    /// What the node has found.
    Finding,
    /// When it was last in step.
    SyncTime,
    Mode,
    /// Whether its model is kept from answering.
    Override,
}

/// What such a part holds.
pub enum Held {
    Text(Seq<char>),
    Tick(u64),
    Mode(Mode),
    Flag(bool),
}

/// What the node has there.
pub open spec fn held(node: NodeView, part: Part) -> Held {
    match part {
        Part::Finding => Held::Text(node.state.ai_state_reason),
        Part::SyncTime => Held::Tick(node.state.last_sync_time),
        Part::Mode => Held::Mode(node.state.mode),
        Part::Override => Held::Flag(node.ai.overridden),
    }
}

/// What the change has replaced there, if it is one of that part.
pub open spec fn replaced(delta: DeltaView, part: Part) -> Option<Held> {
    match (delta, part) {
        (DeltaView::AiState { before }, Part::Finding) => Some(Held::Text(before)),
        (DeltaView::Sync { before }, Part::SyncTime) => Some(Held::Tick(before)),
        (DeltaView::Mode { before }, Part::Mode) => Some(Held::Mode(before)),
        (DeltaView::AiOverride { before }, Part::Override) => Some(Held::Flag(before)),
        _ => None,
    }
}

/// The action replaces that part.
pub open spec fn replaces(action: ActionView, part: Part) -> bool {
    match part {
        Part::Finding => action is TagAiState,
        Part::SyncTime => action is AgeSync,
        Part::Mode => action is ForceMode,
        Part::Override => action is OverrideAI,
    }
}

/// One of the actions replaces that part.
pub open spec fn any_replaces(actions: Seq<ActionView>, part: Part) -> bool {
    exists|k: int| 0 <= k < actions.len() && replaces(#[trigger] actions[k], part)
}

/// The part belongs to a node that has left the others by itself.
pub open spec fn owned(part: Part, owns_mode: bool) -> bool {
    owns_mode && (part is Mode || part is Override)
}

/// What the part holds when the changes were taken back, the last first.
spec fn back_at(deltas: Seq<DeltaView>, part: Part, owns_mode: bool, now: Held) -> Held
    decreases deltas.len(),
{
    if deltas.len() == 0 {
        now
    } else {
        let d = deltas.last();
        let next = match replaced(d, part) {
            Some(v) => if owns_mode && of_mode(d) { now } else { v },
            None => now,
        };
        back_at(deltas.drop_last(), part, owns_mode, next)
    }
}

proof fn lemma_back_at(node: NodeView, deltas: Seq<DeltaView>, part: Part, owns_mode: bool)
    ensures
        held(undone_all(node, deltas, owns_mode), part) == back_at(deltas, part, owns_mode, held(node, part)),
    decreases deltas.len(),
{
    if deltas.len() > 0 {
        let d = deltas.last();
        let after = if owns_mode && of_mode(d) { node } else { undone(node, d) };
        lemma_back_at(after, deltas.drop_last(), part, owns_mode);
    }
}

proof fn lemma_back_in_turn(first: Seq<DeltaView>, second: Seq<DeltaView>, part: Part, owns_mode: bool, now: Held)
    ensures
        back_at(first + second, part, owns_mode, now) == back_at(
            first,
            part,
            owns_mode,
            back_at(second, part, owns_mode, now),
        ),
    decreases second.len(),
{
    if second.len() == 0 {
        assert(first + second =~= first);
    } else {
        assert((first + second).drop_last() =~= first + second.drop_last());
        assert((first + second).last() == second.last());
        let d = second.last();
        let next = match replaced(d, part) {
            Some(v) => if owns_mode && of_mode(d) { now } else { v },
            None => now,
        };
        lemma_back_in_turn(first, second.drop_last(), part, owns_mode, next);
    }
}

proof fn lemma_struck_back(node: NodeView, actions: Seq<ActionView>, n: nat, part: Part, owns_mode: bool, now: Held)
    requires
        n <= actions.len(),
    ensures
        ({
            let (after, deltas) = struck_by(node, actions, n);
            let set = any_replaces(actions.take(n as int), part);
            &&& back_at(deltas, part, owns_mode, now) == if set && !owned(part, owns_mode) {
                held(node, part)
            } else {
                now
            }
            &&& !set ==> held(after, part) == held(node, part)
        }),
    decreases n,
{
    let shorter = actions.take(n - 1);
    let longer = actions.take(n as int);
    if n > 0 {
        let (before, past) = struck_by(node, actions, (n - 1) as nat);
        let a = actions[n - 1];
        let d = struck(before, a).1;
        let deltas = struck_by(node, actions, n).1;
        assert(deltas.drop_last() =~= past);
        assert(deltas.last() == d);
        let next = match replaced(d, part) {
            Some(v) => if owns_mode && of_mode(d) { now } else { v },
            None => now,
        };
        lemma_struck_back(node, actions, (n - 1) as nat, part, owns_mode, next);
        assert(longer[n - 1] == a);
        if any_replaces(shorter, part) {
            let k = choose|k: int| 0 <= k < shorter.len() && replaces(#[trigger] shorter[k], part);
            assert(replaces(longer[k], part));
        }
        if any_replaces(longer, part) && !replaces(a, part) {
            let k = choose|k: int| 0 <= k < longer.len() && replaces(#[trigger] longer[k], part);
            assert(replaces(shorter[k], part));
        }
        if replaces(a, part) {
            assert(replaces(longer[n - 1], part));
        }
    }
}

/// The list starts with the other one.
spec fn starts_with(s: Seq<DeltaView>, first: Seq<DeltaView>) -> bool {
    first.len() <= s.len() && s.take(first.len() as int) == first
}

proof fn lemma_repeated_starts(net: NetworkView, effect: EffectView, n: nat, i: usize, first: Seq<DeltaView>)
    requires
        effect.accumulated.contains_key(i),
        starts_with(effect.accumulated[i], first),
    ensures
        repeated(net, effect, n).1.accumulated.contains_key(i),
        starts_with(repeated(net, effect, n).1.accumulated[i], first),
    decreases n,
{
    if n > 0 {
        lemma_repeated_starts(net, effect, (n - 1) as nat, i, first);
        let (before, e) = repeated(net, effect, (n - 1) as nat);
        let t = effect.target_node_indices[n - 1];
        let deltas = struck_by(before.nodes[t as int], effect.actions, effect.actions.len()).1;
        if t == i {
            assert((e.accumulated[i] + deltas).take(first.len() as int) =~= e.accumulated[i].take(first.len() as int));
        }
    }
}

proof fn lemma_effect_starts(effect: EffectView, nets: Seq<NetworkView>, k: nat, i: usize, first: Seq<DeltaView>)
    requires
        effect.accumulated.contains_key(i),
        starts_with(effect.accumulated[i], first),
    ensures
        effect_after(effect, nets, k) matches Some(e) ==> e.accumulated.contains_key(i) && starts_with(
            e.accumulated[i],
            first,
        ),
    decreases k,
{
    if k > 0 {
        lemma_effect_starts(effect, nets, (k - 1) as nat, i, first);
        match effect_after(effect, nets, (k - 1) as nat) {
            Some(e) => {
                lemma_repeated_starts(nets[k - 1], e, e.target_node_indices.len(), i, first);
            },
            None => {},
        }
    }
}

/// None of the changes is one of that part.
spec fn untouched(deltas: Seq<DeltaView>, part: Part) -> bool {
    forall|k: int| 0 <= k < deltas.len() ==> replaced(#[trigger] deltas[k], part) is None
}

proof fn lemma_untouched_stays(deltas: Seq<DeltaView>, part: Part, owns_mode: bool, now: Held)
    requires
        untouched(deltas, part),
    ensures
        back_at(deltas, part, owns_mode, now) == now,
    decreases deltas.len(),
{
    if deltas.len() > 0 {
        assert(replaced(deltas[deltas.len() - 1], part) is None);
        assert(untouched(deltas.drop_last(), part));
        lemma_untouched_stays(deltas.drop_last(), part, owns_mode, now);
    }
}

proof fn lemma_owned_stays(deltas: Seq<DeltaView>, part: Part, now: Held)
    requires
        owned(part, true),
    ensures
        back_at(deltas, part, true, now) == now,
    decreases deltas.len(),
{
    if deltas.len() > 0 {
        lemma_owned_stays(deltas.drop_last(), part, now);
    }
}

proof fn lemma_struck_untouched(node: NodeView, actions: Seq<ActionView>, n: nat, part: Part)
    requires
        n <= actions.len(),
        !any_replaces(actions, part),
    ensures
        untouched(struck_by(node, actions, n).1, part),
    decreases n,
{
    if n > 0 {
        lemma_struck_untouched(node, actions, (n - 1) as nat, part);
        let (before, past) = struck_by(node, actions, (n - 1) as nat);
        let deltas = struck_by(node, actions, n).1;
        assert(!replaces(actions[n - 1], part));
        assert forall|k: int| 0 <= k < deltas.len() implies replaced(#[trigger] deltas[k], part) is None by {
            if k < past.len() {
                assert(deltas[k] == past[k]);
            }
        }
    }
}

proof fn lemma_repeated_untouched(net: NetworkView, effect: EffectView, n: nat, i: usize, part: Part)
    requires
        effect.accumulated.contains_key(i),
        untouched(effect.accumulated[i], part),
        !any_replaces(effect.actions, part),
    ensures
        repeated(net, effect, n).1.accumulated.contains_key(i),
        untouched(repeated(net, effect, n).1.accumulated[i], part),
    decreases n,
{
    if n > 0 {
        lemma_repeated_untouched(net, effect, (n - 1) as nat, i, part);
        let (before, e) = repeated(net, effect, (n - 1) as nat);
        let t = effect.target_node_indices[n - 1];
        let node = before.nodes[t as int];
        let deltas = struck_by(node, effect.actions, effect.actions.len()).1;
        lemma_struck_untouched(node, effect.actions, effect.actions.len(), part);
        let past = e.accumulated[i];
        if t == i {
            assert forall|k: int| 0 <= k < (past + deltas).len() implies replaced(#[trigger] (past + deltas)[k], part) is None by {
                if k < past.len() {
                    assert((past + deltas)[k] == past[k]);
                } else {
                    assert((past + deltas)[k] == deltas[k - past.len()]);
                }
            }
        }
    }
}

proof fn lemma_effect_untouched(effect: EffectView, nets: Seq<NetworkView>, k: nat, i: usize, part: Part)
    requires
        effect.accumulated.contains_key(i),
        untouched(effect.accumulated[i], part),
        !any_replaces(effect.actions, part),
    ensures
        effect_after(effect, nets, k) matches Some(e) ==> e.accumulated.contains_key(i) && untouched(
            e.accumulated[i],
            part,
        ) && e.actions == effect.actions,
    decreases k,
{
    if k > 0 {
        lemma_effect_untouched(effect, nets, (k - 1) as nat, i, part);
        match effect_after(effect, nets, (k - 1) as nat) {
            Some(e) => {
                lemma_repeated_untouched(nets[k - 1], e, e.target_node_indices.len(), i, part);
                lemma_repeated_keeps(nets[k - 1], e, e.target_node_indices.len());
            },
            None => {},
        }
    }
}

/// When a scenario that is taken back ends, whatever has become of the network since its start, the finding, the
/// time of the last sync, the mode and the access to the model of each of its targets are back at what
/// they were before the start, as far as the scenario replaces them; the mode and the access to the model
/// stay as they are where the node has left the others by itself. What the scenario does not replace stays
/// as it is, and those that it has parted from the others are parted no more.
pub proof fn law_run_is_taken_back(
    net: NetworkView,
    scenario: ScenarioView,
    targets: Seq<usize>,
    nets: Seq<NetworkView>,
    end: NetworkView,
    i: usize,
    part: Part,
)
    requires
        net.nodes.len() <= u32::MAX,
        targets.no_duplicates(),
        forall|k: int| 0 <= k < targets.len() ==> (#[trigger] targets[k]) < net.nodes.len(),
        targets.contains(i),
        lasting(net, scenario, targets) is Some,
        lasting(net, scenario, targets)->0.revert_on_expire,
        nets.len() == strike_ticks(scenario) - 1,
        end.nodes.len() == net.nodes.len(),
    ensures
        ({
            let first = lasting(net, scenario, targets)->0;
            let effect = effect_after(first, nets, nets.len())->0;
            let back = advanced_net(end, effect);
            let escapes = escaped(end.nodes[i as int], first.partitioned_ids);
            &&& effect_after(first, nets, nets.len()) is Some
            &&& advanced_effect(end, effect) is None
            &&& held(back.nodes[i as int], part) == if any_replaces(scenario.actions, part) && !owned(part, escapes) {
                held(net.nodes[i as int], part)
            } else {
                held(end.nodes[i as int], part)
            }
            &&& back.partitioned_nodes == end.partitioned_nodes.difference(first.partitioned_ids.to_set())
        }),
{
    let actions = scenario.actions;
    let first = lasting(net, scenario, targets)->0;
    let deltas = struck_by(net.nodes[i as int], actions, actions.len()).1;
    law_effect_lasts(net, scenario, targets, nets, nets.len());
    let effect = effect_after(first, nets, nets.len())->0;
    lemma_struck_nodes(net, actions, targets, targets.len());
    assert(targets.take(targets.len() as int) =~= targets);
    assert(first.accumulated.contains_key(i));
    assert(deltas.take(deltas.len() as int) =~= deltas);
    assert(starts_with(first.accumulated[i], deltas));
    lemma_effect_starts(first, nets, nets.len(), i, deltas);
    let all = effect.accumulated[i];
    let rest = all.skip(deltas.len() as int);
    assert(all =~= deltas + rest);
    let node = end.nodes[i as int];
    let escapes = escaped(node, first.partitioned_ids);
    let back = advanced_net(end, effect);
    assert(back == expired(end, effect));
    let k = targets.index_of(i);
    assert(targets[k] < net.nodes.len());
    assert(back.nodes[i as int] == restored(node, i, effect));
    lemma_back_at(node, all, part, escapes);
    lemma_back_in_turn(deltas, rest, part, escapes, held(node, part));
    lemma_struck_back(net.nodes[i as int], actions, actions.len(), part, escapes, back_at(rest, part, escapes, held(node, part)));
    assert(actions.take(actions.len() as int) =~= actions);
    if owned(part, escapes) {
        lemma_owned_stays(all, part, held(node, part));
    } else if !any_replaces(actions, part) {
        lemma_struck_untouched(net.nodes[i as int], actions, actions.len(), part);
        lemma_effect_untouched(first, nets, nets.len(), i, part);
        lemma_untouched_stays(all, part, escapes, held(node, part));
    }
}

/// When a scenario that is not taken back ends, it leaves the network as it is.
pub proof fn law_run_left_in_place(net: NetworkView, effect: EffectView)
    requires
        effect.ticks_remaining == 0,
        !effect.revert_on_expire,
    ensures
        advanced_net(net, effect) == net,
        advanced_effect(net, effect) is None,
{
}

} // verus!
