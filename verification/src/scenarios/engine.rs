//! Setting scenarios to work, tick by tick.

use std::collections::HashMap;

use vstd::prelude::*;

use crate::network::{
    lemma_node_views_update, lemma_sound_again, lemma_still_sound, same_nodes, Network, NetworkView,
};
use crate::node::topology::has_id;
use crate::node::{Mode, Node, NodeView};
use crate::persistence::since;
use crate::scenarios::actions::{
    escaped, law_undone_all, lemma_mode_not_touched, lemma_no_mode_deltas, lemma_struck_by_keeps, lemma_undone_alike,
    lemma_undone_keeps, restorable, same_but_for_signal, struck_by, undone, undone_all,
};
use crate::scenarios::targets::resolves;
use crate::scenarios::{
    accumulated_views, action_views, delta_views, effect_views, ActionView, ActiveEffect, AppliedDelta, AttackScenario,
    DeltaView, EffectKind, EffectView, ScenarioAction, ScenarioView,
};

verus! {

broadcast use vstd::std_specs::hash::group_hash_axioms;

/// The network after the actions were done to the first `n` targets, and what it takes to undo them:
/// a target that comes up again is struck again, and only its last changes are kept.
pub open spec fn struck_nodes(
    net: NetworkView,
    actions: Seq<ActionView>,
    targets: Seq<usize>,
    n: nat,
) -> (NetworkView, Map<usize, Seq<DeltaView>>)
    decreases n,
{
    if n == 0 {
        (net, Map::empty())
    } else {
        let (before, accumulated) = struck_nodes(net, actions, targets, (n - 1) as nat);
        let i = targets[n - 1];
        let (node, deltas) = struck_by(before.nodes[i as int], actions, actions.len());
        (before.with_node(i as int, node), accumulated.insert(i, deltas))
    }
}

/// The ids of the targets.
pub open spec fn target_ids(net: NetworkView, targets: Seq<usize>) -> Seq<u32> {
    targets.map_values(|i: usize| net.ids()[i as int])
}

/// The network after a scenario has struck the targets.
pub open spec fn attacked(net: NetworkView, scenario: ScenarioView, targets: Seq<usize>) -> NetworkView {
    let after = struck_nodes(net, scenario.actions, targets, targets.len()).0;
    if scenario.cuts_links {
        NetworkView {
            partitioned_nodes: after.partitioned_nodes.union(target_ids(net, targets).to_set()),
            ..after
        }
    } else {
        after
    }
}

/// What stays at work of a scenario that has struck the targets.
pub open spec fn lasting(net: NetworkView, scenario: ScenarioView, targets: Seq<usize>) -> Option<EffectView> {
    match scenario.effect {
        EffectKind::Sustained { duration_ticks, revert_on_expire } => if targets.len() > 0 {
            Some(
                EffectView {
                    scenario_name: scenario.name,
                    target_node_indices: targets,
                    actions: scenario.actions,
                    ticks_remaining: since(duration_ticks, 1),
                    revert_on_expire,
                    accumulated: struck_nodes(net, scenario.actions, targets, targets.len()).1,
                    partitioned_ids: if scenario.cuts_links { target_ids(net, targets) } else { seq![] },
                },
            )
        } else {
            None
        },
        EffectKind::Instant => None,
    }
}

/// The network when an effect is over: what it did is taken back, if it is one of that kind.
pub open spec fn expired(net: NetworkView, effect: EffectView) -> NetworkView {
    if effect.revert_on_expire {
        NetworkView {
            nodes: Seq::new(net.nodes.len(), |i: int| restored(net.nodes[i], i as usize, effect)),
            partitioned_nodes: net.partitioned_nodes.difference(effect.partitioned_ids.to_set()),
            ..net
        }
    } else {
        net
    }
}

/// The node at position `i` when an effect is over.
pub open spec fn restored(node: NodeView, i: usize, effect: EffectView) -> NodeView {
    if effect.accumulated.contains_key(i) {
        undone_all(node, effect.accumulated[i], escaped(node, effect.partitioned_ids))
    } else {
        node
    }
}

/// The network and the effect after the actions were done once more to the first `n` targets, but for
/// those that have escaped.
pub open spec fn repeated(net: NetworkView, effect: EffectView, n: nat) -> (NetworkView, EffectView)
    decreases n,
{
    if n == 0 {
        (net, effect)
    } else {
        let (before, e) = repeated(net, effect, (n - 1) as nat);
        let i = effect.target_node_indices[n - 1];
        if i >= before.nodes.len() || escaped(before.nodes[i as int], effect.partitioned_ids) {
            (before, e)
        } else {
            let (node, deltas) = struck_by(before.nodes[i as int], effect.actions, effect.actions.len());
            let past = if e.accumulated.contains_key(i) { e.accumulated[i] } else { seq![] };
            (
                before.with_node(i as int, node),
                EffectView { accumulated: e.accumulated.insert(i, past + deltas), ..e },
            )
        }
    }
}

/// The network after a tick of one effect.
pub open spec fn advanced_net(net: NetworkView, effect: EffectView) -> NetworkView {
    if effect.ticks_remaining == 0 {
        expired(net, effect)
    } else {
        repeated(net, effect, effect.target_node_indices.len()).0
    }
}

/// The effect after a tick, if it is not over.
pub open spec fn advanced_effect(net: NetworkView, effect: EffectView) -> Option<EffectView> {
    if effect.ticks_remaining == 0 {
        None
    } else {
        let e = repeated(net, effect, effect.target_node_indices.len()).1;
        Some(EffectView { ticks_remaining: (effect.ticks_remaining - 1) as u64, ..e })
    }
}

/// The network after a tick of the first `n` effects, and what is left of them.
pub open spec fn advanced(net: NetworkView, effects: Seq<EffectView>, n: nat) -> (NetworkView, Seq<EffectView>)
    decreases n,
{
    if n == 0 {
        (net, seq![])
    } else {
        let (before, active) = advanced(net, effects, (n - 1) as nat);
        let e = effects[n - 1];
        (
            advanced_net(before, e),
            match advanced_effect(before, e) {
                Some(e) => active.push(e),
                None => active,
            },
        )
    }
}

/// Applies scenarios to a network.
pub struct ScenarioEngine;

impl ScenarioEngine {
    /// Strikes the target of the scenario. What it did is handed out where it lasts.
    pub fn apply(network: &mut Network, scenario: &AttackScenario) -> (effect: Option<ActiveEffect>)
        requires
            old(network)@.wired(),
        ensures
            exists|targets: Seq<usize>| #[trigger]
                resolves(scenario.target, old(network)@, targets) && final(network)@ == attacked(
                    old(network)@,
                    scenario@,
                    targets,
                ) && effect_view(effect) == lasting(old(network)@, scenario@, targets),
            same_nodes(old(network)@, final(network)@),
            final(network)@.wired(),
            old(network)@.sound() ==> final(network)@.sound(),
    {
        let targets = scenario.target.resolve(network);
        Self::apply_to(network, scenario, targets)
    }

    /// Strikes the nodes at these positions.
    pub fn apply_to(network: &mut Network, scenario: &AttackScenario, targets: Vec<usize>) -> (effect: Option<
        ActiveEffect,
    >)
        requires
            old(network)@.wired(),
            forall|k: int| 0 <= k < targets@.len() ==> (#[trigger] targets@[k]) < old(network).nodes@.len(),
        ensures
            final(network)@ == attacked(old(network)@, scenario@, targets@),
            effect_view(effect) == lasting(old(network)@, scenario@, targets@),
            same_nodes(old(network)@, final(network)@),
            final(network)@.wired(),
            old(network)@.sound() ==> final(network)@.sound(),
    {
        let ghost start = network@;
        let ghost actions = action_views(scenario.actions@);
        let mut accumulated: HashMap<usize, Vec<AppliedDelta>> = HashMap::new();
        let mut k: usize = 0;
        assert(accumulated_views(accumulated@) =~= Map::empty());
        while k < targets.len()
            invariant
                k <= targets@.len(),
                actions == action_views(scenario.actions@),
                forall|k: int| 0 <= k < targets@.len() ==> (#[trigger] targets@[k]) < network.nodes@.len(),
                (network@, accumulated_views(accumulated@)) == struck_nodes(start, actions, targets@, k as nat),
                same_nodes(start, network@),
                network@.wired(),
                network@.links == start.links,
                network@.partitioned_nodes == start.partitioned_nodes,
            decreases targets@.len() - k,
        {
            let i: usize = targets[k];
            let ghost before = network.nodes@;
            let ghost noted = accumulated@;
            let deltas = ScenarioAction::apply_all(&scenario.actions, &mut network.nodes[i]);
            let ghost d = delta_views(deltas@);
            accumulated.insert(i, deltas);
            proof {
                lemma_struck_by_keeps(before[i as int]@, actions, actions.len());
                lemma_node_views_update(before, network.nodes@, i as int);
                assert(accumulated_views(accumulated@) =~= accumulated_views(noted).insert(i, d));
            }
            k = k + 1;
        }
        let mut partitioned_ids: Vec<u32> = Vec::new();
        if scenario.cuts_links {
            let ghost after = network@;
            let mut k: usize = 0;
            assert(network.partitioned_nodes@ =~= after.partitioned_nodes.union(
                target_ids(start, targets@).take(0).to_set(),
            ));
            assert(network@ =~= NetworkView {
                partitioned_nodes: after.partitioned_nodes.union(target_ids(start, targets@).take(0).to_set()),
                ..after
            });
            while k < targets.len()
                invariant
                    k <= targets@.len(),
                    forall|k: int| 0 <= k < targets@.len() ==> (#[trigger] targets@[k]) < network.nodes@.len(),
                    same_nodes(start, after),
                    partitioned_ids@ == target_ids(start, targets@).take(k as int),
                    network@ == (NetworkView {
                        partitioned_nodes: after.partitioned_nodes.union(partitioned_ids@.to_set()),
                        ..after
                    }),
                decreases targets@.len() - k,
            {
                let ghost ids = target_ids(start, targets@);
                let ghost before = partitioned_ids@;
                let id: u32 = network.nodes[targets[k]].id;
                network.partitioned_nodes.insert(id);
                partitioned_ids.push(id);
                proof {
                    assert(after.nodes[targets@[k as int] as int].id == id);
                    assert(ids[k as int] == id);
                    assert(ids.take(k + 1) =~= ids.take(k as int).push(id));
                    lemma_push_to_set(before, id);
                    assert(after.partitioned_nodes.union(before.to_set()).insert(id) =~= after.partitioned_nodes.union(
                        partitioned_ids@.to_set(),
                    ));
                }
                k = k + 1;
            }
            assert(partitioned_ids@ =~= target_ids(start, targets@));
        }
        assert(network@ =~= attacked(start, scenario@, targets@));
        proof {
            lemma_sound_again(start, network@);
        }
        match scenario.effect {
            EffectKind::Instant => None,
            EffectKind::Sustained { duration_ticks, revert_on_expire } => {
                if targets.len() == 0 {
                    return None;
                }
                let actions = copy_actions(&scenario.actions);
                let effect = ActiveEffect {
                    scenario_name: scenario.name.clone(),
                    target_node_indices: targets,
                    actions,
                    ticks_remaining: duration_ticks.saturating_sub(1),
                    revert_on_expire,
                    accumulated,
                    partitioned_ids,
                };
                assert(effect@ =~= lasting(start, scenario@, targets@)->0);
                Some(effect)
            },
        }
    }

    /// Carries all effects on by one tick and hands out those that go on.
    pub fn advance_active_effects(network: &mut Network, effects: Vec<ActiveEffect>) -> (active: Vec<ActiveEffect>)
        requires
            old(network)@.wired(),
        ensures
            (final(network)@, effect_views(active@)) == advanced(
                old(network)@,
                effect_views(effects@),
                effects@.len(),
            ),
            same_nodes(old(network)@, final(network)@),
            final(network)@.wired(),
            old(network)@.sound() ==> final(network)@.sound(),
    {
        let ghost start = network@;
        let ghost all = effects@;
        let mut active: Vec<ActiveEffect> = Vec::new();
        assert(effect_views(active@) =~= seq![]);
        for effect in it: effects
            invariant
                it.seq() == all,
                (network@, effect_views(active@)) == advanced(start, effect_views(all), it.index() as nat),
                same_nodes(start, network@),
                network@.wired(),
        {
            let ghost e = effect@;
            let ghost before = active@;
            assert(effect_views(all)[it.index()] == e);
            match Self::advance_one(network, effect) {
                Some(next) => {
                    let ghost n = next@;
                    active.push(next);
                    assert(effect_views(active@) =~= effect_views(before).push(n));
                },
                None => {},
            }
        }
        proof {
            lemma_sound_again(start, network@);
        }
        active
    }

    /// Carries one effect on by one tick.
    fn advance_one(network: &mut Network, effect: ActiveEffect) -> (next: Option<ActiveEffect>)
        requires
            old(network)@.wired(),
        ensures
            final(network)@ == advanced_net(old(network)@, effect@),
            effect_view(next) == advanced_effect(old(network)@, effect@),
            same_nodes(old(network)@, final(network)@),
            final(network)@.wired(),
    {
        if effect.ticks_remaining == 0 {
            if effect.revert_on_expire {
                Self::take_back(network, &effect);
            }
            return None;
        }
        let ghost start = network@;
        let ghost first = effect@;
        let mut effect: ActiveEffect = effect;
        let mut k: usize = 0;
        while k < effect.target_node_indices.len()
            invariant
                k <= effect.target_node_indices@.len(),
                effect.target_node_indices@ == first.target_node_indices,
                action_views(effect.actions@) == first.actions,
                effect.partitioned_ids@ == first.partitioned_ids,
                effect.ticks_remaining == first.ticks_remaining,
                effect.ticks_remaining > 0,
                (network@, effect@) == repeated(start, first, k as nat),
                same_nodes(start, network@),
                start.wired(),
                network@.links == start.links,
                network@.wired(),
            decreases effect.target_node_indices@.len() - k,
        {
            let i: usize = effect.target_node_indices[k];
            if i < network.nodes.len() {
                assert(network@.nodes[i as int] == network.nodes@[i as int]@);
                if !Self::has_escaped(&network.nodes[i], &effect.partitioned_ids) {
                    let ghost before = network.nodes@;
                    let ghost noted = effect.accumulated@;
                    let mut past: Vec<AppliedDelta> = match effect.accumulated.remove(&i) {
                        Some(v) => v,
                        None => Vec::new(),
                    };
                    let ghost p = delta_views(past@);
                    assert(p =~= if accumulated_views(noted).contains_key(i) {
                        accumulated_views(noted)[i]
                    } else {
                        seq![]
                    });
                    let mut deltas = ScenarioAction::apply_all(&effect.actions, &mut network.nodes[i]);
                    let ghost d = delta_views(deltas@);
                    past.append(&mut deltas);
                    assert(delta_views(past@) =~= p + d);
                    effect.accumulated.insert(i, past);
                    proof {
                        lemma_struck_by_keeps(before[i as int]@, first.actions, first.actions.len());
                        lemma_node_views_update(before, network.nodes@, i as int);
                        assert(accumulated_views(effect.accumulated@) =~= accumulated_views(noted).insert(i, p + d));
                        lemma_still_sound(start, network@);
                    }
                }
            }
            k = k + 1;
        }
        effect.ticks_remaining = effect.ticks_remaining - 1;
        Some(effect)
    }

    fn has_escaped(node: &Node, partitioned_ids: &Vec<u32>) -> (b: bool)
        ensures
            b == escaped(node@, partitioned_ids@),
    {
        matches!(node.state.mode, Mode::Isolated | Mode::Reconnecting) && !has_id(partitioned_ids, node.id)
    }

    /// Takes back what an effect did.
    fn take_back(network: &mut Network, effect: &ActiveEffect)
        requires
            old(network)@.wired(),
            effect.revert_on_expire,
        ensures
            final(network)@ == expired(old(network)@, effect@),
            same_nodes(old(network)@, final(network)@),
            final(network)@.wired(),
    {
        let ghost start = network@;
        let mut i: usize = 0;
        while i < network.nodes.len()
            invariant
                i <= network.nodes@.len(),
                network.nodes@.len() == start.nodes.len(),
                forall|k: int|
                    0 <= k < i ==> (#[trigger] network@.nodes[k]) == restored(start.nodes[k], k as usize, effect@),
                forall|k: int| i <= k < start.nodes.len() ==> (#[trigger] network@.nodes[k]) == start.nodes[k],
                network@ == (NetworkView { nodes: network@.nodes, ..start }),
                same_nodes(start, network@),
            decreases network.nodes@.len() - i,
        {
            let ghost before = network.nodes@;
            assert(network@.nodes[i as int] == before[i as int]@);
            assert(effect@.accumulated.contains_key(i) == effect.accumulated@.contains_key(i));
            match effect.accumulated.get(&i) {
                Some(deltas) => {
                    let owns_mode = Self::has_escaped(&network.nodes[i], &effect.partitioned_ids);
                    AppliedDelta::revert_all(deltas, &mut network.nodes[i], owns_mode);
                    proof {
                        lemma_undone_keeps(before[i as int]@, delta_views(deltas@), owns_mode);
                        lemma_node_views_update(before, network.nodes@, i as int);
                    }
                },
                None => {},
            }
            i = i + 1;
        }
        let ghost after = network@;
        assert(after.nodes =~= expired(start, effect@).nodes);
        let mut k: usize = 0;
        let ghost ids = effect.partitioned_ids@;
        assert(after.partitioned_nodes.difference(ids.take(0).to_set()) =~= after.partitioned_nodes);
        while k < effect.partitioned_ids.len()
            invariant
                k <= ids.len(),
                ids == effect.partitioned_ids@,
                network@ == (NetworkView {
                    partitioned_nodes: after.partitioned_nodes.difference(ids.take(k as int).to_set()),
                    ..after
                }),
            decreases ids.len() - k,
        {
            let id: u32 = effect.partitioned_ids[k];
            network.partitioned_nodes.remove(&id);
            proof {
                assert(ids.take(k + 1) =~= ids.take(k as int).push(id));
                lemma_push_to_set(ids.take(k as int), id);
                assert(after.partitioned_nodes.difference(ids.take(k as int).to_set()).remove(id)
                    =~= after.partitioned_nodes.difference(ids.take(k + 1).to_set()));
            }
            k = k + 1;
        }
        assert(ids.take(k as int) =~= ids);
    }
}

/// The value of an effect that may not be there.
pub open spec fn effect_view(effect: Option<ActiveEffect>) -> Option<EffectView> {
    match effect {
        Some(e) => Some(e@),
        None => None,
    }
}

/// One more in the list is one more in its set.
pub(crate) proof fn lemma_push_to_set(s: Seq<u32>, x: u32)
    ensures
        s.push(x).to_set() == s.to_set().insert(x),
{
    assert forall|y: u32| s.push(x).to_set().contains(y) <==> #[trigger] s.to_set().insert(x).contains(y) by {
        if s.push(x).contains(y) && y != x {
            assert(s[s.push(x).index_of(y)] == y);
        }
        if s.contains(y) {
            assert(s.push(x)[s.index_of(y)] == y);
        }
        assert(s.push(x)[s.len() as int] == x);
    }
    assert(s.push(x).to_set() =~= s.to_set().insert(x));
}

fn copy_actions(actions: &Vec<ScenarioAction>) -> (copy: Vec<ScenarioAction>)
    ensures
        action_views(copy@) == action_views(actions@),
{
    let mut copy: Vec<ScenarioAction> = Vec::new();
    let mut i: usize = 0;
    while i < actions.len()
        invariant
            i <= actions@.len(),
            copy@ == actions@.take(i as int),
        decreases actions@.len() - i,
    {
        copy.push(actions[i].clone());
        assert(copy@ =~= actions@.take(i + 1));
        i = i + 1;
    }
    assert(actions@.take(i as int) =~= actions@);
    copy
}

/// A node that was parted from the others by a scenario is no longer so when the scenario is over,
/// and no node is parted by its end.
pub proof fn law_partition_ends(net: NetworkView, effect: EffectView, id: u32)
    requires
        effect.revert_on_expire,
    ensures
        expired(net, effect).partitioned_nodes.contains(id) <==> net.partitioned_nodes.contains(id)
            && !effect.partitioned_ids.contains(id),
{
}

/// An effect counts down by one each tick, and is over in the tick in which it has counted to zero.
pub proof fn law_effect_counts_down(net: NetworkView, effect: EffectView)
    ensures
        advanced_effect(net, effect) is None <==> effect.ticks_remaining == 0,
        advanced_effect(net, effect) matches Some(e) ==> {
            &&& e.ticks_remaining == effect.ticks_remaining - 1
            &&& e.target_node_indices == effect.target_node_indices
            &&& e.actions == effect.actions
            &&& e.partitioned_ids == effect.partitioned_ids
            &&& e.revert_on_expire == effect.revert_on_expire
        },
{
    lemma_repeated_keeps(net, effect, effect.target_node_indices.len());
}

pub(crate) proof fn lemma_repeated_keeps(net: NetworkView, effect: EffectView, n: nat)
    ensures
        repeated(net, effect, n).1 == (EffectView { accumulated: repeated(net, effect, n).1.accumulated, ..effect }),
    decreases n,
{
    if n > 0 {
        lemma_repeated_keeps(net, effect, (n - 1) as nat);
    }
}

/// With distinct targets every one is struck once, and every other node is left alone.
pub(crate) proof fn lemma_struck_nodes(net: NetworkView, actions: Seq<ActionView>, targets: Seq<usize>, n: nat)
    requires
        net.nodes.len() <= u32::MAX,
        n <= targets.len(),
        targets.no_duplicates(),
        forall|k: int| 0 <= k < targets.len() ==> (#[trigger] targets[k]) < net.nodes.len(),
    ensures
        ({
            let (after, accumulated) = struck_nodes(net, actions, targets, n);
            &&& after == NetworkView { nodes: after.nodes, ..net }
            &&& after.nodes.len() == net.nodes.len()
            &&& forall|i: int|
                #![trigger after.nodes[i]]
                0 <= i < net.nodes.len() ==> if targets.take(n as int).contains(i as usize) {
                    after.nodes[i] == struck_by(net.nodes[i], actions, actions.len()).0
                } else {
                    after.nodes[i] == net.nodes[i]
                }
            &&& forall|i: usize| #[trigger]
                accumulated.contains_key(i) <==> targets.take(n as int).contains(i)
            &&& forall|i: usize| #[trigger]
                accumulated.contains_key(i) ==> accumulated[i] == struck_by(
                    net.nodes[i as int],
                    actions,
                    actions.len(),
                ).1
        }),
    decreases n,
{
    if n > 0 {
        lemma_struck_nodes(net, actions, targets, (n - 1) as nat);
        let (before, past) = struck_nodes(net, actions, targets, (n - 1) as nat);
        let (after, accumulated) = struck_nodes(net, actions, targets, n);
        let t = targets[n - 1];
        let shorter = targets.take(n - 1);
        let longer = targets.take(n as int);
        assert(longer =~= shorter.push(t));
        assert(!shorter.contains(t)) by {
            if shorter.contains(t) {
                let k = shorter.index_of(t);
                assert(targets[k] == targets[n - 1]);
            }
        }
        assert forall|i: usize| #[trigger] longer.contains(i) <==> shorter.contains(i) || i == t by {
            if longer.contains(i) && i != t {
                assert(shorter[longer.index_of(i)] == i);
            }
            if shorter.contains(i) {
                assert(longer[shorter.index_of(i)] == i);
            }
            assert(longer[n - 1] == t);
        }
        assert forall|i: int| #![trigger after.nodes[i]] 0 <= i < net.nodes.len() implies if longer.contains(i as usize) {
            after.nodes[i] == struck_by(net.nodes[i], actions, actions.len()).0
        } else {
            after.nodes[i] == net.nodes[i]
        } by {
            assert(before.nodes[t as int] == net.nodes[t as int]);
            if i != t {
                assert(after.nodes[i] == before.nodes[i]);
            }
        }
    } else {
        assert(targets.take(0) =~= seq![]);
    }
}

/// A scenario that is taken back right after it has struck leaves every node as it was, but for a signal
/// that it has been made to send: provided that its targets are distinct, that no load was outside
/// the range that loads come back into, and that a node that has left the others by itself was not
/// given a mode or kept from its model.
pub proof fn law_attack_is_taken_back(net: NetworkView, scenario: ScenarioView, targets: Seq<usize>, i: int)
    requires
        net.wired(),
        targets.no_duplicates(),
        forall|k: int| 0 <= k < targets.len() ==> (#[trigger] targets[k]) < net.nodes.len(),
        lasting(net, scenario, targets) is Some,
        lasting(net, scenario, targets)->0.revert_on_expire,
        0 <= i < net.nodes.len(),
        escaped(attacked(net, scenario, targets).nodes[i], lasting(net, scenario, targets)->0.partitioned_ids)
            ==> forall|k: int|
            0 <= k < scenario.actions.len() ==> !((#[trigger] scenario.actions[k]) is ForceMode)
                && !(scenario.actions[k] is OverrideAI),
        forall|k: int|
            #![trigger scenario.actions[k]]
            0 <= k < scenario.actions.len() ==> restorable(
                struck_by(net.nodes[i], scenario.actions, k as nat).0,
                scenario.actions[k],
            ),
    ensures
        ({
            let effect = lasting(net, scenario, targets)->0;
            let back = expired(attacked(net, scenario, targets), effect);
            &&& same_but_for_signal(back.nodes[i], net.nodes[i])
            &&& back.links == net.links
            &&& !net.partitioned_nodes.contains(net.nodes[i].id) ==> !back.partitioned_nodes.contains(net.nodes[i].id)
        }),
{
    let actions = scenario.actions;
    let effect = lasting(net, scenario, targets)->0;
    let struck = attacked(net, scenario, targets);
    let back = expired(struck, effect);
    lemma_struck_nodes(net, actions, targets, targets.len());
    assert(targets.take(targets.len() as int) =~= targets);
    law_undone_all(net.nodes[i], actions, actions.len());
    assert(back.nodes[i] == restored(struck.nodes[i], i as usize, effect));
    let id = net.nodes[i].id;
    if effect.accumulated.contains_key(i as usize) {
        assert(struck.nodes[i] == struck_by(net.nodes[i], actions, actions.len()).0);
        if escaped(struck.nodes[i], effect.partitioned_ids) {
            lemma_no_mode_deltas(net.nodes[i], actions, actions.len());
            lemma_mode_not_touched(struck.nodes[i], effect.accumulated[i as usize]);
        }
    }
    assert(struck.links == net.links);
}

/// A further strike can be undone together with those before it.
pub proof fn law_repeated_strikes_are_undone(
    first: NodeView,
    node: NodeView,
    past: Seq<DeltaView>,
    actions: Seq<ActionView>,
)
    requires
        same_but_for_signal(undone_all(node, past, false), first),
        forall|k: int|
            #![trigger actions[k]]
            0 <= k < actions.len() ==> restorable(struck_by(node, actions, k as nat).0, actions[k]),
    ensures
        ({
            let (after, deltas) = struck_by(node, actions, actions.len());
            same_but_for_signal(undone_all(after, past + deltas, false), first)
        }),
{
    let (after, deltas) = struck_by(node, actions, actions.len());
    law_undone_all(node, actions, actions.len());
    lemma_undone_in_turn(after, past, deltas);
    lemma_undone_alike(undone_all(after, deltas, false), node, past, false);
}

/// Taking back two lists of changes is taking back the second and then the first.
proof fn lemma_undone_in_turn(node: NodeView, past: Seq<DeltaView>, deltas: Seq<DeltaView>)
    ensures
        undone_all(node, past + deltas, false) == undone_all(undone_all(node, deltas, false), past, false),
    decreases deltas.len(),
{
    if deltas.len() == 0 {
        assert(past + deltas =~= past);
    } else {
        assert((past + deltas).drop_last() =~= past + deltas.drop_last());
        assert((past + deltas).last() == deltas.last());
        lemma_undone_in_turn(undone(node, deltas.last()), past, deltas.drop_last());
    }
}

} // verus!
