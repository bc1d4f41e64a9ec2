//! The network: its nodes and links, and what happens between them.

use std::collections::{HashMap, HashSet, VecDeque};
use std::sync::Arc;

use vstd::prelude::*;

use crate::config::Config;
use crate::network::topology_map::Link;
use crate::node::bridges::{is_position, lemma_position, position};
use crate::node::{lifecycle_views, Mode, Node, NodeView};
use crate::persistence::{LifecycleEntry, LifecycleView};
use crate::scenarios::engine::{attacked, lasting, ScenarioEngine};
use crate::scenarios::targets::resolves;
use crate::scenarios::{effect_views, ActiveEffect, AttackScenario, EffectView, ScenarioView};

pub mod ballots;
pub mod bridging;
pub mod course;
pub mod deliveries;
pub mod flood;
pub mod heal;
pub mod laws;
pub mod links;
pub mod reconnect;
pub mod rumors;
pub mod tick;
pub mod topology_map;
pub mod welcome;
pub mod world;

verus! {

broadcast use vstd::std_specs::hash::group_hash_axioms;

/// How many of the last decisions are kept for show.
pub const RECENT_LIFECYCLE_CAPACITY: usize = 200;

pub struct Network {
    pub nodes: Vec<Node>,
    pub links: Vec<Link>,
    pub tick: u64,
    pub config: Arc<Config>,
    pub max_ticks: u64,
    pub finished: bool,
    pub active_effects: Vec<ActiveEffect>,
    pub recent_lifecycle: VecDeque<LifecycleEntry>,
    /// The nodes that a scenario has cut off.
    pub partitioned_nodes: HashSet<u32>,
    /// When each node was last let in again.
    pub recovered_at_tick: HashMap<u32, u64>,
}

#[verifier::ext_equal]
pub struct NetworkView {
    pub nodes: Seq<NodeView>,
    pub links: Seq<Link>,
    pub tick: u64,
    pub config: Config,
    pub max_ticks: u64,
    pub finished: bool,
    pub active_effects: Seq<EffectView>,
    pub recent_lifecycle: Seq<LifecycleView>,
    pub partitioned_nodes: Set<u32>,
    pub recovered_at_tick: Map<u32, u64>,
}

pub open spec fn node_views(nodes: Seq<Node>) -> Seq<NodeView> {
    nodes.map_values(|n: Node| n@)
}

impl View for Network {
    type V = NetworkView;

    open spec fn view(&self) -> NetworkView {
        NetworkView {
            nodes: node_views(self.nodes@),
            links: self.links@,
            tick: self.tick,
            config: *self.config,
            max_ticks: self.max_ticks,
            finished: self.finished,
            active_effects: effect_views(self.active_effects@),
            recent_lifecycle: lifecycle_views(self.recent_lifecycle@),
            partitioned_nodes: self.partitioned_nodes@,
            recovered_at_tick: self.recovered_at_tick@,
        }
    }
}

impl NetworkView {
    /// The ids of the nodes, by position.
    pub open spec fn ids(self) -> Seq<u32> {
        self.nodes.map_values(|n: NodeView| n.id)
    }

    /// Every link joins two nodes, and there are no more nodes than ids.
    pub open spec fn wired(self) -> bool {
        &&& forall|i: int|
            0 <= i < self.links.len() ==> (#[trigger] self.links[i]).from < self.nodes.len() && self.links[i].to
                < self.nodes.len()
        &&& self.nodes.len() <= u32::MAX
    }

    /// The ids start at one.
    pub open spec fn numbered(self) -> bool {
        forall|i: int| 0 <= i < self.nodes.len() ==> (#[trigger] self.nodes[i]).id >= 1
    }

    /// The network can run: it is wired, its ids start at one, and every node can raise its load.
    pub open spec fn sound(self) -> bool {
        &&& self.wired()
        &&& self.numbered()
        &&& forall|i: int| 0 <= i < self.nodes.len() ==> (#[trigger] self.nodes[i]).config.valid()
    }

    /// The node is cut off: isolated, or parted from the others by a scenario.
    pub open spec fn cut(self, i: int) -> bool {
        self.nodes[i].state.mode == Mode::Isolated || self.partitioned_nodes.contains(self.nodes[i].id)
    }

    /// The network with one node changed.
    pub open spec fn with_node(self, i: int, node: NodeView) -> NetworkView {
        NetworkView { nodes: self.nodes.update(i, node), ..self }
    }

    /// The network after a scenario was set to work on the nodes at these positions.
    pub open spec fn under_attack(self, scenario: ScenarioView, targets: Seq<usize>) -> NetworkView {
        let struck = attacked(self, scenario, targets);
        match lasting(self, scenario, targets) {
            Some(effect) => NetworkView { active_effects: struck.active_effects.push(effect), ..struck },
            None => struck,
        }
    }

    /// The network with other links.
    pub open spec fn with_links(self, links: Seq<Link>) -> NetworkView {
        NetworkView { links, ..self }
    }
}

/// The networks have the same nodes with the same settings.
pub open spec fn same_nodes(a: NetworkView, b: NetworkView) -> bool {
    &&& a.nodes.len() == b.nodes.len()
    &&& forall|i: int| 0 <= i < a.nodes.len() ==> (#[trigger] a.nodes[i]).id == b.nodes[i].id && a.nodes[i].config
        == b.nodes[i].config
}

/// A network stays wired and sound while its nodes keep their ids and settings, and its links stay.
pub(crate) proof fn lemma_still_sound(a: NetworkView, b: NetworkView)
    requires
        same_nodes(a, b),
        a.links == b.links,
    ensures
        a.wired() ==> b.wired(),
        a.numbered() ==> b.numbered(),
        a.sound() ==> b.sound(),
{
    if a.wired() {
        lemma_sound_again(a, b);
    } else {
        lemma_numbered_again(a, b);
    }
}

proof fn lemma_numbered_again(a: NetworkView, b: NetworkView)
    requires
        same_nodes(a, b),
    ensures
        a.numbered() ==> b.numbered(),
{
    if a.numbered() {
        assert forall|i: int| 0 <= i < b.nodes.len() implies (#[trigger] b.nodes[i]).id >= 1 by {
            assert(a.nodes[i].id == b.nodes[i].id);
        }
    }
}

/// A network that is wired is sound while its nodes keep their ids and settings.
pub(crate) proof fn lemma_sound_again(a: NetworkView, b: NetworkView)
    requires
        same_nodes(a, b),
        b.wired(),
    ensures
        a.numbered() ==> b.numbered(),
        a.sound() ==> b.sound(),
{
    lemma_numbered_again(a, b);
    if a.sound() {
        assert forall|i: int| 0 <= i < b.nodes.len() implies (#[trigger] b.nodes[i]).config.valid() by {
            assert(a.nodes[i].id == b.nodes[i].id);
        }
    }
}

/// Changing one node in the list changes one value in the list of values.
pub(crate) proof fn lemma_node_views_update(before: Seq<Node>, after: Seq<Node>, i: int)
    requires
        0 <= i < before.len(),
        after.len() == before.len(),
        forall|k: int| 0 <= k < before.len() && k != i ==> after[k] == before[k],
    ensures
        node_views(after) == node_views(before).update(i, after[i]@),
{
    assert(node_views(after) =~= node_views(before).update(i, after[i]@));
}

/// The links of the first `n` entries of a topology.
pub open spec fn links_of(topology: Seq<(u32, Vec<u32>)>, n: nat) -> Seq<Link>
    decreases n,
{
    if n == 0 {
        seq![]
    } else {
        let (from, neighbors) = topology[n - 1];
        links_of(topology, (n - 1) as nat) + neighbors@.map_values(
            |to: u32| Link { from: (from - 1) as usize, to: (to - 1) as usize, active: true, virtual_link: false },
        )
    }
}

impl Network {
    pub fn new(
        nodes: Vec<Node>,
        links: Vec<Link>,
        tick: u64,
        config: Arc<Config>,
        max_ticks: u64,
        finished: bool,
    ) -> (n: Self)
        ensures
            n@ == (NetworkView {
                nodes: node_views(nodes@),
                links: links@,
                tick,
                config: *config,
                max_ticks,
                finished,
                active_effects: seq![],
                recent_lifecycle: seq![],
                partitioned_nodes: set![],
                recovered_at_tick: map![],
            }),
    {
        let n = Network {
            nodes,
            links,
            tick,
            config,
            max_ticks,
            finished,
            active_effects: Vec::new(),
            recent_lifecycle: VecDeque::new(),
            partitioned_nodes: HashSet::new(),
            recovered_at_tick: HashMap::new(),
        };
        proof {
            assert(n@.active_effects =~= seq![]);
            assert(n@.recent_lifecycle =~= seq![]);
            assert(n@.partitioned_nodes =~= set![]);
            assert(n@.recovered_at_tick =~= map![]);
        }
        n
    }

    /// The links of a topology, which lists each node's id with the ids of its neighbours.
    pub fn build_links(topology: &Vec<(u32, Vec<u32>)>) -> (links: Vec<Link>)
        requires
            forall|i: int|
                0 <= i < topology@.len() ==> (#[trigger] topology@[i]).0 >= 1 && forall|k: int|
                    0 <= k < topology@[i].1@.len() ==> (#[trigger] topology@[i].1@[k]) >= 1,
        ensures
            links@ == links_of(topology@, topology@.len()),
    {
        let mut links: Vec<Link> = Vec::new();
        let mut i: usize = 0;
        while i < topology.len()
            invariant
                i <= topology@.len(),
                forall|i: int|
                    0 <= i < topology@.len() ==> (#[trigger] topology@[i]).0 >= 1 && forall|k: int|
                        0 <= k < topology@[i].1@.len() ==> (#[trigger] topology@[i].1@[k]) >= 1,
                links@ == links_of(topology@, i as nat),
            decreases topology@.len() - i,
        {
            let from: u32 = topology[i].0;
            let neighbors = &topology[i].1;
            let ghost start = links@;
            let ghost f = |to: u32|
                Link { from: (from - 1) as usize, to: (to - 1) as usize, active: true, virtual_link: false };
            let mut k: usize = 0;
            assert(links@ =~= start + neighbors@.take(0).map_values(f));
            while k < neighbors.len()
                invariant
                    k <= neighbors@.len(),
                    from >= 1,
                    forall|k: int| 0 <= k < neighbors@.len() ==> (#[trigger] neighbors@[k]) >= 1,
                    f == (|to: u32|
                        Link { from: (from - 1) as usize, to: (to - 1) as usize, active: true, virtual_link: false }),
                    links@ == start + neighbors@.take(k as int).map_values(f),
                decreases neighbors@.len() - k,
            {
                let to: u32 = neighbors[k];
                links.push(
                    Link { from: (from - 1) as usize, to: (to - 1) as usize, active: true, virtual_link: false },
                );
                proof {
                    assert(neighbors@.take(k + 1) =~= neighbors@.take(k as int).push(to));
                    assert(links@ =~= start + neighbors@.take(k + 1).map_values(f));
                }
                k = k + 1;
            }
            assert(neighbors@.take(k as int) =~= neighbors@);
            i = i + 1;
        }
        links
    }

    /// Sets a scenario to work.
    pub fn apply_scenario(&mut self, scenario: AttackScenario)
        requires
            old(self)@.wired(),
        ensures
            exists|targets: Seq<usize>| #[trigger]
                resolves(scenario.target, old(self)@, targets) && final(self)@ == old(self)@.under_attack(
                    scenario@,
                    targets,
                ),
            same_nodes(old(self)@, final(self)@),
            final(self)@.wired(),
            old(self)@.sound() ==> final(self)@.sound(),
    {
        let targets = scenario.target.resolve(self);
        self.apply_scenario_to(&scenario, targets);
    }

    /// Sets a scenario to work on the nodes at these positions.
    pub fn apply_scenario_to(&mut self, scenario: &AttackScenario, targets: Vec<usize>)
        requires
            old(self)@.wired(),
            forall|k: int| 0 <= k < targets@.len() ==> (#[trigger] targets@[k]) < old(self).nodes@.len(),
        ensures
            final(self)@ == old(self)@.under_attack(scenario@, targets@),
            same_nodes(old(self)@, final(self)@),
            final(self)@.wired(),
            old(self)@.sound() ==> final(self)@.sound(),
    {
        match ScenarioEngine::apply_to(self, scenario, targets) {
            Some(effect) => {
                let ghost struck = self@;
                let ghost before = self.active_effects@;
                let ghost e = effect@;
                self.active_effects.push(effect);
                proof {
                    assert(effect_views(self.active_effects@) =~= effect_views(before).push(e));
                    lemma_still_sound(struck, self@);
                }
            },
            None => {},
        }
    }

    /// The position of the node with this id.
    pub(crate) fn index_of(&self, id: u32) -> (at: Option<usize>)
        ensures
            at == position(self@.ids(), id),
            is_position(self@.ids(), id, at),
    {
        let mut i: usize = 0;
        let ghost ids = self@.ids();
        while i < self.nodes.len()
            invariant
                i <= self.nodes@.len(),
                ids == self@.ids(),
                forall|k: int| 0 <= k < i ==> ids[k] != id,
            decreases self.nodes@.len() - i,
        {
            assert(ids[i as int] == self.nodes@[i as int].id);
            if self.nodes[i].id == id {
                proof {
                    lemma_position(ids, id, Some(i));
                }
                return Some(i);
            }
            i = i + 1;
        }
        proof {
            lemma_position(ids, id, None);
        }
        None
    }
}

} // verus!
