//! One tick of the network.
//!
//! The models are asked twice in a tick, so it runs in three steps: [`Network::tick`] spreads the
//! news and hands out the questions for the neighbour model, [`Network::tick_votes`] takes the
//! replies, and [`Network::tick_decisions`] takes the replies of the nodes' own models to
//! [`Network::questions`].

use std::collections::HashSet;

use vstd::prelude::*;

use crate::ai_module::{self_features, AIFeatureBuilder, AIInput, AIOutput, NeighborAIInput, NeighborInputView};
use crate::network::topology_map::Link;
use crate::network::world::{lemma_steady, steady, world, World};
use crate::network::{
    lemma_node_views_update, lemma_sound_again, lemma_still_sound, same_nodes, Network, NetworkView,
    RECENT_LIFECYCLE_CAPACITY,
};
use crate::node::ai_processes::recommendation;
use crate::node::bridges::position;
use crate::node::decisions::last_of;
use crate::node::signals::signal_views;
use crate::node::tick::Asking;
use crate::node::topology::{leads_from, linked_ids, neighbor_input_views, node_ids};
use crate::node::{ai_decision_views, lifecycle_views, NodeSignal, NodeView, SignalType, SignalView, StateView};
use crate::persistence::{AiDecisionEntry, JournalView, LifecycleEntry, LifecycleView, NetworkLogger};
use crate::scenarios::engine::{advanced, ScenarioEngine};
use crate::scenarios::{effect_views, ActiveEffect};
use crate::single::Single;

verus! {

broadcast use vstd::std_specs::hash::group_hash_axioms;

/// The replies for the node at a position; none where the list is too short.
pub open spec fn replies_at(replies: Seq<Vec<Option<Single>>>, i: int) -> Seq<Option<Single>> {
    if 0 <= i < replies.len() { replies[i]@ } else { seq![] }
}

impl NodeView {
    /// The signal that the node sends to all of its neighbours.
    pub open spec fn broadcast(self, tick: u64) -> SignalView {
        self.signal(None, self.broadcast_type(), tick)
    }

    /// What the node advises its neighbours, if it has anything to tell.
    pub open spec fn advice(self, tick: u64) -> Option<SignalView> {
        match self.state.pending_load_signal {
            Some(fact) => Some(
                self.signal(
                    None,
                    match fact {
                        SignalType::LoadReduced => SignalType::ReduceLoad,
                        SignalType::LoadBoosted => SignalType::BoostLoad,
                        other => other,
                    },
                    tick,
                ),
            ),
            None => None,
        }
    }

    /// The node when it has nothing more to tell.
    pub open spec fn told_all(self) -> NodeView {
        NodeView { state: StateView { pending_load_signal: None, ..self.state }, ..self }
    }

    pub open spec fn with_neighbors(self, neighbor_ids: Seq<u32>) -> NodeView {
        NodeView { neighbor_ids, ..self }
    }

    /// The node when its decisions have been logged.
    pub open spec fn without_lifecycle(self) -> NodeView {
        NodeView { pending_lifecycle: seq![], ..self }
    }

    /// The node when its model's answers have been logged.
    pub open spec fn without_answers(self) -> NodeView {
        NodeView { pending_ai_decisions: seq![], ..self }
    }
}

impl NetworkView {
    /// The network in its next tick.
    pub open spec fn next_tick(self) -> NetworkView {
        NetworkView { tick: (self.tick + 1) as u64, ..self }
    }

    /// What every node sends to its neighbours, by position.
    pub open spec fn broadcasts(self) -> Seq<SignalView> {
        self.nodes.map_values(|n: NodeView| n.broadcast(self.tick))
    }

    /// What the neighbour model is to be asked, by position.
    pub open spec fn suspicion_questions(self) -> Seq<Seq<NeighborInputView>> {
        self.nodes.map_values(|n: NodeView| n.suspicion_questions(self.tick))
    }

    /// The votes of every node, by position.
    pub open spec fn votes(self, replies: Seq<Vec<Option<Single>>>) -> Seq<Seq<SignalView>> {
        Seq::new(
            self.nodes.len(),
            |i: int|
                self.nodes[i].accusations(
                    self.tick,
                    replies_at(replies, i),
                    self.nodes[i].watched(self.tick).len(),
                ),
        )
    }

    /// The network after every node has cast its votes.
    pub open spec fn accusing(self, replies: Seq<Vec<Option<Single>>>) -> NetworkView {
        NetworkView {
            nodes: Seq::new(self.nodes.len(), |i: int| self.nodes[i].accusing(self.tick, replies_at(replies, i))),
            ..self
        }
    }

    /// An active link leads from one position to the other.
    pub open spec fn linked(self, from: usize, to: usize) -> bool {
        exists|i: int|
            0 <= i < self.links.len() && (#[trigger] self.links[i]).active && self.links[i].from == from
                && self.links[i].to == to
    }

    /// The network when every node knows whom its active links lead to.
    pub open spec fn acquainted(self) -> NetworkView {
        NetworkView {
            nodes: self.nodes.map_values(|n: NodeView| n.with_neighbors(linked_ids(n.id, self.links, self.ids()))),
            ..self
        }
    }

    /// The network after the first step of every node's tick.
    pub open spec fn begun(self, recorded_at: u64) -> NetworkView {
        NetworkView { nodes: self.nodes.map_values(|n: NodeView| n.begun(self.tick, recorded_at).0), ..self }
    }

    /// What the nodes need their models for, by position.
    pub open spec fn askings(self, recorded_at: u64) -> Seq<Asking> {
        self.nodes.map_values(|n: NodeView| n.begun(self.tick, recorded_at).1)
    }

    /// The network after the second step of every node's tick.
    pub open spec fn resumed(
        self,
        askings: Seq<Asking>,
        predictions: Seq<Result<AIOutput, String>>,
        recorded_at: u64,
    ) -> NetworkView {
        NetworkView {
            nodes: Seq::new(
                self.nodes.len(),
                |i: int|
                    self.nodes[i].resumed(
                        askings[i],
                        recommendation(self.nodes[i].ai, predictions[i]),
                        self.tick,
                        recorded_at,
                    ),
            ),
            ..self
        }
    }

    /// What the nodes advise, by position.
    pub open spec fn advices(self) -> Seq<Option<SignalView>> {
        self.nodes.map_values(|n: NodeView| n.advice(self.tick))
    }

    /// The network when no node has anything more to tell.
    pub open spec fn all_told(self) -> NetworkView {
        NetworkView { nodes: self.nodes.map_values(|n: NodeView| n.told_all()), ..self }
    }

    /// What the first `n` nodes have to log of their decisions.
    pub open spec fn records(self, n: nat) -> Seq<LifecycleView>
        decreases n,
    {
        if n == 0 {
            seq![]
        } else {
            self.records((n - 1) as nat) + self.nodes[n - 1].pending_lifecycle
        }
    }

    /// The network with its record of decisions cut to the last ones.
    pub open spec fn trimmed(self) -> NetworkView {
        NetworkView {
            recent_lifecycle: last_of(self.recent_lifecycle, RECENT_LIFECYCLE_CAPACITY as nat),
            ..self
        }
    }

    /// The network after a tick of all scenarios.
    pub open spec fn affected(self) -> NetworkView {
        let (after, active) = advanced(
            NetworkView { active_effects: seq![], ..self },
            self.active_effects,
            self.active_effects.len(),
        );
        NetworkView { active_effects: active, ..after }
    }

    /// The network after the links and scenarios have had their turn.
    pub open spec fn maintained(self) -> NetworkView {
        let cut_before = self.cut_ids(self.nodes.len());
        self.synced().affected().synced().marked(cut_before).cleaned().flooded()
    }

    /// The network ends with its last tick.
    pub open spec fn concluded(self) -> NetworkView {
        NetworkView { finished: self.finished || self.tick >= self.max_ticks, ..self }
    }
}

impl World {
    /// The signals of all nodes go along the first `n` links.
    pub open spec fn broadcast(self, signals: Seq<SignalView>, recorded_at: u64, n: nat) -> World
        decreases n,
    {
        if n == 0 {
            self
        } else {
            let before = self.broadcast(signals, recorded_at, (n - 1) as nat);
            let l = self.net.links[n - 1];
            if l.active {
                before.delivered(signals[l.from as int], l.to as int, recorded_at)
            } else {
                before
            }
        }
    }

    /// The first step of a tick.
    pub open spec fn ticked(self, recorded_at: u64) -> World {
        if self.net.finished {
            self
        } else {
            let next = World { net: self.net.next_tick(), ..self };
            next.broadcast(next.net.broadcasts(), recorded_at, next.net.links.len())
        }
    }

    /// A vote reaches the accused if a link leads there.
    pub open spec fn vote_cast(self, sender_id: u32, vote: SignalView, recorded_at: u64) -> World {
        match (position(self.net.ids(), sender_id), self.net.addressee(vote)) {
            (Some(from), Some(to)) => if self.net.linked(from, to) {
                self.delivered(vote, to as int, recorded_at)
            } else {
                self
            },
            _ => self,
        }
    }

    /// The first `n` votes of a node.
    pub open spec fn votes_cast(self, sender_id: u32, votes: Seq<SignalView>, recorded_at: u64, n: nat) -> World
        decreases n,
    {
        if n == 0 {
            self
        } else {
            self.votes_cast(sender_id, votes, recorded_at, (n - 1) as nat).vote_cast(
                sender_id,
                votes[n - 1],
                recorded_at,
            )
        }
    }

    /// The votes of the first `n` nodes.
    pub open spec fn all_votes_cast(self, votes: Seq<Seq<SignalView>>, recorded_at: u64, n: nat) -> World
        decreases n,
    {
        if n == 0 {
            self
        } else {
            self.all_votes_cast(votes, recorded_at, (n - 1) as nat).votes_cast(
                self.net.nodes[n - 1].id,
                votes[n - 1],
                recorded_at,
                votes[n - 1].len(),
            )
        }
    }

    /// The world after the votes, when every node knows its neighbours.
    pub open spec fn voted(self, replies: Seq<Vec<Option<Single>>>, recorded_at: u64) -> World {
        let votes = self.net.votes(replies);
        let cast = World { net: self.net.accusing(replies), ..self };
        let after = cast.all_votes_cast(votes, recorded_at, votes.len());
        World { net: after.net.acquainted(), ..after }
    }

    /// The decisions of the first `n` nodes are logged.
    pub open spec fn decisions_logged(self, n: nat) -> World
        decreases n,
    {
        if n == 0 {
            self
        } else {
            let before = self.decisions_logged((n - 1) as nat);
            let entries = self.net.nodes[n - 1].pending_lifecycle;
            let net = before.net.with_node(n - 1, self.net.nodes[n - 1].without_lifecycle());
            World {
                net: NetworkView { recent_lifecycle: net.recent_lifecycle + entries, ..net },
                log: JournalView {
                    lifecycle: before.log.lifecycle.pushed_all(entries, self.net.tick, entries.len()),
                    ..before.log
                },
            }
        }
    }

    /// All decisions are logged, and the last ones kept for show.
    pub open spec fn all_decisions_logged(self) -> World {
        let after = self.decisions_logged(self.net.nodes.len());
        World { net: after.net.trimmed(), ..after }
    }

    /// The models' answers to the first `n` nodes are logged.
    pub open spec fn answers_logged(self, n: nat) -> World
        decreases n,
    {
        if n == 0 {
            self
        } else {
            let before = self.answers_logged((n - 1) as nat);
            let entries = self.net.nodes[n - 1].pending_ai_decisions;
            World {
                net: before.net.with_node(n - 1, self.net.nodes[n - 1].without_answers()),
                log: JournalView {
                    ai_decisions: before.log.ai_decisions.pushed_all(entries, self.net.tick, entries.len()),
                    ..before.log
                },
            }
        }
    }

    /// The advice of the first `n` nodes goes to their neighbours.
    pub open spec fn advised(self, advices: Seq<Option<SignalView>>, recorded_at: u64, n: nat) -> World
        decreases n,
    {
        if n == 0 {
            self
        } else {
            let before = self.advised(advices, recorded_at, (n - 1) as nat);
            match advices[n - 1] {
                Some(signal) => before.sent(signal, n - 1, recorded_at, before.net.links.len()),
                None => before,
            }
        }
    }

    /// What all nodes have to tell goes to their neighbours.
    pub open spec fn all_advised(self, recorded_at: u64) -> World {
        let told = World { net: self.net.all_told(), ..self };
        told.advised(self.net.advices(), recorded_at, self.net.nodes.len())
    }

    /// The nodes end their ticks, and what came of it is logged.
    #[verifier::opaque]
    pub open spec fn resumed(
        self,
        askings: Seq<Asking>,
        predictions: Seq<Result<AIOutput, String>>,
        recorded_at: u64,
    ) -> World {
        let resumed = World { net: self.net.resumed(askings, predictions, recorded_at), ..self };
        let logged = resumed.all_decisions_logged();
        logged.answers_logged(logged.net.nodes.len())
    }

    /// The nodes tell their neighbours, and the handshakes go on.
    #[verifier::opaque]
    pub open spec fn settled(self, recorded_at: u64) -> World {
        self.all_advised(recorded_at).handshaken(recorded_at).all_decisions_logged()
    }

    /// The network follows, and the tick ends.
    #[verifier::opaque]
    pub open spec fn closed(self, recorded_at: u64) -> World {
        let maintained = World { net: self.net.maintained(), ..self };
        let healed = maintained.healed(recorded_at);
        World { net: healed.net.concluded(), log: healed.log.flushed(healed.net.tick) }
    }

    /// The decisions of a tick: those of the nodes' ticks, and then those of the handshakes, both by node.
    pub open spec fn tick_records(
        self,
        askings: Seq<Asking>,
        predictions: Seq<Result<AIOutput, String>>,
        recorded_at: u64,
    ) -> Seq<LifecycleView> {
        let ended = self.net.resumed(askings, predictions, recorded_at);
        let shaken = self.resumed(askings, predictions, recorded_at).all_advised(recorded_at).handshaken(recorded_at);
        ended.records(ended.nodes.len()) + shaken.net.records(shaken.net.nodes.len())
    }

    /// The world after the second step of a tick.
    pub open spec fn polled(self, replies: Seq<Vec<Option<Single>>>, recorded_at: u64) -> World {
        let voted = self.voted(replies, recorded_at);
        World { net: voted.net.begun(recorded_at), ..voted }
    }

    /// The last step of a tick.
    pub open spec fn decided(
        self,
        askings: Seq<Asking>,
        predictions: Seq<Result<AIOutput, String>>,
        recorded_at: u64,
    ) -> World {
        self.resumed(askings, predictions, recorded_at).settled(recorded_at).closed(recorded_at)
    }
}

pub open spec fn question_views(questions: Seq<Vec<NeighborAIInput>>) -> Seq<Seq<NeighborInputView>> {
    questions.map_values(|v: Vec<NeighborAIInput>| neighbor_input_views(v@))
}

pub open spec fn vote_views(votes: Seq<Vec<NodeSignal>>) -> Seq<Seq<SignalView>> {
    votes.map_values(|v: Vec<NodeSignal>| signal_views(v@))
}

/// The value of a signal that may not be there.
pub open spec fn advice_view(s: Option<NodeSignal>) -> Option<SignalView> {
    match s {
        Some(s) => Some(s@),
        None => None,
    }
}

pub open spec fn advice_views(advices: Seq<Option<NodeSignal>>) -> Seq<Option<SignalView>> {
    advices.map_values(|s: Option<NodeSignal>| advice_view(s))
}

impl Network {
    /// The first step of a tick: every node's signal goes to its neighbours. Hands out what the
    /// neighbour model is to be asked for each node, or nothing where the simulation is over.
    pub fn tick(&mut self, logger: &mut NetworkLogger, recorded_at: u64) -> (questions: Option<Vec<Vec<NeighborAIInput>>>)
        requires
            old(self)@.wired(),
            !old(self).finished ==> old(self).tick < u64::MAX,
        ensures
            world(final(self)@, final(logger)@) == world(old(self)@, old(logger)@).ticked(recorded_at),
            same_nodes(old(self)@, final(self)@),
            final(self)@.wired(),
            old(self)@.sound() ==> final(self)@.sound(),
            questions is None <==> old(self).finished,
            questions matches Some(q) ==> question_views(q@) == final(self)@.suspicion_questions(),
    {
        if self.finished {
            return None;
        }
        let ghost first = self@;
        self.tick = self.tick + 1;
        let ghost start = world(self@, logger@);
        assert(start.net =~= first.next_tick());
        let tick: u64 = self.tick;
        let mut signals: Vec<NodeSignal> = Vec::new();
        let mut i: usize = 0;
        while i < self.nodes.len()
            invariant
                i <= self.nodes@.len(),
                self@ == start.net,
                tick == start.net.tick,
                signals@.len() == i,
                forall|k: int| 0 <= k < i ==> (#[trigger] signals@[k])@ == start.net.broadcasts()[k],
            decreases self.nodes@.len() - i,
        {
            assert(start.net.nodes[i as int] == self.nodes@[i as int]@);
            signals.push(self.nodes[i].generate_broadcast_signal(tick));
            i = i + 1;
        }
        let ghost sent = start.net.broadcasts();
        let mut i: usize = 0;
        while i < self.links.len()
            invariant
                i <= self.links@.len(),
                start.net.wired(),
                steady(start.net, self@),
                sent == start.net.broadcasts(),
                signals@.len() == start.net.nodes.len(),
                forall|k: int| 0 <= k < signals@.len() ==> (#[trigger] signals@[k])@ == sent[k],
                world(self@, logger@) == start.broadcast(sent, recorded_at, i as nat),
            decreases self.links@.len() - i,
        {
            let l: Link = self.links[i];
            assert(start.net.links[i as int] == l);
            if l.active {
                assert(signals@[l.from as int]@ == sent[l.from as int]);
                self.deliver(logger, signals[l.from].clone(), l.to, recorded_at);
            }
            i = i + 1;
        }
        proof {
            lemma_steady(start.net, self@);
        }
        let ghost after = self@;
        let tick: u64 = self.tick;
        let mut questions: Vec<Vec<NeighborAIInput>> = Vec::new();
        let mut i: usize = 0;
        while i < self.nodes.len()
            invariant
                i <= self.nodes@.len(),
                self@ == after,
                tick == after.tick,
                questions@.len() == i,
                forall|k: int| 0 <= k < i ==> (#[trigger] question_views(questions@)[k]) == after.suspicion_questions()[k],
            decreases self.nodes@.len() - i,
        {
            assert(after.nodes[i as int] == self.nodes@[i as int]@);
            let ghost before = questions@;
            let inputs = self.nodes[i].suspicion_inputs(tick);
            let ghost q = neighbor_input_views(inputs@);
            questions.push(inputs);
            assert(question_views(questions@) =~= question_views(before).push(q));
            i = i + 1;
        }
        assert(question_views(questions@) =~= after.suspicion_questions());
        Some(questions)
    }

    /// Whether an active link leads from one position to the other.
    fn has_link(&self, from: usize, to: usize) -> (b: bool)
        ensures
            b == self@.linked(from, to),
    {
        let ghost net = self@;
        let mut i: usize = 0;
        while i < self.links.len()
            invariant
                i <= self.links@.len(),
                net == self@,
                forall|k: int|
                    0 <= k < i ==> !((#[trigger] net.links[k]).active && net.links[k].from == from && net.links[k].to
                        == to),
            decreases self.links@.len() - i,
        {
            let l: Link = self.links[i];
            assert(net.links[i as int] == l);
            if l.active && l.from == from && l.to == to {
                return true;
            }
            i = i + 1;
        }
        false
    }

    /// Brings a vote to the accused if a link leads there.
    fn cast_vote(&mut self, logger: &mut NetworkLogger, sender_id: u32, vote: &NodeSignal, recorded_at: u64)
        ensures
            world(final(self)@, final(logger)@) == world(old(self)@, old(logger)@).vote_cast(
                sender_id,
                vote@,
                recorded_at,
            ),
            steady(old(self)@, final(self)@),
    {
        match vote.target_id {
            Some(target_id) => {
                match (self.index_of(sender_id), self.index_of(target_id)) {
                    (Some(from), Some(to)) => {
                        if self.has_link(from, to) {
                            self.deliver(logger, vote.clone(), to, recorded_at);
                        }
                    },
                    _ => {},
                }
            },
            None => {},
        }
    }

    fn cast_votes(&mut self, logger: &mut NetworkLogger, sender_id: u32, votes: &Vec<NodeSignal>, recorded_at: u64)
        ensures
            world(final(self)@, final(logger)@) == world(old(self)@, old(logger)@).votes_cast(
                sender_id,
                signal_views(votes@),
                recorded_at,
                votes@.len(),
            ),
            steady(old(self)@, final(self)@),
    {
        let ghost start = world(self@, logger@);
        let ghost all = signal_views(votes@);
        let mut i: usize = 0;
        while i < votes.len()
            invariant
                i <= votes@.len(),
                all == signal_views(votes@),
                steady(start.net, self@),
                world(self@, logger@) == start.votes_cast(sender_id, all, recorded_at, i as nat),
            decreases votes@.len() - i,
        {
            assert(all[i as int] == votes@[i as int]@);
            self.cast_vote(logger, sender_id, &votes[i], recorded_at);
            i = i + 1;
        }
    }

    /// Lets every node know whom its active links lead to.
    fn acquaint(&mut self)
        requires
            old(self)@.wired(),
            old(self)@.numbered(),
        ensures
            final(self)@ == old(self)@.acquainted(),
            steady(old(self)@, final(self)@),
    {
        let ghost start = self@;
        let mut i: usize = 0;
        while i < self.nodes.len()
            invariant
                i <= self.nodes@.len(),
                start.wired(),
                start.numbered(),
                self.nodes@.len() == start.nodes.len(),
                forall|k: int| 0 <= k < i ==> (#[trigger] self@.nodes[k]) == start.acquainted().nodes[k],
                forall|k: int| i <= k < start.nodes.len() ==> (#[trigger] self@.nodes[k]) == start.nodes[k],
                self@ == (NetworkView { nodes: self@.nodes, ..start }),
                steady(start, self@),
            decreases self.nodes@.len() - i,
        {
            let ghost before = self.nodes@;
            proof {
                lemma_steady(start, self@);
                assert(self@.nodes[i as int] == before[i as int]@);
                assert(self@.nodes[i as int].id >= 1);
                assert(node_ids(self.nodes@) =~= self@.ids());
                assert forall|k: int|
                    0 <= k < self.links@.len() && leads_from(#[trigger] self.links@[k], before[i as int].id) implies self.links@[k].to
                    < self.nodes@.len() by {
                    assert(start.links[k].to < start.nodes.len());
                }
            }
            let ids = self.nodes[i].current_neighbors(&self.links, &self.nodes);
            self.nodes[i].neighbor_ids = ids;
            proof {
                lemma_node_views_update(before, self.nodes@, i as int);
                assert(self.nodes@[i as int]@ =~= start.acquainted().nodes[i as int]);
            }
            i = i + 1;
        }
        assert(self@.nodes =~= start.acquainted().nodes);
    }

    /// Lets every node cast its votes, given the neighbour model's replies.
    fn collect_votes(&mut self, replies: &Vec<Vec<Option<Single>>>) -> (votes: Vec<Vec<NodeSignal>>)
        ensures
            vote_views(votes@) == old(self)@.votes(replies@),
            final(self)@ == old(self)@.accusing(replies@),
            steady(old(self)@, final(self)@),
    {
        let ghost start = self@;
        let tick: u64 = self.tick;
        let none: Vec<Option<Single>> = Vec::new();
        assert(none@ =~= seq![]);
        let mut votes: Vec<Vec<NodeSignal>> = Vec::new();
        let mut i: usize = 0;
        let ghost all = start.votes(replies@);
        while i < self.nodes.len()
            invariant
                i <= self.nodes@.len(),
                tick == start.tick,
                self.nodes@.len() == start.nodes.len(),
                none@ == Seq::<Option<Single>>::empty(),
                all == start.votes(replies@),
                votes@.len() == i,
                forall|k: int| 0 <= k < i ==> (#[trigger] vote_views(votes@)[k]) == all[k],
                forall|k: int| 0 <= k < i ==> (#[trigger] self@.nodes[k]) == start.accusing(replies@).nodes[k],
                forall|k: int| i <= k < start.nodes.len() ==> (#[trigger] self@.nodes[k]) == start.nodes[k],
                self@ == (NetworkView { nodes: self@.nodes, ..start }),
                steady(start, self@),
            decreases self.nodes@.len() - i,
        {
            let ghost nodes = self.nodes@;
            assert(self@.nodes[i as int] == nodes[i as int]@);
            let ghost before = votes@;
            let cast = if i < replies.len() {
                self.nodes[i].generate_peer_suspicion_signals(tick, &replies[i])
            } else {
                self.nodes[i].generate_peer_suspicion_signals(tick, &none)
            };
            let ghost c = signal_views(cast@);
            proof {
                lemma_node_views_update(nodes, self.nodes@, i as int);
                assert(c == all[i as int]);
            }
            votes.push(cast);
            assert(vote_views(votes@) =~= vote_views(before).push(c));
            i = i + 1;
        }
        proof {
            assert(vote_views(votes@) =~= all);
            assert(self@.nodes =~= start.accusing(replies@).nodes);
        }
        votes
    }

    /// Brings all votes to the accused.
    fn cast_all_votes(&mut self, logger: &mut NetworkLogger, votes: &Vec<Vec<NodeSignal>>, recorded_at: u64)
        requires
            votes@.len() == old(self).nodes@.len(),
        ensures
            world(final(self)@, final(logger)@) == world(old(self)@, old(logger)@).all_votes_cast(
                vote_views(votes@),
                recorded_at,
                votes@.len(),
            ),
            steady(old(self)@, final(self)@),
    {
        let ghost start = world(self@, logger@);
        let ghost all = vote_views(votes@);
        let mut i: usize = 0;
        while i < votes.len()
            invariant
                i <= votes@.len(),
                votes@.len() == self.nodes@.len(),
                vote_views(votes@) == all,
                steady(start.net, self@),
                world(self@, logger@) == start.all_votes_cast(all, recorded_at, i as nat),
            decreases votes@.len() - i,
        {
            let id: u32 = self.nodes[i].id;
            proof {
                assert(self@.nodes[i as int] == self.nodes@[i as int]@);
                assert(start.net.nodes[i as int].id == id);
                assert(vote_views(votes@)[i as int] == signal_views(votes@[i as int]@));
            }
            self.cast_votes(logger, id, &votes[i], recorded_at);
            i = i + 1;
        }
    }

    /// The second step of a tick, with the neighbour model's replies for each node (`None` where it
    /// did not answer): the votes are cast, and every node begins its own tick. Hands out what each
    /// node needs its model for.
    pub fn tick_votes(
        &mut self,
        logger: &mut NetworkLogger,
        replies: &Vec<Vec<Option<Single>>>,
        recorded_at: u64,
    ) -> (askings: Vec<Asking>)
        requires
            old(self)@.sound(),
        ensures
            ({
                let voted = world(old(self)@, old(logger)@).voted(replies@, recorded_at);
                &&& world(final(self)@, final(logger)@) == world(old(self)@, old(logger)@).polled(
                    replies@,
                    recorded_at,
                )
                &&& askings@ == voted.net.askings(recorded_at)
            }),
            same_nodes(old(self)@, final(self)@),
            final(self)@.sound(),
    {
        let ghost start = world(self@, logger@);
        let votes = self.collect_votes(replies);
        assert(vote_views(votes@).len() == votes@.len());
        let ghost cast = self@;
        proof {
            lemma_steady(start.net, cast);
        }
        self.cast_all_votes(logger, &votes, recorded_at);
        let ghost middle = self@;
        proof {
            lemma_steady(cast, middle);
        }
        self.acquaint();
        proof {
            lemma_steady(middle, self@);
        }
        self.begin_all(recorded_at)
    }

    /// The first step of every node's tick.
    fn begin_all(&mut self, recorded_at: u64) -> (askings: Vec<Asking>)
        requires
            old(self)@.sound(),
        ensures
            final(self)@ == old(self)@.begun(recorded_at),
            askings@ == old(self)@.askings(recorded_at),
            steady(old(self)@, final(self)@),
            final(self)@.sound(),
    {
        let ghost start = self@;
        let tick: u64 = self.tick;
        let mut askings: Vec<Asking> = Vec::new();
        let mut i: usize = 0;
        while i < self.nodes.len()
            invariant
                i <= self.nodes@.len(),
                start.sound(),
                tick == start.tick,
                self.nodes@.len() == start.nodes.len(),
                askings@.len() == i,
                forall|k: int| 0 <= k < i ==> (#[trigger] askings@[k]) == start.askings(recorded_at)[k],
                forall|k: int| 0 <= k < i ==> (#[trigger] self@.nodes[k]) == start.begun(recorded_at).nodes[k],
                forall|k: int| i <= k < start.nodes.len() ==> (#[trigger] self@.nodes[k]) == start.nodes[k],
                self@ == (NetworkView { nodes: self@.nodes, ..start }),
                steady(start, self@),
            decreases self.nodes@.len() - i,
        {
            let ghost before = self.nodes@;
            proof {
                assert(self@.nodes[i as int] == before[i as int]@);
                assert(start.nodes[i as int].config.valid());
            }
            let asking = self.nodes[i].tick(tick, recorded_at);
            proof {
                lemma_node_views_update(before, self.nodes@, i as int);
                start.nodes[i as int].lemma_begun_keeps(tick, recorded_at);
            }
            askings.push(asking);
            i = i + 1;
        }
        proof {
            assert(self@.nodes =~= start.begun(recorded_at).nodes);
            assert(askings@ =~= start.askings(recorded_at));
            lemma_steady(start, self@);
        }
        askings
    }

    /// What the nodes' own models are to be asked: one question for each node that needs its model
    /// and can ask it.
    pub fn questions(&self, askings: &Vec<Asking>) -> (questions: Vec<Option<AIInput>>)
        requires
            askings@.len() == self.nodes@.len(),
        ensures
            questions@.len() == self.nodes@.len(),
            forall|i: int|
                #![trigger questions@[i]]
                0 <= i < questions@.len() ==> {
                    &&& questions@[i] is Some <==> askings@[i] != Asking::Nothing && !self.nodes@[i].ai.overridden
                    &&& questions@[i] matches Some(q) ==> q@ == self_features(self@.nodes[i], self.tick)
                },
    {
        let mut questions: Vec<Option<AIInput>> = Vec::new();
        let mut i: usize = 0;
        while i < self.nodes.len()
            invariant
                i <= self.nodes@.len(),
                askings@.len() == self.nodes@.len(),
                questions@.len() == i,
                forall|i: int|
                    #![trigger questions@[i]]
                    0 <= i < questions@.len() ==> {
                        &&& questions@[i] is Some <==> askings@[i] != Asking::Nothing && !self.nodes@[i].ai.overridden
                        &&& questions@[i] matches Some(q) ==> q@ == self_features(self@.nodes[i], self.tick)
                    },
            decreases self.nodes@.len() - i,
        {
            assert(self@.nodes[i as int] == self.nodes@[i as int]@);
            if askings[i] != Asking::Nothing && !self.nodes[i].ai.is_overridden() {
                questions.push(Some(AIFeatureBuilder::build(&self.nodes[i], self.tick)));
            } else {
                questions.push(None);
            }
            i = i + 1;
        }
        questions
    }
}

impl Network {
    /// The second step of every node's tick.
    fn resume_all(&mut self, askings: &Vec<Asking>, predictions: Vec<Result<AIOutput, String>>, recorded_at: u64)
        requires
            old(self)@.sound(),
            askings@.len() == old(self).nodes@.len(),
            predictions@.len() == old(self).nodes@.len(),
        ensures
            final(self)@ == old(self)@.resumed(askings@, predictions@, recorded_at),
            steady(old(self)@, final(self)@),
            final(self)@.sound(),
    {
        let ghost start = self@;
        let ghost all = predictions@;
        let tick: u64 = self.tick;
        let mut i: usize = 0;
        for reply in it: predictions
            invariant
                it.seq() == all,
                i == it.index(),
                all.len() == start.nodes.len(),
                askings@.len() == start.nodes.len(),
                start.sound(),
                tick == start.tick,
                self.nodes@.len() == start.nodes.len(),
                forall|k: int|
                    0 <= k < i ==> (#[trigger] self@.nodes[k]) == start.resumed(askings@, all, recorded_at).nodes[k],
                forall|k: int| i <= k < start.nodes.len() ==> (#[trigger] self@.nodes[k]) == start.nodes[k],
                self@ == (NetworkView { nodes: self@.nodes, ..start }),
                steady(start, self@),
        {
            let ghost before = self.nodes@;
            proof {
                assert(self@.nodes[i as int] == before[i as int]@);
                assert(start.nodes[i as int].config.valid());
                assert(all[i as int] == reply);
            }
            self.nodes[i].resume(askings[i], reply, tick, recorded_at);
            proof {
                lemma_node_views_update(before, self.nodes@, i as int);
                start.nodes[i as int].lemma_resumed_keeps(
                    askings@[i as int],
                    recommendation(start.nodes[i as int].ai, all[i as int]),
                    tick,
                    recorded_at,
                );
            }
            i = i + 1;
        }
        proof {
            assert(self@.nodes =~= start.resumed(askings@, all, recorded_at).nodes);
            lemma_steady(start, self@);
        }
    }

    /// Logs the decisions of the node at a position.
    fn log_decisions_of(&mut self, logger: &mut NetworkLogger, i: usize)
        requires
            i < old(self).nodes@.len(),
        ensures
            ({
                let entries = old(self)@.nodes[i as int].pending_lifecycle;
                let net = old(self)@.with_node(i as int, old(self)@.nodes[i as int].without_lifecycle());
                &&& final(self)@ == NetworkView { recent_lifecycle: net.recent_lifecycle + entries, ..net }
                &&& final(logger)@ == JournalView {
                    lifecycle: old(logger)@.lifecycle.pushed_all(entries, old(self).tick, entries.len()),
                    ..old(logger)@
                }
            }),
            steady(old(self)@, final(self)@),
    {
        let ghost start = self@;
        let ghost log = logger@;
        let ghost before = self.nodes@;
        let tick: u64 = self.tick;
        let mut entries: Vec<LifecycleEntry> = Vec::new();
        assert(start.nodes[i as int] == before[i as int]@);
        std::mem::swap(&mut entries, &mut self.nodes[i].pending_lifecycle);
        proof {
            lemma_node_views_update(before, self.nodes@, i as int);
            assert(lifecycle_views(self.nodes@[i as int].pending_lifecycle@) =~= seq![]);
            assert(self.nodes@[i as int]@ =~= start.nodes[i as int].without_lifecycle());
        }
        let ghost net = self@;
        assert(net =~= start.with_node(i as int, start.nodes[i as int].without_lifecycle()));
        let ghost all = lifecycle_views(entries@);
        assert(all =~= start.nodes[i as int].pending_lifecycle);
        let mut k: usize = 0;
        assert(net.recent_lifecycle =~= net.recent_lifecycle + all.take(0));
        while k < entries.len()
            invariant
                k <= entries@.len(),
                all == lifecycle_views(entries@),
                tick == start.tick,
                self@ == (NetworkView { recent_lifecycle: net.recent_lifecycle + all.take(k as int), ..net }),
                logger@ == (JournalView {
                    lifecycle: log.lifecycle.pushed_all(all, tick, k as nat),
                    ..log
                }),
            decreases entries@.len() - k,
        {
            let ghost recent = self.recent_lifecycle@;
            let entry = entries[k].clone();
            let ghost e = entry@;
            self.recent_lifecycle.push_back(entries[k].clone());
            logger.lifecycle.push(entry, tick);
            proof {
                assert(all[k as int] == e);
                assert(lifecycle_views(self.recent_lifecycle@) =~= lifecycle_views(recent).push(e));
                assert(all.take(k + 1) =~= all.take(k as int).push(e));
                assert(lifecycle_views(self.recent_lifecycle@) =~= net.recent_lifecycle + all.take(k + 1));
            }
            k = k + 1;
        }
        assert(all.take(k as int) =~= all);
    }

    /// Logs the decisions of all nodes and keeps the last ones for show.
    fn log_decisions(&mut self, logger: &mut NetworkLogger)
        ensures
            world(final(self)@, final(logger)@) == world(old(self)@, old(logger)@).all_decisions_logged(),
            steady(old(self)@, final(self)@),
    {
        let ghost start = world(self@, logger@);
        let mut i: usize = 0;
        while i < self.nodes.len()
            invariant
                i <= self.nodes@.len(),
                self.tick == start.net.tick,
                steady(start.net, self@),
                forall|k: int| i <= k < start.net.nodes.len() ==> (#[trigger] self@.nodes[k]) == start.net.nodes[k],
                world(self@, logger@) == start.decisions_logged(i as nat),
            decreases self.nodes@.len() - i,
        {
            assert(self@.nodes[i as int] == start.net.nodes[i as int]);
            self.log_decisions_of(logger, i);
            i = i + 1;
        }
        let ghost net = self@;
        let ghost all = self.recent_lifecycle@;
        while self.recent_lifecycle.len() > RECENT_LIFECYCLE_CAPACITY
            invariant
                self@ == (NetworkView { recent_lifecycle: lifecycle_views(self.recent_lifecycle@), ..net }),
                self.recent_lifecycle@ == last_of(all, self.recent_lifecycle@.len()),
                self.recent_lifecycle@.len() <= all.len(),
                self.recent_lifecycle@.len() >= if all.len() > RECENT_LIFECYCLE_CAPACITY {
                    RECENT_LIFECYCLE_CAPACITY as nat
                } else {
                    all.len()
                },
            decreases self.recent_lifecycle@.len(),
        {
            let ghost before = self.recent_lifecycle@;
            self.recent_lifecycle.pop_front();
            assert(self.recent_lifecycle@ =~= last_of(all, (before.len() - 1) as nat));
        }
        proof {
            assert(lifecycle_views(self.recent_lifecycle@) =~= last_of(
                lifecycle_views(all),
                RECENT_LIFECYCLE_CAPACITY as nat,
            ));
            assert(self@ =~= net.trimmed());
        }
    }

    /// Logs the model's answers to the node at a position.
    fn log_answers_to(&mut self, logger: &mut NetworkLogger, i: usize)
        requires
            i < old(self).nodes@.len(),
        ensures
            ({
                let entries = old(self)@.nodes[i as int].pending_ai_decisions;
                &&& final(self)@ == old(self)@.with_node(i as int, old(self)@.nodes[i as int].without_answers())
                &&& final(logger)@ == JournalView {
                    ai_decisions: old(logger)@.ai_decisions.pushed_all(entries, old(self).tick, entries.len()),
                    ..old(logger)@
                }
            }),
            steady(old(self)@, final(self)@),
    {
        let ghost start = self@;
        let ghost log = logger@;
        let ghost before = self.nodes@;
        let tick: u64 = self.tick;
        let mut entries: Vec<AiDecisionEntry> = Vec::new();
        assert(start.nodes[i as int] == before[i as int]@);
        std::mem::swap(&mut entries, &mut self.nodes[i].pending_ai_decisions);
        proof {
            lemma_node_views_update(before, self.nodes@, i as int);
            assert(ai_decision_views(self.nodes@[i as int].pending_ai_decisions@) =~= seq![]);
            assert(self.nodes@[i as int]@ =~= start.nodes[i as int].without_answers());
        }
        let ghost all = ai_decision_views(entries@);
        assert(all =~= start.nodes[i as int].pending_ai_decisions);
        let ghost first = entries@;
        let total: usize = entries.len();
        let mut k: usize = 0;
        for entry in it: entries
            invariant
                it.seq() == first,
                k == it.index(),
                first.len() == total,
                all == ai_decision_views(first),
                logger@ == (JournalView {
                    ai_decisions: log.ai_decisions.pushed_all(all, tick, k as nat),
                    ..log
                }),
        {
            assert(all[k as int] == entry@);
            logger.ai_decisions.push(entry, tick);
            k = k + 1;
        }
    }

    fn log_answers(&mut self, logger: &mut NetworkLogger)
        ensures
            world(final(self)@, final(logger)@) == world(old(self)@, old(logger)@).answers_logged(
                old(self)@.nodes.len(),
            ),
            steady(old(self)@, final(self)@),
    {
        let ghost start = world(self@, logger@);
        let mut i: usize = 0;
        while i < self.nodes.len()
            invariant
                i <= self.nodes@.len(),
                self.tick == start.net.tick,
                steady(start.net, self@),
                forall|k: int| i <= k < start.net.nodes.len() ==> (#[trigger] self@.nodes[k]) == start.net.nodes[k],
                world(self@, logger@) == start.answers_logged(i as nat),
            decreases self.nodes@.len() - i,
        {
            assert(self@.nodes[i as int] == start.net.nodes[i as int]);
            self.log_answers_to(logger, i);
            i = i + 1;
        }
    }

    /// Takes out what the nodes have to tell.
    fn take_advices(&mut self) -> (advices: Vec<Option<NodeSignal>>)
        ensures
            final(self)@ == old(self)@.all_told(),
            advice_views(advices@) == old(self)@.advices(),
            steady(old(self)@, final(self)@),
    {
        let ghost start = self@;
        let tick: u64 = self.tick;
        let mut advices: Vec<Option<NodeSignal>> = Vec::new();
        let mut i: usize = 0;
        while i < self.nodes.len()
            invariant
                i <= self.nodes@.len(),
                tick == start.tick,
                self.nodes@.len() == start.nodes.len(),
                advices@.len() == i,
                forall|k: int| 0 <= k < i ==> (#[trigger] advice_views(advices@)[k]) == start.advices()[k],
                forall|k: int| 0 <= k < i ==> (#[trigger] self@.nodes[k]) == start.all_told().nodes[k],
                forall|k: int| i <= k < start.nodes.len() ==> (#[trigger] self@.nodes[k]) == start.nodes[k],
                self@ == (NetworkView { nodes: self@.nodes, ..start }),
                steady(start, self@),
            decreases self.nodes@.len() - i,
        {
            let ghost before = self.nodes@;
            let ghost past = advices@;
            assert(self@.nodes[i as int] == before[i as int]@);
            let advice = self.nodes[i].take_load_advisory_signal(tick);
            let ghost a = advice_view(advice);
            proof {
                lemma_node_views_update(before, self.nodes@, i as int);
                assert(a =~= start.advices()[i as int]);
            }
            advices.push(advice);
            assert(advice_views(advices@) =~= advice_views(past).push(a));
            i = i + 1;
        }
        proof {
            assert(self@.nodes =~= start.all_told().nodes);
            assert(advice_views(advices@) =~= start.advices());
        }
        advices
    }

    /// Brings what the nodes have to tell to their neighbours.
    fn advise(&mut self, logger: &mut NetworkLogger, recorded_at: u64)
        requires
            old(self)@.wired(),
        ensures
            world(final(self)@, final(logger)@) == world(old(self)@, old(logger)@).all_advised(recorded_at),
            steady(old(self)@, final(self)@),
    {
        let ghost first = self@;
        let advices = self.take_advices();
        let ghost all = advice_views(advices@);
        assert(all.len() == advices@.len());
        let ghost start = world(self@, logger@);
        proof {
            lemma_steady(first, self@);
        }
        let mut i: usize = 0;
        while i < advices.len()
            invariant
                i <= advices@.len(),
                all == advice_views(advices@),
                start.net.wired(),
                steady(start.net, self@),
                world(self@, logger@) == start.advised(all, recorded_at, i as nat),
            decreases advices@.len() - i,
        {
            assert(all[i as int] == advice_view(advices@[i as int]));
            proof {
                lemma_steady(start.net, self@);
            }
            match &advices[i] {
                Some(signal) => {
                    self.send_along_links(logger, signal, i, recorded_at);
                },
                None => {},
            }
            i = i + 1;
        }
    }

    /// Carries all scenarios on by one tick.
    fn advance_effects(&mut self)
        requires
            old(self)@.wired(),
        ensures
            final(self)@ == old(self)@.affected(),
            same_nodes(old(self)@, final(self)@),
            final(self)@.wired(),
    {
        let ghost start = self@;
        let mut effects: Vec<ActiveEffect> = Vec::new();
        std::mem::swap(&mut effects, &mut self.active_effects);
        let ghost idle = self@;
        proof {
            assert(effect_views(self.active_effects@) =~= seq![]);
            assert(idle =~= NetworkView { active_effects: seq![], ..start });
            lemma_still_sound(start, idle);
        }
        let active = ScenarioEngine::advance_active_effects(self, effects);
        let ghost after = self@;
        self.active_effects = active;
        proof {
            lemma_still_sound(after, self@);
        }
    }

    /// Lets the links and the scenarios have their turn.
    fn maintain(&mut self)
        requires
            old(self)@.wired(),
            old(self)@.numbered(),
        ensures
            final(self)@ == old(self)@.maintained(),
            same_nodes(old(self)@, final(self)@),
            final(self)@.wired(),
            old(self)@.sound() ==> final(self)@.sound(),
    {
        let ghost start = self@;
        let cut_before: HashSet<u32> = self.currently_cut_node_ids();
        self.sync_isolation_links();
        self.advance_effects();
        self.sync_isolation_links();
        let ghost synced = self@;
        self.refresh_recovery_markers(&cut_before);
        proof {
            lemma_steady(synced, self@);
        }
        self.cleanup_redundant_virtual_bridges();
        let ghost cleaned = self@;
        proof {
            assert(same_nodes(start, cleaned));
            lemma_sound_again(start, cleaned);
        }
        self.tick_topology_flood();
        proof {
            lemma_steady(cleaned, self@);
        }
    }

    /// The last step of a tick, with what each node needs its model for and the replies: the nodes
    /// decide, their decisions are logged, and the network follows.
    pub fn tick_decisions(
        &mut self,
        logger: &mut NetworkLogger,
        askings: &Vec<Asking>,
        predictions: Vec<Result<AIOutput, String>>,
        recorded_at: u64,
    )
        requires
            old(self)@.sound(),
            askings@.len() == old(self).nodes@.len(),
            predictions@.len() == old(self).nodes@.len(),
        ensures
            world(final(self)@, final(logger)@) == world(old(self)@, old(logger)@).decided(
                askings@,
                predictions@,
                recorded_at,
            ),
            same_nodes(old(self)@, final(self)@),
            final(self)@.sound(),
    {
        let ghost first = self@;
        self.end_nodes(logger, askings, predictions, recorded_at);
        let ghost second = self@;
        proof {
            lemma_steady(first, second);
        }
        self.settle(logger, recorded_at);
        proof {
            lemma_steady(second, self@);
        }
        self.close(logger, recorded_at);
    }

    fn end_nodes(
        &mut self,
        logger: &mut NetworkLogger,
        askings: &Vec<Asking>,
        predictions: Vec<Result<AIOutput, String>>,
        recorded_at: u64,
    )
        requires
            old(self)@.sound(),
            askings@.len() == old(self).nodes@.len(),
            predictions@.len() == old(self).nodes@.len(),
        ensures
            world(final(self)@, final(logger)@) == world(old(self)@, old(logger)@).resumed(
                askings@,
                predictions@,
                recorded_at,
            ),
            steady(old(self)@, final(self)@),
    {
        reveal(World::resumed);
        self.resume_all(askings, predictions, recorded_at);
        self.log_decisions(logger);
        self.log_answers(logger);
    }

    fn settle(&mut self, logger: &mut NetworkLogger, recorded_at: u64)
        requires
            old(self)@.wired(),
        ensures
            world(final(self)@, final(logger)@) == world(old(self)@, old(logger)@).settled(recorded_at),
            steady(old(self)@, final(self)@),
    {
        reveal(World::settled);
        let ghost first = self@;
        self.advise(logger, recorded_at);
        proof {
            lemma_steady(first, self@);
        }
        self.tick_reconnect(logger, recorded_at);
        self.log_decisions(logger);
    }

    fn close(&mut self, logger: &mut NetworkLogger, recorded_at: u64)
        requires
            old(self)@.wired(),
            old(self)@.numbered(),
        ensures
            world(final(self)@, final(logger)@) == world(old(self)@, old(logger)@).closed(recorded_at),
            same_nodes(old(self)@, final(self)@),
            final(self)@.wired(),
            old(self)@.sound() ==> final(self)@.sound(),
    {
        reveal(World::closed);
        self.maintain();
        self.heal_partitions(logger, recorded_at);
        logger.flush_all(self.tick);
        let ghost healed = self@;
        if self.tick >= self.max_ticks {
            self.finished = true;
        }
        proof {
            assert(self@ =~= healed.concluded());
            lemma_still_sound(healed, self@);
        }
    }
}

} // verus!
