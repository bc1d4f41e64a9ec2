//! Bridges round nodes that have gone silent.

use std::collections::HashSet;

use vstd::prelude::*;

use crate::network::world::{lemma_steady, steady, world, World};
use crate::network::{lemma_node_views_update, same_nodes, Network, NetworkView};
use crate::node::bridges::{attempted, bridge_links, lemma_position_exists, position};
use crate::node::signals::signal_views;
use crate::node::{Mode, Node, NodeSignal, NodeView, SignalType, SignalView, VirtualBridgeAttempt};
use crate::persistence::{since, JournalView, NetworkLogger};

verus! {

broadcast use vstd::std_specs::hash::group_hash_axioms;

/// The pair with the smaller id first.
pub open spec fn normalized(a: u32, b: u32) -> (u32, u32) {
    if a < b { (a, b) } else { (b, a) }
}

fn normalize_pair(a: u32, b: u32) -> (p: (u32, u32))
    ensures
        p == normalized(a, b),
{
    if a < b { (a, b) } else { (b, a) }
}

/// The list with the pair in it, once.
pub open spec fn with_pair(pairs: Seq<(u32, u32)>, p: (u32, u32)) -> Seq<(u32, u32)> {
    if pairs.contains(p) { pairs } else { pairs.push(p) }
}

impl NodeView {
    /// The node is off the network, or on its way back.
    pub open spec fn away(self) -> bool {
        self.state.mode == Mode::Isolated || self.state.mode == Mode::Reconnecting
    }

    /// The requests for bridges that the node sends.
    pub open spec fn bridge_requests(self, tick: u64, excluded: Set<u32>) -> Seq<SignalView> {
        self.bridges_to_ask(tick, excluded).map_values(
            |a: (u32, u32)| self.signal(Some(a.0), SignalType::VirtualBridgeRequest, tick),
        )
    }

    /// The node after it has sent its requests.
    pub open spec fn asking(self, tick: u64, excluded: Set<u32>) -> NodeView {
        let asked = self.bridges_to_ask(tick, excluded);
        NodeView {
            virtual_bridge_attempts: attempted(self.virtual_bridge_attempts, asked, tick, asked.len()),
            ..self
        }
    }

    /// The node after it was asked for a bridge.
    pub open spec fn asked(self, request: SignalView, tick: u64) -> NodeView {
        if self.accepts_bridge(request) {
            NodeView {
                virtual_bridge_attempts: self.virtual_bridge_attempts.insert(
                    request.source_id,
                    VirtualBridgeAttempt {
                        bridge_to: request.source_id,
                        via_fallen_node: 0,
                        started_at_tick: tick,
                        attempts: 1,
                        initiated_by_us: false,
                    },
                ),
                ..self
            }
        } else {
            self
        }
    }

    /// What the node says to a request for a bridge.
    pub open spec fn answer(self, request: SignalView, tick: u64) -> SignalView {
        self.signal(
            Some(request.source_id),
            if self.accepts_bridge(request) {
                SignalType::VirtualBridgeAck
            } else {
                SignalType::VirtualBridgeReject
            },
            tick,
        )
    }

    /// The node after the answer to its request.
    pub open spec fn answered(self, response: SignalView) -> NodeView {
        if response.signal_type == SignalType::VirtualBridgeReject {
            self.without_attempt(response.source_id)
        } else {
            self
        }
    }

    pub open spec fn without_attempt(self, id: u32) -> NodeView {
        NodeView { virtual_bridge_attempts: self.virtual_bridge_attempts.remove(id), ..self }
    }
}

impl NetworkView {
    /// The node at the position was let in again only lately.
    pub open spec fn in_grace(self, i: int) -> bool {
        let id = self.nodes[i].id;
        let grace = if self.config.security.node_stale_ttl < 1 { 1 } else { self.config.security.node_stale_ttl };
        self.recovered_at_tick.contains_key(id) && since(self.tick, self.recovered_at_tick[id]) < grace
    }

    /// To those of the first `n` nodes no bridge is built, and they are not passed through: those that
    /// are parted from the others, that are away, and that came back lately.
    pub open spec fn excluded(self, n: nat) -> Set<u32>
        decreases n,
    {
        if n == 0 {
            self.partitioned_nodes
        } else if self.nodes[n - 1].away() || self.in_grace(n - 1) {
            self.excluded((n - 1) as nat).insert(self.nodes[n - 1].id)
        } else {
            self.excluded((n - 1) as nat)
        }
    }

    /// Those of the first `n` nodes do not ask for bridges: those that are parted from the others or
    /// are away.
    pub open spec fn mute(self, n: nat) -> Set<u32>
        decreases n,
    {
        if n == 0 {
            self.partitioned_nodes
        } else if self.nodes[n - 1].away() {
            self.mute((n - 1) as nat).insert(self.nodes[n - 1].id)
        } else {
            self.mute((n - 1) as nat)
        }
    }

    /// The requests for bridges that the node at a position sends.
    pub open spec fn requests_from(self, i: int) -> Seq<SignalView> {
        if self.mute(self.nodes.len()).contains(self.nodes[i].id) {
            seq![]
        } else {
            self.nodes[i].bridge_requests(self.tick, self.excluded(self.nodes.len()))
        }
    }

    /// The network after every node that may has sent its requests.
    pub open spec fn all_asking(self) -> NetworkView {
        NetworkView {
            nodes: Seq::new(
                self.nodes.len(),
                |i: int|
                    if self.mute(self.nodes.len()).contains(self.nodes[i].id) {
                        self.nodes[i]
                    } else {
                        self.nodes[i].asking(self.tick, self.excluded(self.nodes.len()))
                    },
            ),
            ..self
        }
    }

    /// The requests of all nodes, by position.
    pub open spec fn all_requests(self) -> Seq<Seq<SignalView>> {
        Seq::new(self.nodes.len(), |i: int| self.requests_from(i))
    }

    /// The node at the position, if there is one, forgets its attempt at a bridge.
    pub open spec fn forgotten(self, at: Option<usize>, id: u32) -> NetworkView {
        match at {
            Some(i) => self.with_node(i as int, self.nodes[i as int].without_attempt(id)),
            None => self,
        }
    }

    /// The two nodes of each of the first `n` pairs forget their attempts.
    pub open spec fn all_forgotten(self, pairs: Seq<(u32, u32)>, n: nat) -> NetworkView
        decreases n,
    {
        if n == 0 {
            self
        } else {
            let before = self.all_forgotten(pairs, (n - 1) as nat);
            let (a, b) = pairs[n - 1];
            before.forgotten(position(self.ids(), a), b).forgotten(position(self.ids(), b), a)
        }
    }
}

/// Answers on their way, each with the position of its receiver.
pub type Answers = Seq<(usize, SignalView)>;

impl World {
    /// The first `n` requests of a node reach those that they are for, who answer.
    pub open spec fn bridges_asked(self, sender: usize, requests: Seq<SignalView>, recorded_at: u64, n: nat) -> (
        World,
        Answers,
    )
        decreases n,
    {
        if n == 0 {
            (self, seq![])
        } else {
            let (before, answers) = self.bridges_asked(sender, requests, recorded_at, (n - 1) as nat);
            let request = requests[n - 1];
            match self.net.addressee(request) {
                Some(target) => {
                    let node = before.net.nodes[target as int];
                    let response = node.answer(request, self.net.tick);
                    let logged = before.noted(request, target as int, recorded_at);
                    let after = World {
                        net: logged.net.with_node(target as int, node.asked(request, self.net.tick)),
                        ..logged
                    };
                    (after.noted(response, sender as int, recorded_at), answers.push((sender, response)))
                },
                None => (before, answers),
            }
        }
    }

    /// The requests of the first `n` nodes.
    pub open spec fn all_bridges_asked(self, requests: Seq<Seq<SignalView>>, recorded_at: u64, n: nat) -> (World, Answers)
        decreases n,
    {
        if n == 0 {
            (self, seq![])
        } else {
            let (before, answers) = self.all_bridges_asked(requests, recorded_at, (n - 1) as nat);
            let (after, more) = before.bridges_asked(
                (n - 1) as usize,
                requests[n - 1],
                recorded_at,
                requests[n - 1].len(),
            );
            (after, answers + more)
        }
    }

    /// The first `n` answers reach the senders of the requests; the pairs that are granted a bridge.
    pub open spec fn bridges_answered(self, answers: Answers, n: nat) -> (World, Seq<(u32, u32)>)
        decreases n,
    {
        if n == 0 {
            (self, seq![])
        } else {
            let (before, pairs) = self.bridges_answered(answers, (n - 1) as nat);
            let (i, response) = answers[n - 1];
            let node = before.net.nodes[i as int];
            (
                World { net: before.net.with_node(i as int, node.answered(response)), ..before },
                if response.signal_type == SignalType::VirtualBridgeAck {
                    with_pair(pairs, normalized(node.id, response.source_id))
                } else {
                    pairs
                },
            )
        }
    }

    /// One tick of building bridges.
    pub open spec fn healed(self, recorded_at: u64) -> World {
        let requests = self.net.all_requests();
        let asking = World { net: self.net.all_asking(), ..self };
        let (asked, answers) = asking.all_bridges_asked(requests, recorded_at, requests.len());
        let (answered, pairs) = asked.bridges_answered(answers, answers.len());
        let bridged = answered.net.with_links(
            answered.net.links + bridge_links(pairs, self.net.ids(), pairs.len()),
        );
        World { net: bridged.all_forgotten(pairs, pairs.len()), ..answered }
    }
}

pub open spec fn answer_views(answers: Seq<(usize, NodeSignal)>) -> Answers {
    answers.map_values(|a: (usize, NodeSignal)| (a.0, a.1@))
}

pub open spec fn request_views(requests: Seq<Vec<NodeSignal>>) -> Seq<Seq<SignalView>> {
    requests.map_values(|v: Vec<NodeSignal>| signal_views(v@))
}

/// A copy of the set.
fn copy_ids(ids: &HashSet<u32>) -> (copy: HashSet<u32>)
    ensures
        copy@ == ids@,
{
    let mut copy: HashSet<u32> = HashSet::new();
    for id in it: ids.iter()
        invariant
            copy@.subset_of(ids@),
            it.seq().unref().to_set() == ids@,
            forall|k: int| 0 <= k < it.index() ==> copy@.contains(*#[trigger] it.seq()[k]),
    {
        copy.insert(*id);
    }
    copy
}

fn has_pair(pairs: &Vec<(u32, u32)>, p: (u32, u32)) -> (b: bool)
    ensures
        b == pairs@.contains(p),
{
    let mut i: usize = 0;
    while i < pairs.len()
        invariant
            i <= pairs@.len(),
            forall|k: int| 0 <= k < i ==> pairs@[k] != p,
        decreases pairs@.len() - i,
    {
        if pairs[i].0 == p.0 && pairs[i].1 == p.1 {
            assert(pairs@[i as int] == p);
            return true;
        }
        i = i + 1;
    }
    false
}

impl Network {
    /// The nodes that no bridge goes to or through.
    fn excluded_nodes(&self) -> (excluded: HashSet<u32>)
        ensures
            excluded@ == self@.excluded(self@.nodes.len()),
    {
        let ghost net = self@;
        let ttl: u64 = self.config.security.node_stale_ttl;
        let grace: u64 = if ttl < 1 { 1 } else { ttl };
        let mut excluded = copy_ids(&self.partitioned_nodes);
        let mut i: usize = 0;
        while i < self.nodes.len()
            invariant
                i <= self.nodes@.len(),
                net == self@,
                ttl == net.config.security.node_stale_ttl,
                grace == if ttl < 1 { 1 } else { ttl },
                excluded@ == net.excluded(i as nat),
            decreases self.nodes@.len() - i,
        {
            let node = &self.nodes[i];
            assert(net.nodes[i as int] == node@);
            let lately = match self.recovered_at_tick.get(&node.id) {
                Some(recovered) => self.tick.saturating_sub(*recovered) < grace,
                None => false,
            };
            assert(lately == net.in_grace(i as int));
            if matches!(node.state.mode, Mode::Isolated | Mode::Reconnecting) || lately {
                excluded.insert(node.id);
            }
            i = i + 1;
        }
        excluded
    }

    /// The nodes that do not ask for bridges.
    fn mute_nodes(&self) -> (mute: HashSet<u32>)
        ensures
            mute@ == self@.mute(self@.nodes.len()),
    {
        let ghost net = self@;
        let mut mute = copy_ids(&self.partitioned_nodes);
        let mut i: usize = 0;
        while i < self.nodes.len()
            invariant
                i <= self.nodes@.len(),
                net == self@,
                mute@ == net.mute(i as nat),
            decreases self.nodes@.len() - i,
        {
            let node = &self.nodes[i];
            assert(net.nodes[i as int] == node@);
            if matches!(node.state.mode, Mode::Isolated | Mode::Reconnecting) {
                mute.insert(node.id);
            }
            i = i + 1;
        }
        mute
    }

    /// Lets every node that may ask for the bridges it needs.
    fn ask_all(&mut self) -> (requests: Vec<Vec<NodeSignal>>)
        ensures
            final(self)@ == old(self)@.all_asking(),
            request_views(requests@) == old(self)@.all_requests(),
            steady(old(self)@, final(self)@),
    {
        let ghost start = self@;
        let excluded = self.excluded_nodes();
        let mute = self.mute_nodes();
        let tick: u64 = self.tick;
        let mut requests: Vec<Vec<NodeSignal>> = Vec::new();
        let mut i: usize = 0;
        while i < self.nodes.len()
            invariant
                i <= self.nodes@.len(),
                self.nodes@.len() == start.nodes.len(),
                tick == start.tick,
                excluded@ == start.excluded(start.nodes.len()),
                mute@ == start.mute(start.nodes.len()),
                requests@.len() == i,
                forall|k: int| 0 <= k < i ==> (#[trigger] request_views(requests@)[k]) == start.requests_from(k),
                forall|k: int| 0 <= k < i ==> (#[trigger] self@.nodes[k]) == start.all_asking().nodes[k],
                forall|k: int| i <= k < start.nodes.len() ==> (#[trigger] self@.nodes[k]) == start.nodes[k],
                self@ == (NetworkView { nodes: self@.nodes, ..start }),
                same_nodes(start, self@),
            decreases self.nodes@.len() - i,
        {
            let ghost before = self.nodes@;
            let ghost past = requests@;
            let id: u32 = self.nodes[i].id;
            assert(self@.nodes[i as int] == before[i as int]@);
            assert(start.nodes[i as int].id == id);
            if mute.contains(&id) {
                let none: Vec<NodeSignal> = Vec::new();
                assert(signal_views(none@) =~= start.requests_from(i as int));
                requests.push(none);
            } else {
                let signals = self.nodes[i].initiate_virtual_bridges(tick, &excluded);
                proof {
                    lemma_node_views_update(before, self.nodes@, i as int);
                    assert(signal_views(signals@) =~= start.requests_from(i as int));
                    assert(self.nodes@[i as int]@ =~= start.nodes[i as int].asking(tick, excluded@));
                }
                requests.push(signals);
            }
            assert(request_views(requests@) =~= request_views(past).push(start.requests_from(i as int)));
            i = i + 1;
        }
        proof {
            assert(self@.nodes =~= start.all_asking().nodes);
            assert(request_views(requests@) =~= start.all_requests());
        }
        requests
    }

    /// Brings one node's requests for bridges to those that they are for, and collects the answers.
    fn ask_bridges(
        &mut self,
        logger: &mut NetworkLogger,
        sender: usize,
        requests: &Vec<NodeSignal>,
        answers: &mut Vec<(usize, NodeSignal)>,
        recorded_at: u64,
    )
        requires
            sender < old(self).nodes@.len(),
            forall|k: int| 0 <= k < old(answers)@.len() ==> (#[trigger] old(answers)@[k]).0 < old(self).nodes@.len(),
        ensures
            ({
                let (after, more) = world(old(self)@, old(logger)@).bridges_asked(
                    sender,
                    signal_views(requests@),
                    recorded_at,
                    requests@.len(),
                );
                &&& world(final(self)@, final(logger)@) == after
                &&& answer_views(final(answers)@) == answer_views(old(answers)@) + more
            }),
            steady(old(self)@, final(self)@),
            forall|k: int| 0 <= k < final(answers)@.len() ==> (#[trigger] final(answers)@[k]).0 < old(self).nodes@.len(),
    {
        let ghost start = world(self@, logger@);
        let ghost first = answers@;
        let ghost all = signal_views(requests@);
        let tick: u64 = self.tick;
        let mut i: usize = 0;
        assert(answer_views(answers@) =~= answer_views(first) + Seq::<(usize, SignalView)>::empty());
        while i < requests.len()
            invariant
                i <= requests@.len(),
                all == signal_views(requests@),
                sender < self.nodes@.len(),
                tick == start.net.tick,
                self.tick == tick,
                steady(start.net, self@),
                forall|k: int| 0 <= k < answers@.len() ==> (#[trigger] answers@[k]).0 < self.nodes@.len(),
                world(self@, logger@) == start.bridges_asked(sender, all, recorded_at, i as nat).0,
                answer_views(answers@) == answer_views(first) + start.bridges_asked(
                    sender,
                    all,
                    recorded_at,
                    i as nat,
                ).1,
            decreases requests@.len() - i,
        {
            let signal = &requests[i];
            assert(all[i as int] == signal@);
            let ghost past = start.bridges_asked(sender, all, recorded_at, i as nat).1;
            proof {
                lemma_steady(start.net, self@);
            }
            match signal.target_id {
                Some(target_id) => {
                    match self.index_of(target_id) {
                        Some(target) => {
                            self.log_signal_delivery(logger, signal, target, recorded_at);
                            let ghost before = self.nodes@;
                            assert(self@.nodes[target as int] == before[target as int]@);
                            let response = self.nodes[target].handle_virtual_bridge_request(signal, tick);
                            let ghost r = response@;
                            proof {
                                lemma_node_views_update(before, self.nodes@, target as int);
                            }
                            self.log_signal_delivery(logger, &response, sender, recorded_at);
                            let ghost before = answers@;
                            answers.push((sender, response));
                            proof {
                                assert(answer_views(answers@) =~= answer_views(before).push((sender, r)));
                                assert(answer_views(answers@) =~= answer_views(first) + past.push((sender, r)));
                            }
                        },
                        None => {},
                    }
                },
                None => {},
            }
            i = i + 1;
        }
    }

    /// Brings the answers back; hands out the pairs that are granted a bridge.
    fn take_answers(&mut self, answers: &Vec<(usize, NodeSignal)>, Ghost(log): Ghost<JournalView>) -> (pairs: Vec<
        (u32, u32),
    >)
        requires
            forall|k: int| 0 <= k < answers@.len() ==> (#[trigger] answers@[k]).0 < old(self).nodes@.len(),
        ensures
            (world(final(self)@, log), pairs@) == world(old(self)@, log).bridges_answered(
                answer_views(answers@),
                answers@.len(),
            ),
            steady(old(self)@, final(self)@),
    {
        let ghost start = world(self@, log);
        let mut pairs: Vec<(u32, u32)> = Vec::new();
        let mut k: usize = 0;
        while k < answers.len()
            invariant
                k <= answers@.len(),
                forall|k: int| 0 <= k < answers@.len() ==> (#[trigger] answers@[k]).0 < self.nodes@.len(),
                (world(self@, log), pairs@) == start.bridges_answered(answer_views(answers@), k as nat),
                steady(start.net, self@),
            decreases answers@.len() - k,
        {
            let i: usize = answers[k].0;
            let response = &answers[k].1;
            let ghost before = self.nodes@;
            proof {
                assert(answer_views(answers@)[k as int] == (i, response@));
                assert(self@.nodes[i as int] == before[i as int]@);
            }
            let id: u32 = self.nodes[i].id;
            let granted = self.nodes[i].handle_virtual_bridge_response(response);
            proof {
                lemma_node_views_update(before, self.nodes@, i as int);
            }
            if granted {
                let pair = normalize_pair(id, response.source_id);
                if !has_pair(&pairs, pair) {
                    pairs.push(pair);
                }
            }
            k = k + 1;
        }
        pairs
    }

    /// The node with the id `at`, if there is one, forgets its attempt at a bridge to `id`.
    fn forget_attempt(&mut self, at: u32, id: u32)
        ensures
            final(self)@ == old(self)@.forgotten(position(old(self)@.ids(), at), id),
            same_nodes(old(self)@, final(self)@),
            final(self)@.links == old(self)@.links,
    {
        match self.index_of(at) {
            Some(i) => {
                let ghost before = self.nodes@;
                assert(self@.nodes[i as int] == before[i as int]@);
                self.nodes[i].virtual_bridge_attempts.remove(&id);
                proof {
                    lemma_node_views_update(before, self.nodes@, i as int);
                    assert(self.nodes@[i as int]@ =~= before[i as int]@.without_attempt(id));
                }
            },
            None => {},
        }
    }

    /// Lets the nodes that have lost a neighbour build bridges round it.
    pub fn heal_partitions(&mut self, logger: &mut NetworkLogger, recorded_at: u64)
        requires
            old(self)@.wired(),
        ensures
            world(final(self)@, final(logger)@) == world(old(self)@, old(logger)@).healed(recorded_at),
            same_nodes(old(self)@, final(self)@),
            final(self)@.wired(),
            old(self)@.sound() ==> final(self)@.sound(),
    {
        let ghost start = world(self@, logger@);
        let requests = self.ask_all();
        let ghost all = request_views(requests@);
        let ghost asking = world(self@, logger@);
        assert(all.len() == requests@.len());
        let mut answers: Vec<(usize, NodeSignal)> = Vec::new();
        let mut k: usize = 0;
        assert(answer_views(answers@) =~= Seq::<(usize, SignalView)>::empty());
        while k < requests.len()
            invariant
                k <= requests@.len(),
                requests@.len() == self.nodes@.len(),
                all == request_views(requests@),
                steady(asking.net, self@),
                forall|k: int| 0 <= k < answers@.len() ==> (#[trigger] answers@[k]).0 < self.nodes@.len(),
                (world(self@, logger@), answer_views(answers@)) == asking.all_bridges_asked(
                    all,
                    recorded_at,
                    k as nat,
                ),
            decreases requests@.len() - k,
        {
            assert(all[k as int] == signal_views(requests@[k as int]@));
            self.ask_bridges(logger, k, &requests[k], &mut answers, recorded_at);
            k = k + 1;
        }
        let pairs = self.take_answers(&answers, Ghost(logger@));
        let ghost answered = world(self@, logger@);
        proof {
            assert(steady(start.net, answered.net));
            lemma_steady(start.net, answered.net);
        }
        let ids = self.node_ids();
        let mut new_links = Node::build_confirmed_links(&pairs, &ids);
        let ghost added = new_links@;
        proof {
            lemma_bridge_links_within(pairs@, ids@, pairs@.len());
        }
        self.links.append(&mut new_links);
        let ghost bridged = self@;
        assert(bridged =~= answered.net.with_links(answered.net.links + added));
        let mut k: usize = 0;
        while k < pairs.len()
            invariant
                k <= pairs@.len(),
                same_nodes(bridged, self@),
                bridged.links == self@.links,
                self@ == bridged.all_forgotten(pairs@, k as nat),
            decreases pairs@.len() - k,
        {
            let (a, b) = pairs[k];
            proof {
                lemma_steady(bridged, self@);
            }
            self.forget_attempt(a, b);
            proof {
                lemma_steady(bridged, self@);
            }
            self.forget_attempt(b, a);
            k = k + 1;
        }
        proof {
            assert(answered.net.wired());
            assert(bridged.wired()) by {
                assert forall|i: int| 0 <= i < bridged.links.len() implies (#[trigger] bridged.links[i]).from
                    < bridged.nodes.len() && bridged.links[i].to < bridged.nodes.len() by {
                    if i < answered.net.links.len() {
                        assert(bridged.links[i] == answered.net.links[i]);
                    } else {
                        assert(bridged.links[i] == added[i - answered.net.links.len()]);
                    }
                }
            }
            lemma_steady(bridged, self@);
        }
    }

    /// The ids of the nodes, by position.
    fn node_ids(&self) -> (ids: Vec<u32>)
        ensures
            ids@ == self@.ids(),
    {
        let mut ids: Vec<u32> = Vec::new();
        let mut i: usize = 0;
        while i < self.nodes.len()
            invariant
                i <= self.nodes@.len(),
                ids@.len() == i,
                forall|k: int| 0 <= k < i ==> (#[trigger] ids@[k]) == self@.ids()[k],
            decreases self.nodes@.len() - i,
        {
            assert(self@.nodes[i as int] == self.nodes@[i as int]@);
            ids.push(self.nodes[i].id);
            i = i + 1;
        }
        assert(ids@ =~= self@.ids());
        ids
    }
}

/// The links of bridges lead from node to node.
proof fn lemma_bridge_links_within(pairs: Seq<(u32, u32)>, ids: Seq<u32>, n: nat)
    requires
        n <= pairs.len(),
        ids.len() <= usize::MAX,
    ensures
        forall|i: int|
            0 <= i < bridge_links(pairs, ids, n).len() ==> (#[trigger] bridge_links(pairs, ids, n)[i]).from < ids.len()
                && bridge_links(pairs, ids, n)[i].to < ids.len(),
    decreases n,
{
    if n > 0 {
        lemma_bridge_links_within(pairs, ids, (n - 1) as nat);
        lemma_position_exists(ids, pairs[n - 1].0);
        lemma_position_exists(ids, pairs[n - 1].1);
        let before = bridge_links(pairs, ids, (n - 1) as nat);
        let after = bridge_links(pairs, ids, n);
        assert forall|i: int| 0 <= i < after.len() implies (#[trigger] after[i]).from < ids.len() && after[i].to
            < ids.len() by {
            if i < before.len() {
                assert(after[i] == before[i]);
            }
        }
    }
}

} // verus!
