//! One tick of the handshakes of nodes on their way back.

use vstd::prelude::*;

use crate::network::topology_map::lemma_filter_push;
use crate::network::world::{lemma_steady, steady, world, World};
use crate::network::{lemma_node_views_update, Network, NetworkView};
use crate::node::bridges::position;
use crate::node::reconnect::{lemma_reconnected_keeps, lemma_turned_away_keeps};
use crate::node::signals::signal_views;
use crate::node::{Mode, NodeSignal, NodeView, SignalType, SignalView};
use crate::persistence::NetworkLogger;

verus! {

impl NodeView {
    /// The requests to be let in that the node sends.
    pub open spec fn reconnect_requests(self, tick: u64) -> Seq<SignalView> {
        if self.state.mode == Mode::Reconnecting {
            self.known_neighbors().map_values(|id: u32| self.signal(Some(id), SignalType::ReconnectRequest, tick))
        } else {
            seq![]
        }
    }
}

impl NetworkView {
    /// The positions of the nodes on their way back.
    pub open spec fn reconnecting(self) -> Seq<usize> {
        Seq::new(self.nodes.len(), |i: int| i as usize).filter(
            |i: usize| self.nodes[i as int].state.mode == Mode::Reconnecting,
        )
    }

    /// The position of the node that the signal is for.
    pub open spec fn addressee(self, signal: SignalView) -> Option<usize> {
        match signal.target_id {
            Some(id) => position(self.ids(), id),
            None => None,
        }
    }

    /// The network after the handshakes of the first `n` of the positions were completed.
    pub open spec fn all_welcomed(self, completed: Seq<usize>, recorded_at: u64, n: nat) -> NetworkView
        decreases n,
    {
        if n == 0 {
            self
        } else {
            let before = self.all_welcomed(completed, recorded_at, (n - 1) as nat);
            let i = completed[n - 1] as int;
            before.with_node(i, before.nodes[i].reconnected(self.tick, recorded_at))
        }
    }

    /// The network after those of the first `n` requesters that did not complete have counted a failed
    /// attempt.
    pub open spec fn others_turned_away(
        self,
        requesters: Seq<usize>,
        completed: Seq<usize>,
        recorded_at: u64,
        n: nat,
    ) -> NetworkView
        decreases n,
    {
        if n == 0 {
            self
        } else {
            let before = self.others_turned_away(requesters, completed, recorded_at, (n - 1) as nat);
            let i = requesters[n - 1] as int;
            if completed.contains(requesters[n - 1]) {
                before
            } else {
                before.with_node(i, before.nodes[i].turned_away(self.tick, recorded_at))
            }
        }
    }
}

/// The answers to the requests, with the position of the node that each is for.
pub type Acks = Seq<(usize, SignalView)>;

impl World {
    /// The first `n` requests of a node reach its neighbours, and those that let it in answer.
    pub open spec fn requested(self, requester: usize, requests: Seq<SignalView>, recorded_at: u64, n: nat) -> (World, Acks)
        decreases n,
    {
        if n == 0 {
            (self, seq![])
        } else {
            let (before, acks) = self.requested(requester, requests, recorded_at, (n - 1) as nat);
            let request = requests[n - 1];
            match self.net.addressee(request) {
                Some(target) => {
                    let node = self.net.nodes[target as int];
                    (
                        before.noted(request, target as int, recorded_at),
                        if node.lets_in(request) {
                            acks.push(
                                (
                                    requester,
                                    node.signal(Some(request.source_id), SignalType::ReconnectAck, self.net.tick),
                                ),
                            )
                        } else {
                            acks
                        },
                    )
                },
                None => (before, acks),
            }
        }
    }

    /// The requests of the first `n` requesters.
    pub open spec fn all_requested(self, requesters: Seq<usize>, recorded_at: u64, n: nat) -> (World, Acks)
        decreases n,
    {
        if n == 0 {
            (self, seq![])
        } else {
            let (before, acks) = self.all_requested(requesters, recorded_at, (n - 1) as nat);
            let i = requesters[n - 1];
            let requests = self.net.nodes[i as int].reconnect_requests(self.net.tick);
            let (after, more) = before.requested(i, requests, recorded_at, requests.len());
            (after, acks + more)
        }
    }

    /// The first `n` answers reach the requesters; the positions of those that have a quorum with it.
    pub open spec fn acknowledged(self, acks: Acks, recorded_at: u64, n: nat) -> (World, Seq<usize>)
        decreases n,
    {
        if n == 0 {
            (self, seq![])
        } else {
            let (before, completed) = self.acknowledged(acks, recorded_at, (n - 1) as nat);
            let (i, ack) = acks[n - 1];
            let logged = before.noted(ack, i as int, recorded_at);
            let node = logged.net.nodes[i as int].confirmed(ack.source_id);
            (
                World { net: logged.net.with_node(i as int, node), ..logged },
                if node.has_quorum() { completed.push(i) } else { completed },
            )
        }
    }

    /// One tick of all handshakes.
    pub open spec fn handshaken(self, recorded_at: u64) -> World {
        let requesters = self.net.reconnecting();
        let (asked, acks) = self.all_requested(requesters, recorded_at, requesters.len());
        let (answered, completed) = asked.acknowledged(acks, recorded_at, acks.len());
        let welcomed = answered.net.all_welcomed(completed, recorded_at, completed.len());
        World {
            net: welcomed.others_turned_away(requesters, completed, recorded_at, requesters.len()),
            ..answered
        }
    }
}

pub open spec fn ack_views(acks: Seq<(usize, NodeSignal)>) -> Acks {
    acks.map_values(|a: (usize, NodeSignal)| (a.0, a.1@))
}

impl Network {
    /// The positions of the nodes on their way back.
    fn reconnecting_nodes(&self) -> (list: Vec<usize>)
        requires
            self@.wired(),
        ensures
            list@ == self@.reconnecting(),
            forall|k: int| 0 <= k < list@.len() ==> (#[trigger] list@[k]) < self.nodes@.len(),
    {
        let ghost net = self@;
        let mut list: Vec<usize> = Vec::new();
        let mut i: usize = 0;
        let ghost range = Seq::new(net.nodes.len(), |i: int| i as usize);
        let ghost keep = |i: usize| net.nodes[i as int].state.mode == Mode::Reconnecting;
        proof {
            reveal(Seq::filter);
            assert(range.take(0) =~= seq![]);
            assert(list@ =~= range.take(0).filter(keep));
        }
        while i < self.nodes.len()
            invariant
                i <= self.nodes@.len(),
                net == self@,
                range == Seq::new(net.nodes.len(), |i: int| i as usize),
                keep == (|i: usize| net.nodes[i as int].state.mode == Mode::Reconnecting),
                list@ == range.take(i as int).filter(keep),
                forall|k: int| 0 <= k < list@.len() ==> (#[trigger] list@[k]) < self.nodes@.len(),
            decreases self.nodes@.len() - i,
        {
            proof {
                assert(range[i as int] == i);
                assert(range.take(i + 1) =~= range.take(i as int).push(i));
                lemma_filter_push(range.take(i as int), i, keep);
                assert(net.nodes[i as int] == self.nodes@[i as int]@);
            }
            if self.nodes[i].state.mode == Mode::Reconnecting {
                list.push(i);
            }
            i = i + 1;
        }
        assert(range.take(i as int) =~= range);
        list
    }

    /// Brings one node's requests to its neighbours and collects the answers.
    fn request_all(
        &self,
        logger: &mut NetworkLogger,
        requester: usize,
        acks: &mut Vec<(usize, NodeSignal)>,
        recorded_at: u64,
    )
        requires
            requester < self.nodes@.len(),
            forall|k: int| 0 <= k < old(acks)@.len() ==> (#[trigger] old(acks)@[k]).0 < self.nodes@.len(),
        ensures
            ({
                let requests = self@.nodes[requester as int].reconnect_requests(self.tick);
                let (after, more) = world(self@, old(logger)@).requested(
                    requester,
                    requests,
                    recorded_at,
                    requests.len(),
                );
                &&& world(self@, final(logger)@) == after
                &&& ack_views(final(acks)@) == ack_views(old(acks)@) + more
            }),
            forall|k: int| 0 <= k < final(acks)@.len() ==> (#[trigger] final(acks)@[k]).0 < self.nodes@.len(),
    {
        let ghost start = world(self@, logger@);
        let ghost first = acks@;
        assert(self@.nodes[requester as int] == self.nodes@[requester as int]@);
        let signals = self.nodes[requester].generate_reconnect_requests(self.tick);
        let ghost requests = signal_views(signals@);
        assert(requests == self@.nodes[requester as int].reconnect_requests(self.tick));
        let mut i: usize = 0;
        assert(ack_views(acks@) =~= ack_views(first) + Seq::<(usize, SignalView)>::empty());
        while i < signals.len()
            invariant
                i <= signals@.len(),
                requester < self.nodes@.len(),
                requests == signal_views(signals@),
                start.net == self@,
                forall|k: int| 0 <= k < acks@.len() ==> (#[trigger] acks@[k]).0 < self.nodes@.len(),
                world(self@, logger@) == start.requested(requester, requests, recorded_at, i as nat).0,
                ack_views(acks@) == ack_views(first) + start.requested(requester, requests, recorded_at, i as nat).1,
            decreases signals@.len() - i,
        {
            let signal = &signals[i];
            assert(requests[i as int] == signal@);
            let ghost past = start.requested(requester, requests, recorded_at, i as nat).1;
            match signal.target_id {
                Some(target_id) => {
                    match self.index_of(target_id) {
                        Some(target) => {
                            self.log_signal_delivery(logger, signal, target, recorded_at);
                            assert(self@.nodes[target as int] == self.nodes@[target as int]@);
                            match self.nodes[target].handle_reconnect_request(signal, self.tick) {
                                Some(ack) => {
                                    let ghost a = ack@;
                                    let ghost before = acks@;
                                    acks.push((requester, ack));
                                    proof {
                                        assert(ack_views(acks@) =~= ack_views(before).push((requester, a)));
                                        assert(ack_views(acks@) =~= ack_views(first) + past.push((requester, a)));
                                    }
                                },
                                None => {},
                            }
                        },
                        None => {},
                    }
                },
                None => {},
            }
            i = i + 1;
        }
    }

    /// Brings the answers back; hands out the positions of the nodes that have a quorum with one.
    fn acknowledge_all(
        &mut self,
        logger: &mut NetworkLogger,
        acks: &Vec<(usize, NodeSignal)>,
        recorded_at: u64,
    ) -> (completed: Vec<usize>)
        requires
            forall|k: int| 0 <= k < acks@.len() ==> (#[trigger] acks@[k]).0 < old(self).nodes@.len(),
        ensures
            (world(final(self)@, final(logger)@), completed@) == world(old(self)@, old(logger)@).acknowledged(
                ack_views(acks@),
                recorded_at,
                acks@.len(),
            ),
            steady(old(self)@, final(self)@),
            final(self).tick == old(self).tick,
            forall|k: int| 0 <= k < completed@.len() ==> (#[trigger] completed@[k]) < old(self).nodes@.len(),
    {
        let ghost start = world(self@, logger@);
        let mut completed: Vec<usize> = Vec::new();
        let mut k: usize = 0;
        while k < acks.len()
            invariant
                k <= acks@.len(),
                forall|k: int| 0 <= k < acks@.len() ==> (#[trigger] acks@[k]).0 < self.nodes@.len(),
                (world(self@, logger@), completed@) == start.acknowledged(ack_views(acks@), recorded_at, k as nat),
                steady(start.net, self@),
                self.tick == start.net.tick,
                forall|k: int| 0 <= k < completed@.len() ==> (#[trigger] completed@[k]) < self.nodes@.len(),
            decreases acks@.len() - k,
        {
            let i: usize = acks[k].0;
            assert(ack_views(acks@)[k as int] == (i, acks@[k as int].1@));
            self.log_signal_delivery(logger, &acks[k].1, i, recorded_at);
            let ghost before = self.nodes@;
            assert(self@.nodes[i as int] == before[i as int]@);
            let quorum = self.nodes[i].handle_reconnect_ack(&acks[k].1);
            proof {
                lemma_node_views_update(before, self.nodes@, i as int);
            }
            if quorum {
                completed.push(i);
            }
            k = k + 1;
        }
        completed
    }

    fn welcome_all(&mut self, completed: &Vec<usize>, recorded_at: u64)
        requires
            old(self)@.wired(),
            forall|k: int| 0 <= k < completed@.len() ==> (#[trigger] completed@[k]) < old(self).nodes@.len(),
        ensures
            final(self)@ == old(self)@.all_welcomed(completed@, recorded_at, completed@.len()),
            steady(old(self)@, final(self)@),
            final(self).tick == old(self).tick,
    {
        let ghost start = self@;
        let mut k: usize = 0;
        while k < completed.len()
            invariant
                k <= completed@.len(),
                start.wired(),
                forall|k: int| 0 <= k < completed@.len() ==> (#[trigger] completed@[k]) < self.nodes@.len(),
                self@ == start.all_welcomed(completed@, recorded_at, k as nat),
                steady(start, self@),
                self.tick == start.tick,
            decreases completed@.len() - k,
        {
            let i: usize = completed[k];
            let tick: u64 = self.tick;
            let ghost before = self.nodes@;
            proof {
                lemma_steady(start, self@);
                assert(self@.nodes[i as int] == before[i as int]@);
            }
            self.nodes[i].complete_reconnect(tick, recorded_at);
            proof {
                lemma_reconnected_keeps(before[i as int]@, tick, recorded_at);
                lemma_node_views_update(before, self.nodes@, i as int);
            }
            k = k + 1;
        }
    }

    fn turn_away_others(&mut self, requesters: &Vec<usize>, completed: &Vec<usize>, recorded_at: u64)
        requires
            old(self)@.wired(),
            forall|k: int| 0 <= k < requesters@.len() ==> (#[trigger] requesters@[k]) < old(self).nodes@.len(),
        ensures
            final(self)@ == old(self)@.others_turned_away(
                requesters@,
                completed@,
                recorded_at,
                requesters@.len(),
            ),
            steady(old(self)@, final(self)@),
    {
        let ghost start = self@;
        let mut k: usize = 0;
        while k < requesters.len()
            invariant
                k <= requesters@.len(),
                start.wired(),
                forall|k: int| 0 <= k < requesters@.len() ==> (#[trigger] requesters@[k]) < self.nodes@.len(),
                self@ == start.others_turned_away(requesters@, completed@, recorded_at, k as nat),
                steady(start, self@),
                self.tick == start.tick,
            decreases requesters@.len() - k,
        {
            let i: usize = requesters[k];
            if !has_position(completed, i) {
                let tick: u64 = self.tick;
                let ghost before = self.nodes@;
                proof {
                    lemma_steady(start, self@);
                    assert(self@.nodes[i as int] == before[i as int]@);
                    }
                self.nodes[i].tick_failed_reconnect(tick, recorded_at);
                proof {
                    lemma_turned_away_keeps(before[i as int]@, tick, recorded_at);
                    lemma_node_views_update(before, self.nodes@, i as int);
                }
            }
            k = k + 1;
        }
    }

    /// One tick of all handshakes.
    pub(crate) fn tick_reconnect(&mut self, logger: &mut NetworkLogger, recorded_at: u64)
        requires
            old(self)@.wired(),
        ensures
            world(final(self)@, final(logger)@) == world(old(self)@, old(logger)@).handshaken(recorded_at),
            steady(old(self)@, final(self)@),
    {
        let ghost start = world(self@, logger@);
        let requesters = self.reconnecting_nodes();
        let mut acks: Vec<(usize, NodeSignal)> = Vec::new();
        let mut k: usize = 0;
        assert(ack_views(acks@) =~= Seq::<(usize, SignalView)>::empty());
        while k < requesters.len()
            invariant
                k <= requesters@.len(),
                start.net == self@,
                forall|k: int| 0 <= k < requesters@.len() ==> (#[trigger] requesters@[k]) < self.nodes@.len(),
                forall|k: int| 0 <= k < acks@.len() ==> (#[trigger] acks@[k]).0 < self.nodes@.len(),
                (world(self@, logger@), ack_views(acks@)) == start.all_requested(requesters@, recorded_at, k as nat),
            decreases requesters@.len() - k,
        {
            self.request_all(logger, requesters[k], &mut acks, recorded_at);
            k = k + 1;
        }
        let completed = self.acknowledge_all(logger, &acks, recorded_at);
        let ghost answered = world(self@, logger@);
        proof {
            lemma_steady(start.net, self@);
        }
        self.welcome_all(&completed, recorded_at);
        proof {
            lemma_steady(answered.net, self@);
        }
        self.turn_away_others(&requesters, &completed, recorded_at);
    }
}

/// The list has this position in it.
pub(crate) fn has_position(list: &Vec<usize>, x: usize) -> (b: bool)
    ensures
        b == list@.contains(x),
{
    let mut i: usize = 0;
    while i < list.len()
        invariant
            i <= list@.len(),
            forall|k: int| 0 <= k < i ==> list@[k] != x,
        decreases list@.len() - i,
    {
        if list[i] == x {
            assert(list@[i as int] == x);
            return true;
        }
        i = i + 1;
    }
    false
}

} // verus!
