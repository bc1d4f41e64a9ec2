//! Signals on their way, and the log of them.

use vstd::prelude::*;

use crate::network::topology_map::Link;
use crate::network::{lemma_node_views_update, lemma_still_sound, same_nodes, Network, NetworkView};
use crate::node::{NodeSignal, SignalView};
use crate::persistence::{ContentView, JournalView, NetworkLogger, SignalContent, SignalEntry, SignalEntryView};

verus! {

/// A network and its logs.
#[verifier::ext_equal]
pub struct World {
    pub net: NetworkView,
    pub log: JournalView,
}

pub open spec fn world(net: NetworkView, log: JournalView) -> World {
    World { net, log }
}

/// What the log says of a signal that a node gets.
pub open spec fn delivery(net: NetworkView, signal: SignalView, receiver: int, recorded_at: u64) -> SignalEntryView {
    SignalEntryView {
        tick: net.tick,
        sender_id: signal.source_id,
        receiver_id: net.nodes[receiver].id,
        signal_type: signal.signal_type.text(),
        content: ContentView {
            mode: signal.mode.text(),
            load: signal.load,
            active_connections: signal.active_connections,
            failed_auth_count: signal.failed_auth_count,
            ai_state_reason: signal.ai_state_reason,
            signal_threat_score: signal.threat_score,
        },
        receiver_threat_level: net.nodes[receiver].state.last_threat_score,
        recorded_at,
    }
}

impl JournalView {
    /// The logs with one delivery more.
    pub open spec fn delivered(
        self,
        net: NetworkView,
        signal: SignalView,
        receiver: int,
        recorded_at: u64,
    ) -> JournalView {
        JournalView {
            signals: self.signals.pushed(delivery(net, signal, receiver, recorded_at), net.tick),
            ..self
        }
    }
}

impl World {
    /// The delivery of a signal is logged.
    pub open spec fn noted(self, signal: SignalView, receiver: int, recorded_at: u64) -> World {
        World { log: self.log.delivered(self.net, signal, receiver, recorded_at), ..self }
    }

    /// A node gets a signal.
    pub open spec fn delivered(self, signal: SignalView, receiver: int, recorded_at: u64) -> World {
        World {
            net: self.net.with_node(receiver, self.net.nodes[receiver].received(signal, self.net.tick)),
            ..self.noted(signal, receiver, recorded_at)
        }
    }

    /// The signal goes along those of the first `n` links that are active and lead from `sender`.
    pub open spec fn sent(self, signal: SignalView, sender: int, recorded_at: u64, n: nat) -> World
        decreases n,
    {
        if n == 0 {
            self
        } else {
            let before = self.sent(signal, sender, recorded_at, (n - 1) as nat);
            let l = self.net.links[n - 1];
            if l.active && l.from == sender {
                before.delivered(signal, l.to as int, recorded_at)
            } else {
                before
            }
        }
    }
}

/// The nodes keep their ids and settings, and the links stay as they are.
pub open spec fn steady(a: NetworkView, b: NetworkView) -> bool {
    same_nodes(a, b) && a.links == b.links
}

/// Steady networks have the same ids and are sound together.
pub(crate) proof fn lemma_steady(a: NetworkView, b: NetworkView)
    requires
        steady(a, b),
    ensures
        a.ids() == b.ids(),
        a.wired() ==> b.wired(),
        a.numbered() ==> b.numbered(),
        a.sound() ==> b.sound(),
{
    assert(a.ids() =~= b.ids()) by {
        assert forall|i: int| 0 <= i < a.ids().len() implies a.ids()[i] == b.ids()[i] by {
            assert(a.nodes[i].id == b.nodes[i].id);
        }
    }
    lemma_still_sound(a, b);
}

impl Network {
    /// Logs that the node at `receiver` gets a signal.
    pub(crate) fn log_signal_delivery(
        &self,
        logger: &mut NetworkLogger,
        signal: &NodeSignal,
        receiver: usize,
        recorded_at: u64,
    )
        requires
            receiver < self.nodes@.len(),
        ensures
            final(logger)@ == old(logger)@.delivered(self@, signal@, receiver as int, recorded_at),
    {
        let node = &self.nodes[receiver];
        assert(self@.nodes[receiver as int] == node@);
        let content = SignalContent {
            mode: signal.mode.name(),
            load: signal.load,
            active_connections: signal.active_connections,
            failed_auth_count: signal.failed_auth_count,
            ai_state_reason: signal.ai_state_reason.clone(),
            signal_threat_score: signal.threat_score,
        };
        let entry = SignalEntry::now(
            self.tick,
            signal.source_id,
            node.id,
            signal.signal_type.name(),
            content,
            node.state.last_threat_score,
            recorded_at,
        );
        assert(entry@ =~= delivery(self@, signal@, receiver as int, recorded_at));
        logger.signals.push(entry, self.tick);
    }

    /// Gives a signal to the node at `receiver`.
    pub(crate) fn deliver(&mut self, logger: &mut NetworkLogger, signal: NodeSignal, receiver: usize, recorded_at: u64)
        requires
            receiver < old(self).nodes@.len(),
        ensures
            world(final(self)@, final(logger)@) == world(old(self)@, old(logger)@).delivered(
                signal@,
                receiver as int,
                recorded_at,
            ),
            steady(old(self)@, final(self)@),
    {
        self.log_signal_delivery(logger, &signal, receiver, recorded_at);
        let tick: u64 = self.tick;
        let ghost before = self.nodes@;
        self.nodes[receiver].receive_signal(signal, tick);
        proof {
            lemma_node_views_update(before, self.nodes@, receiver as int);
        }
    }

    /// Gives a signal to everyone to whom an active link leads from `sender`.
    pub(crate) fn send_along_links(
        &mut self,
        logger: &mut NetworkLogger,
        signal: &NodeSignal,
        sender: usize,
        recorded_at: u64,
    )
        requires
            old(self)@.wired(),
        ensures
            world(final(self)@, final(logger)@) == world(old(self)@, old(logger)@).sent(
                signal@,
                sender as int,
                recorded_at,
                old(self)@.links.len(),
            ),
            steady(old(self)@, final(self)@),
    {
        let ghost start = world(self@, logger@);
        let mut i: usize = 0;
        while i < self.links.len()
            invariant
                i <= self.links@.len(),
                start.net.wired(),
                steady(start.net, self@),
                world(self@, logger@) == start.sent(signal@, sender as int, recorded_at, i as nat),
            decreases self.links@.len() - i,
        {
            let l: Link = self.links[i];
            assert(start.net.links[i as int] == l);
            if l.active && l.from == sender {
                self.deliver(logger, signal.clone(), l.to, recorded_at);
            }
            i = i + 1;
        }
    }
}

} // verus!
