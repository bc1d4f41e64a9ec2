//! What reaches whom in a tick, and what the log says of it.

use vstd::prelude::*;

use crate::lists::lemma_filtered;
use crate::network::topology_map::Link;
use crate::network::world::{delivery, World};
use crate::network::NetworkView;
use crate::node::{NodeView, SignalView};
use crate::persistence::{law_log_keeps_order, JournalView, SignalEntryView};

verus! {

/// Signals on their way, each with the position of its receiver.
pub type Post = Seq<(SignalView, usize)>;

impl World {
    /// The first `n` signals reach their receivers.
    pub open spec fn handed(self, post: Post, recorded_at: u64, n: nat) -> World
        decreases n,
    {
        if n == 0 {
            self
        } else {
            self.handed(post, recorded_at, (n - 1) as nat).delivered(post[n - 1].0, post[n - 1].1 as int, recorded_at)
        }
    }
}

impl NodeView {
    /// The node after it has got the first `n` signals.
    pub open spec fn received_all(self, signals: Seq<SignalView>, tick: u64, n: nat) -> NodeView
        decreases n,
    {
        if n == 0 {
            self
        } else {
            self.received_all(signals, tick, (n - 1) as nat).received(signals[n - 1], tick)
        }
    }
}

/// Every receiver is one of the nodes.
pub open spec fn within(post: Post, nodes: nat) -> bool {
    forall|k: int| 0 <= k < post.len() ==> (#[trigger] post[k]).1 < nodes
}

/// The signals for the node at a position.
pub open spec fn for_node(post: Post, b: int) -> Seq<SignalView> {
    post.filter(|p: (SignalView, usize)| p.1 == b).map_values(|p: (SignalView, usize)| p.0)
}

/// The entries of the log on the post.
pub open spec fn entries(net: NetworkView, post: Post, recorded_at: u64) -> Seq<SignalEntryView> {
    post.map_values(|p: (SignalView, usize)| delivery(net, p.0, p.1 as int, recorded_at))
}

/// Getting signals changes nothing of a node but what it holds and remembers of its neighbours.
pub open spec fn only_hearing(a: NodeView, b: NodeView) -> bool {
    b == NodeView { neighbor_signals: b.neighbor_signals, neighbor_history: b.neighbor_history, ..a }
}

/// Nothing differs but what the nodes hold and remember of their neighbours, and what was logged of it.
pub open spec fn only_heard(a: World, b: World) -> bool {
    &&& b.net == NetworkView { nodes: b.net.nodes, ..a.net }
    &&& b.net.nodes.len() == a.net.nodes.len()
    &&& forall|i: int| 0 <= i < a.net.nodes.len() ==> only_hearing(a.net.nodes[i], #[trigger] b.net.nodes[i])
    &&& b.log == JournalView { signals: b.log.signals, ..a.log }
}

proof fn lemma_for_node_push(post: Post, p: (SignalView, usize), b: int)
    ensures
        for_node(post.push(p), b) == if p.1 == b { for_node(post, b).push(p.0) } else { for_node(post, b) },
{
    reveal(Seq::filter);
    assert(post.push(p).drop_last() =~= post);
    assert(for_node(post.push(p), b) =~= if p.1 == b { for_node(post, b).push(p.0) } else { for_node(post, b) });
}

/// A signal is for a node exactly if it was posted to it.
pub(crate) proof fn lemma_for_node(post: Post, b: int, s: SignalView)
    requires
        0 <= b <= usize::MAX,
    ensures
        for_node(post, b).contains(s) <==> post.contains((s, b as usize)),
    decreases post.len(),
{
    reveal(Seq::filter);
    let mine = for_node(post, b);
    if post.len() > 0 {
        let part = post.drop_last();
        let last = post.last();
        let rest = for_node(part, b);
        lemma_for_node(part, b, s);
        assert(post =~= part.push(last));
        lemma_for_node_push(part, last, b);
        if post.contains((s, b as usize)) {
            let k = post.index_of((s, b as usize));
            if k < part.len() {
                assert(part[k] == (s, b as usize));
                assert(mine[rest.index_of(s)] == s);
            } else {
                assert(mine[mine.len() - 1] == s);
            }
        }
        if mine.contains(s) {
            let k = mine.index_of(s);
            if k < rest.len() {
                assert(rest[k] == s);
                assert(post[part.index_of((s, b as usize))] == (s, b as usize));
            } else {
                assert(post[post.len() - 1] == (s, b as usize));
            }
        }
    }
}

proof fn lemma_received_all_prefix(node: NodeView, s: Seq<SignalView>, t: Seq<SignalView>, tick: u64, n: nat)
    requires
        n <= s.len(),
        n <= t.len(),
        forall|k: int| 0 <= k < n ==> s[k] == t[k],
    ensures
        node.received_all(s, tick, n) == node.received_all(t, tick, n),
    decreases n,
{
    if n > 0 {
        lemma_received_all_prefix(node, s, t, tick, (n - 1) as nat);
    }
}

/// Whatever is handed over is logged in order, and every node gets what is for it in order.
pub(crate) proof fn lemma_handed(w: World, post: Post, recorded_at: u64, n: nat, b: int)
    requires
        n <= post.len(),
        within(post, w.net.nodes.len()),
        0 <= b < w.net.nodes.len(),
    ensures
        only_heard(w, w.handed(post, recorded_at, n)),
        w.handed(post, recorded_at, n).log.signals.unwritten() == w.log.signals.unwritten() + entries(
            w.net,
            post.take(n as int),
            recorded_at,
        ),
        ({
            let mine = for_node(post.take(n as int), b);
            w.handed(post, recorded_at, n).net.nodes[b] == w.net.nodes[b].received_all(mine, w.net.tick, mine.len())
        }),
    decreases n,
{
    reveal(Seq::filter);
    if n == 0 {
        assert(post.take(0) =~= seq![]);
        assert(for_node(post.take(0), b) =~= seq![]);
        assert(w.log.signals.unwritten() + entries(w.net, post.take(0), recorded_at) =~= w.log.signals.unwritten());
        assert forall|i: int| 0 <= i < w.net.nodes.len() implies only_hearing(w.net.nodes[i], #[trigger] w.net.nodes[i]) by {}
    } else {
        let m = (n - 1) as nat;
        lemma_handed(w, post, recorded_at, m, b);
        let before = w.handed(post, recorded_at, m);
        let after = w.handed(post, recorded_at, n);
        let (signal, to) = post[n - 1];
        assert(post[n - 1].1 < w.net.nodes.len());
        lemma_handed(w, post, recorded_at, m, to as int);
        let part = post.take(m as int);
        assert(post.take(n as int) =~= part.push(post[n - 1]));
        let e = delivery(before.net, signal, to as int, recorded_at);
        assert(only_hearing(w.net.nodes[to as int], before.net.nodes[to as int]));
        assert(e == delivery(w.net, signal, to as int, recorded_at));
        law_log_keeps_order(before.log.signals, e, before.net.tick);
        assert(entries(w.net, part.push(post[n - 1]), recorded_at) =~= entries(w.net, part, recorded_at).push(e));
        assert(w.log.signals.unwritten() + entries(w.net, part, recorded_at).push(e) =~= (w.log.signals.unwritten()
            + entries(w.net, part, recorded_at)).push(e));
        assert forall|i: int| 0 <= i < w.net.nodes.len() implies only_hearing(w.net.nodes[i], #[trigger] after.net.nodes[i]) by {
            assert(only_hearing(w.net.nodes[i], before.net.nodes[i]));
        }
        lemma_for_node_push(part, post[n - 1], b);
        if to == b {
            let mine = for_node(part, b);
            lemma_received_all_prefix(w.net.nodes[b], mine, mine.push(signal), w.net.tick, mine.len());
        }
    }
}

pub(crate) proof fn lemma_handed_prefix(w: World, p: Post, q: Post, recorded_at: u64, n: nat)
    requires
        n <= p.len(),
        n <= q.len(),
        forall|k: int| 0 <= k < n ==> p[k] == q[k],
    ensures
        w.handed(p, recorded_at, n) == w.handed(q, recorded_at, n),
    decreases n,
{
    if n > 0 {
        lemma_handed_prefix(w, p, q, recorded_at, (n - 1) as nat);
    }
}

pub(crate) proof fn lemma_handed_in_turn(w: World, p: Post, q: Post, recorded_at: u64, n: nat)
    requires
        n <= q.len(),
    ensures
        w.handed(p + q, recorded_at, p.len() + n) == w.handed(p, recorded_at, p.len()).handed(q, recorded_at, n),
    decreases n,
{
    if n == 0 {
        lemma_handed_prefix(w, p + q, p, recorded_at, p.len());
    } else {
        lemma_handed_in_turn(w, p, q, recorded_at, (n - 1) as nat);
        assert((p + q)[p.len() + n - 1] == q[n - 1]);
    }
}

/// The node takes signals from there.
pub open spec fn listens(node: NodeView, id: u32) -> bool {
    node.neighbor_ids.contains(id) || node.neighbor_history.contains_key(id)
}

/// The last signal of a sender that the node has got is the last one it remembers, and the last one it holds of that
/// sender, if it holds any.
pub open spec fn heard_last(node: NodeView, id: u32, signal: SignalView) -> bool {
    &&& node.neighbor_history.contains_key(id)
    &&& node.neighbor_history[id].last_signal == Some(signal)
    &&& node.config.security.max_count_signals_from_neighbor > 0 ==> node.neighbor_signals.contains_key(id)
        && node.neighbor_signals[id].len() > 0 && node.neighbor_signals[id].last() == signal
}

/// The node knows the same of the sender as before.
pub open spec fn heard_nothing(a: NodeView, b: NodeView, id: u32) -> bool {
    &&& a.neighbor_history.contains_key(id) == b.neighbor_history.contains_key(id)
    &&& a.neighbor_history[id] == b.neighbor_history[id]
    &&& a.neighbor_signals.contains_key(id) == b.neighbor_signals.contains_key(id)
    &&& a.neighbor_signals[id] == b.neighbor_signals[id]
}

/// The `k`th of the first `n` signals is the last one of its sender.
pub open spec fn is_last(signals: Seq<SignalView>, n: nat, k: int, id: u32) -> bool {
    &&& 0 <= k < n
    &&& signals[k].source_id == id
    &&& none_after(signals, n, k, id)
}

/// None of the first `n` signals behind the `k`th is of that sender.
pub open spec fn none_after(signals: Seq<SignalView>, n: nat, k: int, id: u32) -> bool {
    forall|j: int| k < j < n ==> (#[trigger] signals[j]).source_id != id
}

pub(crate) proof fn lemma_received_all(node: NodeView, signals: Seq<SignalView>, tick: u64, n: nat, id: u32)
    requires
        n <= signals.len(),
        forall|k: int| 0 <= k < signals.len() ==> (#[trigger] signals[k]).timestamp == tick,
    ensures
        ({
            let after = node.received_all(signals, tick, n);
            &&& only_hearing(node, after)
            &&& listens(after, id) == listens(node, id)
            &&& none_after(signals, n, -1, id) ==> heard_nothing(node, after, id)
            &&& !listens(node, id) ==> heard_nothing(node, after, id)
            &&& forall|k: int| #[trigger]
                is_last(signals, n, k, id) && listens(node, id) ==> heard_last(after, id, signals[k])
        }),
    decreases n,
{
    if n > 0 {
        let m = (n - 1) as nat;
        lemma_received_all(node, signals, tick, m, id);
        let before = node.received_all(signals, tick, m);
        let after = node.received_all(signals, tick, n);
        let s = signals[n - 1];
        lemma_received_all(node, signals, tick, m, s.source_id);
        assert(after == before.received(s, tick));
        assert(signals[n - 1].timestamp == tick);
        assert forall|k: int| #[trigger] is_last(signals, n, k, id) && listens(node, id) implies heard_last(
            after,
            id,
            signals[k],
        ) by {
            if k < m {
                assert(signals[m as int].source_id != id);
                assert(is_last(signals, m, k, id));
            }
        }
        if none_after(signals, n, -1, id) {
            assert(signals[m as int].source_id != id);
            assert(none_after(signals, m, -1, id));
        }
    }
}

/// Where there are signals of a sender, one of them is the last.
pub(crate) proof fn lemma_last_of_sender(signals: Seq<SignalView>, id: u32, n: nat) -> (k: int)
    requires
        n <= signals.len(),
        !none_after(signals, n, -1, id),
    ensures
        is_last(signals, n, k, id),
    decreases n,
{
    if n == 0 {
        0
    } else if signals[n - 1].source_id == id {
        n - 1
    } else {
        let j = choose|j: int| 0 <= j < n && (#[trigger] signals[j]).source_id == id;
        assert(j < n - 1);
        assert(!none_after(signals, (n - 1) as nat, -1, id));
        let k = lemma_last_of_sender(signals, id, (n - 1) as nat);
        assert(is_last(signals, n, k, id));
        k
    }
}

/// What the log says of a delivery: who has sent what to whom and in which tick, and how the receiver rates itself.
pub proof fn law_delivery(net: NetworkView, signal: SignalView, receiver: int, recorded_at: u64)
    ensures
        ({
            let e = delivery(net, signal, receiver, recorded_at);
            &&& e.tick == net.tick
            &&& e.sender_id == signal.source_id
            &&& e.receiver_id == net.nodes[receiver].id
            &&& e.signal_type == signal.signal_type.text()
            &&& e.content.mode == signal.mode.text()
            &&& e.content.load == signal.load
            &&& e.content.active_connections == signal.active_connections
            &&& e.content.failed_auth_count == signal.failed_auth_count
            &&& e.content.ai_state_reason == signal.ai_state_reason
            &&& e.content.signal_threat_score == signal.threat_score
            &&& e.receiver_threat_level == net.nodes[receiver].state.last_threat_score
            &&& e.recorded_at == recorded_at
        }),
{
}

/// The signals that go along the active ones of the links: from the node at the one end to that at the other.
pub open spec fn along(links: Seq<Link>, signals: Seq<SignalView>) -> Post {
    links.filter(|l: Link| l.active).map_values(|l: Link| (signals[l.from as int], l.to))
}

proof fn lemma_broadcast_handed(w: World, signals: Seq<SignalView>, recorded_at: u64, n: nat)
    requires
        n <= w.net.links.len(),
    ensures
        ({
            let post = along(w.net.links.take(n as int), signals);
            w.broadcast(signals, recorded_at, n) == w.handed(post, recorded_at, post.len())
        }),
    decreases n,
{
    reveal(Seq::filter);
    if n > 0 {
        let m = (n - 1) as nat;
        lemma_broadcast_handed(w, signals, recorded_at, m);
        let l = w.net.links[n - 1];
        let part = w.net.links.take(m as int);
        let before = along(part, signals);
        let after = along(w.net.links.take(n as int), signals);
        assert(w.net.links.take(n as int).drop_last() =~= part);
        if l.active {
            let p = (signals[l.from as int], l.to);
            assert(after =~= before.push(p));
            lemma_handed_prefix(w, before.push(p), before, recorded_at, before.len());
        } else {
            assert(after =~= before);
        }
    }
}

/// In the first step of a tick the signal of every node goes along every active link from it, physical or virtual, and
/// nowhere else: the log gets one entry for each active link, in their order, and no other.
pub proof fn law_signals_go_along_active_links(w: World, recorded_at: u64)
    requires
        w.net.wired(),
        !w.net.finished,
        w.net.tick < u64::MAX,
    ensures
        ({
            let after = w.ticked(recorded_at);
            let now = (w.net.tick + 1) as u64;
            let open = w.net.links.filter(|l: Link| l.active);
            let told = after.log.signals.unwritten();
            let past = w.log.signals.unwritten().len();
            &&& told.len() == past + open.len()
            &&& told.take(past as int) == w.log.signals.unwritten()
            &&& forall|k: int|
                #![trigger open[k]]
                0 <= k < open.len() ==> {
                    let e = told[past + k];
                    let from = w.net.nodes[open[k].from as int];
                    let to = w.net.nodes[open[k].to as int];
                    &&& e.tick == now
                    &&& e.sender_id == from.id
                    &&& e.receiver_id == to.id
                    &&& e.signal_type == from.broadcast(now).signal_type.text()
                    &&& e.content.mode == from.state.mode.text()
                    &&& e.content.load == from.state.load
                    &&& e.content.ai_state_reason == from.state.ai_state_reason
                    &&& e.content.signal_threat_score == from.state.last_threat_score
                    &&& e.receiver_threat_level == to.state.last_threat_score
                }
        }),
{
    let next = World { net: w.net.next_tick(), ..w };
    let signals = next.net.broadcasts();
    let links = w.net.links;
    let post = along(links, signals);
    assert(links.take(links.len() as int) =~= links);
    lemma_broadcast_handed(next, signals, recorded_at, links.len());
    lemma_within(w.net, signals);
    if w.net.nodes.len() > 0 {
        lemma_handed(next, post, recorded_at, post.len(), 0);
    } else {
        let open = links.filter(|l: Link| l.active);
        if open.len() > 0 {
            assert(open.contains(open[0]));
            lemma_filtered(links, |l: Link| l.active, open[0]);
            assert(links[links.index_of(open[0])].from < w.net.nodes.len());
        }
        assert(entries(next.net, post, recorded_at) =~= seq![]);
        assert(w.log.signals.unwritten() + entries(next.net, post, recorded_at) =~= w.log.signals.unwritten());
    }
    assert(post.take(post.len() as int) =~= post);
    let told = w.ticked(recorded_at).log.signals.unwritten();
    let past = w.log.signals.unwritten();
    assert(told == past + entries(next.net, post, recorded_at));
    assert(told.take(past.len() as int) =~= past);
    let open = links.filter(|l: Link| l.active);
    assert forall|k: int| #![trigger open[k]] 0 <= k < open.len() implies told[past.len() + k] == delivery(
        next.net,
        signals[open[k].from as int],
        open[k].to as int,
        recorded_at,
    ) && open[k].from < w.net.nodes.len() && open[k].to < w.net.nodes.len() by {
        assert(open.contains(open[k]));
        lemma_filtered(links, |l: Link| l.active, open[k]);
        assert(links[links.index_of(open[k])].from < w.net.nodes.len());
        assert(post[k] == (signals[open[k].from as int], open[k].to));
    }
}

proof fn lemma_within(net: NetworkView, signals: Seq<SignalView>)
    requires
        net.wired(),
    ensures
        within(along(net.links, signals), net.nodes.len()),
{
    let open = net.links.filter(|l: Link| l.active);
    assert forall|k: int| 0 <= k < open.len() implies (#[trigger] open[k]).to < net.nodes.len() by {
        assert(open.contains(open[k]));
        lemma_filtered(net.links, |l: Link| l.active, open[k]);
        assert(net.links[net.links.index_of(open[k])].to < net.nodes.len());
    }
}

/// In the first step of a tick a node that listens to another gets that node's signal of this tick where an active
/// link leads from the other to it, physical or virtual, and hears nothing of the other where none does, or where
/// it does not listen.
pub proof fn law_neighbors_hear_each_other(w: World, recorded_at: u64, a: int, b: int)
    requires
        w.net.wired(),
        w.net.ids().no_duplicates(),
        !w.net.finished,
        w.net.tick < u64::MAX,
        0 <= a < w.net.nodes.len(),
        0 <= b < w.net.nodes.len(),
    ensures
        ({
            let now = (w.net.tick + 1) as u64;
            let sender = w.net.nodes[a];
            let before = w.net.nodes[b];
            let after = w.ticked(recorded_at).net.nodes[b];
            let open = exists|i: int|
                0 <= i < w.net.links.len() && (#[trigger] w.net.links[i]).active && w.net.links[i].from == a
                    && w.net.links[i].to == b;
            &&& only_hearing(before, after)
            &&& open && (before.neighbor_ids.contains(sender.id) || before.neighbor_history.contains_key(sender.id))
                ==> heard_last(after, sender.id, sender.broadcast(now))
            &&& !open ==> heard_nothing(before, after, sender.id)
        }),
{
    let next = World { net: w.net.next_tick(), ..w };
    let now = next.net.tick;
    let signals = next.net.broadcasts();
    let links = w.net.links;
    let post = along(links, signals);
    let sender = w.net.nodes[a];
    let before = w.net.nodes[b];
    assert(links.take(links.len() as int) =~= links);
    lemma_broadcast_handed(next, signals, recorded_at, links.len());
    lemma_within(w.net, signals);
    lemma_handed(next, post, recorded_at, post.len(), b);
    assert(post.take(post.len() as int) =~= post);
    let mine = for_node(post, b);
    let p = |l: Link| l.active;
    let open = links.filter(p);
    assert forall|k: int| #![trigger mine[k]] 0 <= k < mine.len() implies exists|i: int|
        0 <= i < links.len() && (#[trigger] links[i]).active && links[i].to == b && links[i].from < w.net.nodes.len()
            && mine[k] == signals[links[i].from as int] by {
        assert(mine.contains(mine[k]));
        lemma_for_node(post, b, mine[k]);
        let j = post.index_of((mine[k], b as usize));
        assert(open.contains(open[j]));
        lemma_filtered(links, p, open[j]);
        let i = links.index_of(open[j]);
        assert(links[i].active && links[i].to == b && links[i].from < w.net.nodes.len());
    }
    assert forall|k: int| 0 <= k < mine.len() implies (#[trigger] mine[k]).timestamp == now by {
        let i = choose|i: int|
            0 <= i < links.len() && (#[trigger] links[i]).active && links[i].to == b && links[i].from < w.net.nodes.len()
                && mine[k] == signals[links[i].from as int];
    }
    assert forall|k: int| 0 <= k < mine.len() && (#[trigger] mine[k]).source_id == sender.id implies mine[k] == signals[a]
        && exists|i: int|
        0 <= i < links.len() && (#[trigger] links[i]).active && links[i].from == a && links[i].to == b by {
        let i = choose|i: int|
            0 <= i < links.len() && (#[trigger] links[i]).active && links[i].to == b && links[i].from < w.net.nodes.len()
                && mine[k] == signals[links[i].from as int];
        let f = links[i].from as int;
        assert(w.net.ids()[f] == w.net.ids()[a]);
        assert(f == a);
    }
    lemma_received_all(before, mine, now, mine.len(), sender.id);
    let linked = exists|i: int|
        0 <= i < links.len() && (#[trigger] links[i]).active && links[i].from == a && links[i].to == b;
    if linked {
        let i = choose|i: int|
            0 <= i < links.len() && (#[trigger] links[i]).active && links[i].from == a && links[i].to == b;
        let l = links[i];
        assert(links.contains(l));
        lemma_filtered(links, p, l);
        let j = open.index_of(l);
        assert(post[j] == (signals[a], l.to));
        assert(post.contains((signals[a], b as usize)));
        lemma_for_node(post, b, signals[a]);
        let k = mine.index_of(signals[a]);
        assert(mine[k] == signals[a]);
        assert(mine[k].source_id == sender.id);
        let k = lemma_last_of_sender(mine, sender.id, mine.len());
        assert(mine[k] == signals[a]);
    } else {
        assert forall|k: int| 0 <= k < mine.len() implies (#[trigger] mine[k]).source_id != sender.id by {
            if mine[k].source_id == sender.id {
                assert(linked);
            }
        }
    }
}

} // verus!
