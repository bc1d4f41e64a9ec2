//! What becomes of the votes and of the advice that the nodes give.

use vstd::prelude::*;

use crate::lists::lemma_filtered;
use crate::network::deliveries::{
    for_node, heard_last, heard_nothing, lemma_for_node, lemma_handed, lemma_handed_in_turn, lemma_handed_prefix,
    lemma_last_of_sender, lemma_received_all, listens, none_after, only_hearing, within, Post,
};
use crate::network::tick::replies_at;
use crate::network::topology_map::Link;
use crate::network::world::World;
use crate::network::NetworkView;
use crate::node::bridges::{lemma_position_exists, position};
use crate::node::laws::{law_accusers, law_every_suspect_is_accused, to_accuse};
use crate::node::{NodeView, SignalType, SignalView};
use crate::single::Single;

verus! {

/// An active link leads from the one position to the other.
pub open spec fn open_way(net: NetworkView, a: int, b: int) -> bool {
    exists|i: int|
        0 <= i < net.links.len() && (#[trigger] net.links[i]).active && net.links[i].from == a && net.links[i].to == b
}

/// What a node hears of a sender that has sent it one and the same signal, or none.
proof fn lemma_hears(w: World, post: Post, recorded_at: u64, b: int, id: u32, s: SignalView)
    requires
        within(post, w.net.nodes.len()),
        w.net.nodes.len() <= u32::MAX,
        0 <= b < w.net.nodes.len(),
        s.source_id == id,
        forall|k: int| 0 <= k < post.len() ==> (#[trigger] post[k]).0.timestamp == w.net.tick,
        forall|k: int| 0 <= k < post.len() && (#[trigger] post[k]).1 == b && post[k].0.source_id == id ==> post[k].0 == s,
    ensures
        ({
            let before = w.net.nodes[b];
            let after = w.handed(post, recorded_at, post.len()).net.nodes[b];
            &&& only_hearing(before, after)
            &&& post.contains((s, b as usize)) && listens(before, id) ==> heard_last(after, id, s)
            &&& !post.contains((s, b as usize)) ==> heard_nothing(before, after, id)
        }),
{
    let before = w.net.nodes[b];
    let mine = for_node(post, b);
    lemma_handed(w, post, recorded_at, post.len(), b);
    assert(post.take(post.len() as int) =~= post);
    assert forall|k: int| 0 <= k < mine.len() implies (#[trigger] mine[k]).timestamp == w.net.tick && (mine[k].source_id
        == id ==> mine[k] == s && post.contains((s, b as usize))) by {
        assert(mine.contains(mine[k]));
        lemma_for_node(post, b, mine[k]);
        let j = post.index_of((mine[k], b as usize));
        assert(post[j].0 == mine[k] && post[j].1 == b);
    }
    lemma_received_all(before, mine, w.net.tick, mine.len(), id);
    if post.contains((s, b as usize)) {
        lemma_for_node(post, b, s);
        let k = mine.index_of(s);
        assert(mine[k].source_id == id);
        let k = lemma_last_of_sender(mine, id, mine.len());
        assert(mine[k] == s);
    } else {
        assert(none_after(mine, mine.len(), -1, id));
    }
}

/// What goes out of a node along its active links.
pub open spec fn out_of(links: Seq<Link>, a: int, signal: SignalView) -> Post {
    links.filter(|l: Link| l.active && l.from == a).map_values(|l: Link| (signal, l.to))
}

proof fn lemma_sent_handed(w: World, signal: SignalView, a: int, recorded_at: u64, n: nat)
    requires
        n <= w.net.links.len(),
    ensures
        ({
            let post = out_of(w.net.links.take(n as int), a, signal);
            w.sent(signal, a, recorded_at, n) == w.handed(post, recorded_at, post.len())
        }),
    decreases n,
{
    reveal(Seq::filter);
    if n > 0 {
        let m = (n - 1) as nat;
        lemma_sent_handed(w, signal, a, recorded_at, m);
        let l = w.net.links[n - 1];
        let before = out_of(w.net.links.take(m as int), a, signal);
        let after = out_of(w.net.links.take(n as int), a, signal);
        assert(w.net.links.take(n as int).drop_last() =~= w.net.links.take(m as int));
        if l.active && l.from == a {
            let p = (signal, l.to);
            assert(after =~= before.push(p));
            lemma_handed_prefix(w, before.push(p), before, recorded_at, before.len());
        } else {
            assert(after =~= before);
        }
    }
}

proof fn lemma_out_of(links: Seq<Link>, a: int, signal: SignalView, p: (SignalView, usize))
    ensures
        out_of(links, a, signal).contains(p) <==> p.0 == signal && exists|i: int|
            0 <= i < links.len() && (#[trigger] links[i]).active && links[i].from == a && links[i].to == p.1,
{
    let keep = |l: Link| l.active && l.from == a;
    let open = links.filter(keep);
    let post = out_of(links, a, signal);
    if post.contains(p) {
        let k = post.index_of(p);
        assert(open.contains(open[k]));
        lemma_filtered(links, keep, open[k]);
        let i = links.index_of(open[k]);
        assert(links[i].active && links[i].from == a && links[i].to == p.1);
    }
    if p.0 == signal && exists|i: int|
        0 <= i < links.len() && (#[trigger] links[i]).active && links[i].from == a && links[i].to == p.1 {
        let i = choose|i: int|
            0 <= i < links.len() && (#[trigger] links[i]).active && links[i].from == a && links[i].to == p.1;
        assert(links.contains(links[i]));
        lemma_filtered(links, keep, links[i]);
        let k = open.index_of(links[i]);
        assert(post[k] == p);
    }
}

/// The advice of the first `n` nodes on its way.
pub open spec fn advice_post(links: Seq<Link>, advices: Seq<Option<SignalView>>, n: nat) -> Post
    decreases n,
{
    if n == 0 {
        seq![]
    } else {
        advice_post(links, advices, (n - 1) as nat) + match advices[n - 1] {
            Some(signal) => out_of(links, n - 1, signal),
            None => seq![],
        }
    }
}

proof fn lemma_advised_handed(w: World, advices: Seq<Option<SignalView>>, recorded_at: u64, n: nat)
    requires
        w.net.wired(),
        n <= advices.len(),
    ensures
        within(advice_post(w.net.links, advices, n), w.net.nodes.len()),
        ({
            let post = advice_post(w.net.links, advices, n);
            &&& w.advised(advices, recorded_at, n) == w.handed(post, recorded_at, post.len())
            &&& w.advised(advices, recorded_at, n).net.links == w.net.links
        }),
    decreases n,
{
    if n > 0 {
        let m = (n - 1) as nat;
        lemma_advised_handed(w, advices, recorded_at, m);
        let links = w.net.links;
        let past = advice_post(links, advices, m);
        let before = w.advised(advices, recorded_at, m);
        match advices[n - 1] {
            Some(signal) => {
                let more = out_of(links, n - 1, signal);
                assert(links.take(links.len() as int) =~= links);
                lemma_sent_handed(before, signal, n - 1, recorded_at, links.len());
                lemma_handed_in_turn(w, past, more, recorded_at, more.len());
                assert forall|k: int| 0 <= k < more.len() implies (#[trigger] more[k]).1 < w.net.nodes.len() by {
                    assert(more.contains(more[k]));
                    lemma_out_of(links, n - 1, signal, more[k]);
                }
                assert forall|k: int| 0 <= k < (past + more).len() implies (#[trigger] (past + more)[k]).1
                    < w.net.nodes.len() by {
                    if k < past.len() {
                        assert((past + more)[k] == past[k]);
                    } else {
                        assert((past + more)[k] == more[k - past.len()]);
                    }
                }
                lemma_links_stay(before, more, recorded_at, more.len());
            },
            None => {
                assert(past + Seq::<(SignalView, usize)>::empty() =~= past);
            },
        }
    }
}

proof fn lemma_links_stay(w: World, post: Post, recorded_at: u64, n: nat)
    ensures
        w.handed(post, recorded_at, n).net.links == w.net.links,
    decreases n,
{
    if n > 0 {
        lemma_links_stay(w, post, recorded_at, (n - 1) as nat);
    }
}

proof fn lemma_advice_post(links: Seq<Link>, advices: Seq<Option<SignalView>>, n: nat, p: (SignalView, usize))
    requires
        n <= advices.len(),
    ensures
        advice_post(links, advices, n).contains(p) <==> exists|a: int|
            0 <= a < n && #[trigger] advices[a] == Some(p.0) && exists|i: int|
                0 <= i < links.len() && (#[trigger] links[i]).active && links[i].from == a && links[i].to == p.1,
    decreases n,
{
    if n > 0 {
        let m = (n - 1) as nat;
        lemma_advice_post(links, advices, m, p);
        let past = advice_post(links, advices, m);
        let more: Post = match advices[n - 1] {
            Some(signal) => out_of(links, n - 1, signal),
            None => seq![],
        };
        match advices[n - 1] {
            Some(signal) => {
                lemma_out_of(links, n - 1, signal, p);
            },
            None => {},
        }
        let all = past + more;
        if all.contains(p) {
            let k = all.index_of(p);
            if k < past.len() {
                assert(past[k] == p);
            } else {
                assert(more[k - past.len()] == p);
                assert(more.contains(p));
                assert(advices[n - 1] == Some(p.0));
            }
        }
        if past.contains(p) {
            assert(all[past.index_of(p)] == p);
        }
        if more.contains(p) {
            assert(all[past.len() + more.index_of(p)] == p);
        }
    }
}

/// A node that has news of its load or of its isolation tells everyone to whom an active link leads, physical or
/// virtual, and who listens to it; and it has told it then. Of a node without news, or without a link, nobody hears
/// anything in this.
pub proof fn law_advice_goes_along_active_links(w: World, recorded_at: u64, a: int, b: int)
    requires
        w.net.wired(),
        w.net.ids().no_duplicates(),
        0 <= a < w.net.nodes.len(),
        0 <= b < w.net.nodes.len(),
    ensures
        ({
            let sender = w.net.nodes[a];
            let before = w.net.nodes[b];
            let after = w.all_advised(recorded_at).net.nodes[b];
            &&& after.state.pending_load_signal is None
            &&& only_hearing(before.told_all(), after)
            &&& sender.state.pending_load_signal is Some && open_way(w.net, a, b) && listens(before, sender.id)
                ==> heard_last(after, sender.id, sender.advice(w.net.tick)->0)
            &&& sender.state.pending_load_signal is None || !open_way(w.net, a, b) ==> heard_nothing(
                before,
                after,
                sender.id,
            )
        }),
{
    let told = World { net: w.net.all_told(), ..w };
    let advices = w.net.advices();
    let links = w.net.links;
    let n = w.net.nodes.len();
    let post = advice_post(links, advices, n);
    let sender = w.net.nodes[a];
    let s = if sender.advice(w.net.tick) is Some {
        sender.advice(w.net.tick)->0
    } else {
        sender.broadcast(w.net.tick)
    };
    lemma_advised_handed(told, advices, recorded_at, n);
    assert forall|k: int| 0 <= k < post.len() implies (#[trigger] post[k]).0.timestamp == w.net.tick && (post[k].1 == b
        && post[k].0.source_id == sender.id ==> post[k].0 == s && sender.advice(w.net.tick) is Some && open_way(
        w.net,
        a,
        b,
    )) by {
        assert(post.contains(post[k]));
        lemma_advice_post(links, advices, n, post[k]);
        let c = choose|c: int|
            0 <= c < n && #[trigger] advices[c] == Some(post[k].0) && exists|i: int|
                0 <= i < links.len() && (#[trigger] links[i]).active && links[i].from == c && links[i].to == post[k].1;
        if post[k].0.source_id == sender.id {
            assert(w.net.ids()[c] == w.net.ids()[a]);
        }
    }
    lemma_hears(told, post, recorded_at, b, sender.id, s);
    if sender.advice(w.net.tick) is Some && open_way(w.net, a, b) {
        assert(advices[a] == Some(s));
        lemma_advice_post(links, advices, n, (s, b as usize));
    }
    if post.contains((s, b as usize)) {
        let k = post.index_of((s, b as usize));
        assert(post[k].0 == s);
    }
}

/// Those of a node's votes that reach whom they are against, on their way.
pub open spec fn ballots(net: NetworkView, a: int, votes: Seq<SignalView>) -> Post
    decreases votes.len(),
{
    if votes.len() == 0 {
        seq![]
    } else {
        let before = ballots(net, a, votes.drop_last());
        let vote = votes.last();
        match net.addressee(vote) {
            Some(b) => if open_way(net, a, b as int) { before.push((vote, b)) } else { before },
            None => before,
        }
    }
}

/// The votes of the first `n` nodes on their way.
pub open spec fn all_ballots(net: NetworkView, votes: Seq<Seq<SignalView>>, n: nat) -> Post
    decreases n,
{
    if n == 0 {
        seq![]
    } else {
        all_ballots(net, votes, (n - 1) as nat) + ballots(net, n - 1, votes[n - 1])
    }
}

/// The nodes are the same ones, and so are the links.
spec fn alike(a: NetworkView, b: NetworkView) -> bool {
    a.ids() == b.ids() && a.links == b.links && a.nodes.len() == b.nodes.len() && a.tick == b.tick
}

pub(crate) proof fn lemma_own_position(net: NetworkView, a: int)
    requires
        net.nodes.len() <= u32::MAX,
        net.ids().no_duplicates(),
        0 <= a < net.nodes.len(),
    ensures
        position(net.ids(), net.nodes[a].id) == Some(a as usize),
{
    lemma_position_exists(net.ids(), net.nodes[a].id);
    assert(net.ids()[a] == net.nodes[a].id);
    match position(net.ids(), net.nodes[a].id) {
        Some(i) => {
            assert(net.ids()[i as int] == net.ids()[a]);
        },
        None => {
            assert(net.ids().contains(net.nodes[a].id));
        },
    }
}

proof fn lemma_ballots_alike(m: NetworkView, n: NetworkView, a: int, votes: Seq<SignalView>)
    requires
        alike(m, n),
    ensures
        ballots(m, a, votes) == ballots(n, a, votes),
    decreases votes.len(),
{
    if votes.len() > 0 {
        lemma_ballots_alike(m, n, a, votes.drop_last());
        match m.addressee(votes.last()) {
            Some(b) => {
                assert(open_way(m, a, b as int) == open_way(n, a, b as int));
            },
            None => {},
        }
    }
}

proof fn lemma_votes_handed(w: World, a: int, votes: Seq<SignalView>, recorded_at: u64, n: nat)
    requires
        w.net.wired(),
        w.net.ids().no_duplicates(),
        0 <= a < w.net.nodes.len(),
        n <= votes.len(),
    ensures
        ({
            let post = ballots(w.net, a, votes.take(n as int));
            let after = w.votes_cast(w.net.nodes[a].id, votes, recorded_at, n);
            &&& within(post, w.net.nodes.len())
            &&& after == w.handed(post, recorded_at, post.len())
            &&& alike(w.net, after.net)
        }),
    decreases n,
{
    if n > 0 {
        let m = (n - 1) as nat;
        lemma_votes_handed(w, a, votes, recorded_at, m);
        let before = w.votes_cast(w.net.nodes[a].id, votes, recorded_at, m);
        let past = ballots(w.net, a, votes.take(m as int));
        let vote = votes[n - 1];
        assert(votes.take(n as int).drop_last() =~= votes.take(m as int));
        lemma_own_position(w.net, a);
        match w.net.addressee(vote) {
            Some(b) => {
                lemma_position_exists(w.net.ids(), vote.target_id->0);
                assert(before.net.linked(a as usize, b) == open_way(w.net, a, b as int));
                if open_way(w.net, a, b as int) {
                    lemma_handed_prefix(w, past.push((vote, b)), past, recorded_at, past.len());
                    let after = before.delivered(vote, b as int, recorded_at);
                    assert(after.net.ids() =~= before.net.ids());
                }
            },
            None => {},
        }
    } else {
        assert(votes.take(0) =~= seq![]);
    }
}

proof fn lemma_all_votes_handed(w: World, votes: Seq<Seq<SignalView>>, recorded_at: u64, n: nat)
    requires
        w.net.wired(),
        w.net.ids().no_duplicates(),
        n <= w.net.nodes.len(),
        n <= votes.len(),
    ensures
        ({
            let post = all_ballots(w.net, votes, n);
            let after = w.all_votes_cast(votes, recorded_at, n);
            &&& within(post, w.net.nodes.len())
            &&& after == w.handed(post, recorded_at, post.len())
            &&& alike(w.net, after.net)
        }),
    decreases n,
{
    if n > 0 {
        let m = (n - 1) as nat;
        lemma_all_votes_handed(w, votes, recorded_at, m);
        let before = w.all_votes_cast(votes, recorded_at, m);
        let past = all_ballots(w.net, votes, m);
        let own = votes[n - 1];
        let more = ballots(w.net, n - 1, own);
        assert(own.take(own.len() as int) =~= own);
        assert(before.net.nodes[n - 1].id == before.net.ids()[n - 1]);
        assert(w.net.nodes[n - 1].id == w.net.ids()[n - 1]);
        assert(before.net.wired());
        lemma_votes_handed(before, n - 1, own, recorded_at, own.len());
        lemma_ballots_alike(w.net, before.net, n - 1, own);
        lemma_handed_in_turn(w, past, more, recorded_at, more.len());
        assert forall|k: int| 0 <= k < (past + more).len() implies (#[trigger] (past + more)[k]).1 < w.net.nodes.len() by {
            if k < past.len() {
                assert((past + more)[k] == past[k]);
            } else {
                assert((past + more)[k] == more[k - past.len()]);
            }
        }
    }
}

proof fn lemma_ballots(net: NetworkView, a: int, votes: Seq<SignalView>, p: (SignalView, usize))
    ensures
        ballots(net, a, votes).contains(p) <==> votes.contains(p.0) && net.addressee(p.0) == Some(p.1) && open_way(
            net,
            a,
            p.1 as int,
        ),
    decreases votes.len(),
{
    if votes.len() > 0 {
        let rest = votes.drop_last();
        let past = ballots(net, a, rest);
        let all = ballots(net, a, votes);
        lemma_ballots(net, a, rest, p);
        if votes.contains(p.0) {
            let k = votes.index_of(p.0);
            if k < rest.len() {
                assert(rest[k] == p.0);
            }
        }
        if rest.contains(p.0) {
            assert(votes[rest.index_of(p.0)] == p.0);
        }
        if past.contains(p) {
            assert(all[past.index_of(p)] == p);
        }
        if all.contains(p) {
            let k = all.index_of(p);
            if k < past.len() {
                assert(past[k] == p);
            } else {
                assert(votes[votes.len() - 1] == p.0);
            }
        }
        if votes.last() == p.0 && net.addressee(p.0) == Some(p.1) && open_way(net, a, p.1 as int) {
            assert(all[all.len() - 1] == p);
        }
    }
}

/// The vote is cast by the node at the position, and there is a way for it.
pub open spec fn gets_through(net: NetworkView, votes: Seq<Seq<SignalView>>, a: int, p: (SignalView, usize)) -> bool {
    votes[a].contains(p.0) && net.addressee(p.0) == Some(p.1) && open_way(net, a, p.1 as int)
}

proof fn lemma_all_ballots(net: NetworkView, votes: Seq<Seq<SignalView>>, n: nat, p: (SignalView, usize))
    ensures
        all_ballots(net, votes, n).contains(p) <==> exists|a: int| 0 <= a < n && #[trigger] gets_through(net, votes, a, p),
    decreases n,
{
    if n > 0 {
        let m = (n - 1) as nat;
        lemma_all_ballots(net, votes, m, p);
        lemma_ballots(net, n - 1, votes[n - 1], p);
        let past = all_ballots(net, votes, m);
        let more = ballots(net, n - 1, votes[n - 1]);
        let all = past + more;
        if all.contains(p) {
            let k = all.index_of(p);
            if k < past.len() {
                assert(past[k] == p);
            } else {
                assert(more[k - past.len()] == p);
                assert(gets_through(net, votes, n - 1, p));
            }
        }
        if past.contains(p) {
            assert(all[past.index_of(p)] == p);
        }
        if more.contains(p) {
            assert(all[past.len() + more.index_of(p)] == p);
        }
    }
}

/// The signal is a vote of the tick against the node.
spec fn votes_out(s: SignalView, id: u32, tick: u64) -> bool {
    s.signal_type == SignalType::PeerSuspicion && s.target_id == Some(id) && s.timestamp == tick
}

/// A node that gets votes against it has those for accusers that it had before, and those who cast them.
proof fn lemma_accused(node: NodeView, signals: Seq<SignalView>, tick: u64, n: nat, id: u32)
    requires
        n <= signals.len(),
        node.config.security.max_count_signals_from_neighbor > 0,
        forall|k: int| 0 <= k < signals.len() ==> votes_out(#[trigger] signals[k], node.id, tick),
        filed(node),
    ensures
        ({
            let after = node.received_all(signals, tick, n);
            &&& filed(after)
            &&& after.accusers(tick).contains(id) <==> node.accusers(tick).contains(id) || (listens(node, id) && exists|k: int|
                0 <= k < n && (#[trigger] signals[k]).source_id == id)
        }),
    decreases n,
{
    if n > 0 {
        let m = (n - 1) as nat;
        lemma_accused(node, signals, tick, m, id);
        let before = node.received_all(signals, tick, m);
        let after = node.received_all(signals, tick, n);
        let s = signals[n - 1];
        assert(votes_out(s, node.id, tick));
        assert forall|k: int| 0 <= k < signals.len() implies (#[trigger] signals[k]).timestamp == tick by {
            assert(votes_out(signals[k], node.id, tick));
        }
        lemma_received_all(node, signals, tick, m, s.source_id);
        lemma_received_all(node, signals, tick, m, id);
        lemma_one_more(before, s, tick, id);
    }
}

/// A node holds the signals of each neighbour under the neighbour's id.
pub open spec fn filed(node: NodeView) -> bool {
    forall|id: u32, k: int|
        #![trigger node.neighbor_signals[id][k]]
        node.neighbor_signals.contains_key(id) && 0 <= k < node.neighbor_signals[id].len()
            ==> node.neighbor_signals[id][k].source_id == id
}

/// The node holds a vote of the tick of that sender against it.
spec fn accused_by(node: NodeView, tick: u64, id: u32) -> bool {
    node.neighbor_signals.contains_key(id) && exists|k: int|
        0 <= k < node.neighbor_signals[id].len() && votes_out(#[trigger] node.neighbor_signals[id][k], node.id, tick)
}

proof fn lemma_accused_by(node: NodeView, tick: u64, id: u32)
    requires
        filed(node),
    ensures
        node.accusers(tick).contains(id) <==> accused_by(node, tick, id),
{
    law_accusers(node, tick, id);
    if accused_by(node, tick, id) {
        let k = choose|k: int|
            0 <= k < node.neighbor_signals[id].len() && votes_out(#[trigger] node.neighbor_signals[id][k], node.id, tick);
        let x = node.neighbor_signals[id][k];
        assert(node.neighbor_signals[id].contains(x));
        assert(x.source_id == id);
    }
    if node.accusers(tick).contains(id) {
        let x = choose|x: SignalView|
            (exists|from: u32| #[trigger] node.neighbor_signals.contains_key(from) && node.neighbor_signals[from].contains(x))
                && (#[trigger] x.source_id) == id && x.signal_type == SignalType::PeerSuspicion && x.target_id == Some(
                node.id,
            ) && x.timestamp == tick;
        let from = choose|from: u32| #[trigger] node.neighbor_signals.contains_key(from) && node.neighbor_signals[from].contains(x);
        let k = node.neighbor_signals[from].index_of(x);
        assert(node.neighbor_signals[from][k].source_id == from);
        assert(votes_out(node.neighbor_signals[id][k], node.id, tick));
    }
}

proof fn lemma_one_more(node: NodeView, s: SignalView, tick: u64, id: u32)
    requires
        node.config.security.max_count_signals_from_neighbor > 0,
        votes_out(s, node.id, tick),
        filed(node),
    ensures
        filed(node.received(s, tick)),
        node.received(s, tick).accusers(tick).contains(id) <==> node.accusers(tick).contains(id) || (listens(
            node,
            s.source_id,
        ) && s.source_id == id),
{
    let after = node.received(s, tick);
    let from = s.source_id;
    if listens(node, from) {
        let old_bucket = if node.neighbor_signals.contains_key(from) { node.neighbor_signals[from] } else { seq![] };
        let bucket = after.neighbor_signals[from];
        assert(bucket.len() > 0 && bucket[bucket.len() - 1] == s);
        assert forall|other: u32, k: int|
            #![trigger after.neighbor_signals[other][k]]
            after.neighbor_signals.contains_key(other) && 0 <= k < after.neighbor_signals[other].len() implies after.neighbor_signals[other][k].source_id
            == other by {
            if other == from {
                let all = old_bucket.push(s);
                let j = if old_bucket.len() + 1 > node.config.security.max_count_signals_from_neighbor { k + 1 } else { k };
                assert(bucket[k] == all[j]);
                if j < old_bucket.len() {
                    assert(node.neighbor_signals[from][j].source_id == from);
                }
            } else {
                assert(node.neighbor_signals[other][k].source_id == other);
            }
        }
        assert(votes_out(after.neighbor_signals[from][bucket.len() - 1], node.id, tick));
        assert(accused_by(after, tick, from));
        if id != from {
            assert(after.neighbor_signals.contains_key(id) == node.neighbor_signals.contains_key(id));
            assert(after.neighbor_signals[id] == node.neighbor_signals[id]);
            assert(after.id == node.id);
            if accused_by(node, tick, id) {
                let k = choose|k: int|
                    0 <= k < node.neighbor_signals[id].len() && votes_out(
                        #[trigger] node.neighbor_signals[id][k],
                        node.id,
                        tick,
                    );
                assert(votes_out(after.neighbor_signals[id][k], after.id, tick));
            }
        }
    }
    lemma_accused_by(node, tick, id);
    lemma_accused_by(after, tick, id);
}

/// The node at the position has found a signal that it watches to come from the other one, and to be reason enough.
pub open spec fn finds_guilty(net: NetworkView, replies: Seq<Vec<Option<Single>>>, a: int, b: int) -> bool {
    exists|i: int|
        0 <= i < net.nodes[a].watched(net.tick).len() && (#[trigger] net.nodes[a].watched(net.tick)[i]).source_id
            == net.nodes[b].id && to_accuse(net.nodes[a], net.tick, replies_at(replies, a), i)
}

/// The votes that reach a node are votes of the tick against it, each cast by its sender.
proof fn lemma_votes_for(net: NetworkView, votes: Seq<Seq<SignalView>>, replies: Seq<Vec<Option<Single>>>, b: int, s: SignalView)
    requires
        net.nodes.len() <= u32::MAX,
        net.ids().no_duplicates(),
        votes == net.votes(replies),
        0 <= b < net.nodes.len(),
        for_node(all_ballots(net.accusing(replies), votes, net.nodes.len()), b).contains(s),
    ensures
        votes_out(s, net.nodes[b].id, net.tick),
        exists|c: int|
            0 <= c < net.nodes.len() && #[trigger] votes[c].contains(s) && s.source_id == net.nodes[c].id && open_way(net, c, b),
{
    let cast = net.accusing(replies);
    let n = net.nodes.len();
    let post = all_ballots(cast, votes, n);
    lemma_for_node(post, b, s);
    let p = (s, b as usize);
    lemma_all_ballots(cast, votes, n, p);
    let c = choose|c: int| 0 <= c < n && #[trigger] gets_through(cast, votes, c, p);
    law_every_suspect_is_accused(net.nodes[c], net.tick, replies_at(replies, c));
    let j = votes[c].index_of(s);
    assert(votes[c][j].source_id == net.nodes[c].id);
    assert(cast.ids() =~= net.ids());
    lemma_position_exists(net.ids(), s.target_id->0);
    assert(votes[c].contains(s));
    assert(open_way(cast, c, b));
    let i = choose|i: int|
        0 <= i < cast.links.len() && (#[trigger] cast.links[i]).active && cast.links[i].from == c && cast.links[i].to == b;
    assert(net.links[i].active);
    assert(net.ids()[b] == s.target_id->0);
}

/// A node accuses another in a vote exactly where it finds it guilty.
proof fn lemma_guilty(net: NetworkView, replies: Seq<Vec<Option<Single>>>, a: int, b: int)
    requires
        0 <= a < net.nodes.len(),
        0 <= b < net.nodes.len(),
    ensures
        finds_guilty(net, replies, a, b) <==> exists|k: int|
            0 <= k < net.votes(replies)[a].len() && (#[trigger] net.votes(replies)[a][k]).target_id == Some(
                net.nodes[b].id,
            ),
{
    let node = net.nodes[a];
    let tick = net.tick;
    let given = replies_at(replies, a);
    let own = net.votes(replies)[a];
    let seen = node.watched(tick);
    assert(own == node.accusations(tick, given, seen.len()));
    law_every_suspect_is_accused(node, tick, given);
    let all = Seq::new(seen.len(), |i: int| i);
    let p = |i: int| to_accuse(node, tick, given, i);
    let guilty = all.filter(p);
    if exists|k: int| 0 <= k < own.len() && (#[trigger] own[k]).target_id == Some(net.nodes[b].id) {
        let k = choose|k: int| 0 <= k < own.len() && (#[trigger] own[k]).target_id == Some(net.nodes[b].id);
        assert(guilty.contains(guilty[k]));
        lemma_filtered(all, p, guilty[k]);
        assert(own[k].target_id == Some(seen[guilty[k]].source_id));
        assert(net.nodes[a].watched(net.tick)[guilty[k]].source_id == net.nodes[b].id);
    }
    if finds_guilty(net, replies, a, b) {
        let i = choose|i: int|
            0 <= i < net.nodes[a].watched(net.tick).len() && (#[trigger] net.nodes[a].watched(net.tick)[i]).source_id
                == net.nodes[b].id && to_accuse(net.nodes[a], net.tick, replies_at(replies, a), i);
        assert(node.watched(tick)[i].source_id == net.nodes[b].id);
    }
}

/// A vote of a node that has an open way to the accused reaches it.
proof fn lemma_vote_arrives(net: NetworkView, replies: Seq<Vec<Option<Single>>>, a: int, b: int, k: int)
    requires
        net.nodes.len() <= u32::MAX,
        net.ids().no_duplicates(),
        0 <= a < net.nodes.len(),
        0 <= b < net.nodes.len(),
        0 <= k < net.votes(replies)[a].len(),
        net.votes(replies)[a][k].target_id == Some(net.nodes[b].id),
        open_way(net, a, b),
    ensures
        for_node(all_ballots(net.accusing(replies), net.votes(replies), net.nodes.len()), b).contains(
            net.votes(replies)[a][k],
        ),
{
    let cast = net.accusing(replies);
    let votes = net.votes(replies);
    let vote = votes[a][k];
    let n = net.nodes.len();
    assert(cast.ids() =~= net.ids());
    lemma_own_position(net, b);
    let i = choose|i: int|
        0 <= i < net.links.len() && (#[trigger] net.links[i]).active && net.links[i].from == a && net.links[i].to == b;
    assert(cast.links[i].active);
    assert(open_way(cast, a, b));
    assert(votes[a].contains(vote));
    assert(gets_through(cast, votes, a, (vote, b as usize)));
    lemma_all_ballots(cast, votes, n, (vote, b as usize));
    lemma_for_node(all_ballots(cast, votes, n), b, vote);
}

/// After the votes of a tick a node is accused by those that accused it before, and by every node that it listens to and
/// from which an active link leads to it, where that node has found any of the signals that it watches to come from
/// this one and to be reason enough; and by nobody else. It is then its neighbours' vote that decides.
pub proof fn law_votes_reach_the_accused(
    w: World,
    replies: Seq<Vec<Option<Single>>>,
    recorded_at: u64,
    a: int,
    b: int,
)
    requires
        w.net.wired(),
        w.net.ids().no_duplicates(),
        0 <= a < w.net.nodes.len(),
        0 <= b < w.net.nodes.len(),
        filed(w.net.nodes[b]),
        w.net.nodes[b].config.security.max_count_signals_from_neighbor > 0,
    ensures
        ({
            let accuser = w.net.nodes[a];
            let before = w.net.nodes[b];
            let after = w.voted(replies, recorded_at).net.nodes[b];
            after.accusers(w.net.tick).contains(accuser.id) <==> before.accusers(w.net.tick).contains(accuser.id) || (finds_guilty(
                w.net,
                replies,
                a,
                b,
            ) && open_way(w.net, a, b) && listens(w.net.accusing(replies).nodes[b], accuser.id))
        }),
{
    let net = w.net;
    let tick = net.tick;
    let votes = net.votes(replies);
    let cast = World { net: net.accusing(replies), ..w };
    let n = net.nodes.len();
    let post = all_ballots(cast.net, votes, n);
    let accuser = net.nodes[a];
    let before = cast.net.nodes[b];
    let mine = for_node(post, b);
    assert(cast.net.ids() =~= net.ids());
    lemma_all_votes_handed(cast, votes, recorded_at, n);
    lemma_handed(cast, post, recorded_at, post.len(), b);
    assert(post.take(post.len() as int) =~= post);
    assert(filed(before));
    assert(before.accusers(tick) == net.nodes[b].accusers(tick));
    assert forall|k: int| 0 <= k < mine.len() implies votes_out(#[trigger] mine[k], before.id, tick) by {
        assert(mine.contains(mine[k]));
        lemma_votes_for(net, votes, replies, b, mine[k]);
    }
    lemma_accused(before, mine, tick, mine.len(), accuser.id);
    lemma_guilty(net, replies, a, b);
    if exists|k: int| 0 <= k < mine.len() && (#[trigger] mine[k]).source_id == accuser.id {
        let k = choose|k: int| 0 <= k < mine.len() && (#[trigger] mine[k]).source_id == accuser.id;
        assert(mine.contains(mine[k]));
        lemma_votes_for(net, votes, replies, b, mine[k]);
        let c = choose|c: int|
            0 <= c < n && #[trigger] votes[c].contains(mine[k]) && mine[k].source_id == net.nodes[c].id && open_way(net, c, b);
        assert(net.ids()[c] == net.ids()[a]);
        let j = votes[a].index_of(mine[k]);
        assert(net.votes(replies)[a][j].target_id == Some(net.nodes[b].id));
    }
    if finds_guilty(net, replies, a, b) && open_way(net, a, b) {
        let k = choose|k: int|
            0 <= k < net.votes(replies)[a].len() && (#[trigger] net.votes(replies)[a][k]).target_id == Some(
                net.nodes[b].id,
            );
        let vote = net.votes(replies)[a][k];
        lemma_vote_arrives(net, replies, a, b, k);
        law_every_suspect_is_accused(accuser, tick, replies_at(replies, a));
        let m = mine.index_of(vote);
        assert(mine[m].source_id == accuser.id);
    }
    let after = cast.all_votes_cast(votes, recorded_at, n);
    assert(w.voted(replies, recorded_at).net.nodes[b].accusers(tick) == after.net.nodes[b].accusers(tick));
}

} // verus!
