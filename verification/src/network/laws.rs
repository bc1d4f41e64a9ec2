//! What holds of a network from tick to tick.

use vstd::prelude::*;

use crate::ai_module::AIOutput;
use crate::network::flood::{law_passed_on_once, Mail};
use crate::network::heal::Answers;
use crate::network::links::{lemma_filter_from, lemma_filter_keeps};
use crate::network::reconnect::Acks;
use crate::network::topology_map::{Link, NodeSnapshotView};
use crate::network::world::{lemma_steady, World};
use crate::network::{lemma_still_sound, same_nodes, NetworkView, RECENT_LIFECYCLE_CAPACITY};
use crate::node::ai_processes::recommendation;
use crate::node::bridges::{bridge_links, law_candidates, lemma_position_exists, position};
use crate::node::reconnect::{lemma_reconnected_keeps, lemma_turned_away_keeps};
use crate::node::decisions::last_of;
use crate::node::tick::Asking;
use crate::node::{Mode, NodeView, SignalView};
use crate::persistence::{law_pushed_is_handed_over, JournalView};
use crate::scenarios::actions::{escaped, lemma_struck_by_keeps, lemma_undone_keeps, same_pending};
use crate::scenarios::engine::{advanced, expired, repeated};
use crate::scenarios::EffectView;
use crate::single::{Single, ONE};

verus! {

/// Nothing but the nodes differs.
pub open spec fn only_nodes(a: NetworkView, b: NetworkView) -> bool {
    b == NetworkView { nodes: b.nodes, ..a }
}

/// Nothing but the nodes differs, and they have the same ids, settings and states and the same records
/// to log.
pub open spec fn kin(a: NetworkView, b: NetworkView) -> bool {
    &&& only_nodes(a, b)
    &&& a.nodes.len() == b.nodes.len()
    &&& forall|i: int|
        0 <= i < a.nodes.len() ==> (#[trigger] b.nodes[i]).id == a.nodes[i].id && b.nodes[i].state == a.nodes[i].state
            && b.nodes[i].config == a.nodes[i].config && same_pending(a.nodes[i], b.nodes[i])
}

/// Nothing was logged but deliveries.
pub open spec fn only_deliveries(a: JournalView, b: JournalView) -> bool {
    b == JournalView { signals: b.signals, ..a }
}

proof fn lemma_sent_kin(w: World, signal: SignalView, sender: int, recorded_at: u64, n: nat)
    requires
        w.net.wired(),
        n <= w.net.links.len(),
    ensures
        kin(w.net, w.sent(signal, sender, recorded_at, n).net),
        only_deliveries(w.log, w.sent(signal, sender, recorded_at, n).log),
    decreases n,
{
    if n > 0 {
        lemma_sent_kin(w, signal, sender, recorded_at, (n - 1) as nat);
        let l = w.net.links[n - 1];
        assert(l.to < w.net.nodes.len());
    }
}

pub(crate) proof fn lemma_kin_sound(a: NetworkView, b: NetworkView)
    requires
        kin(a, b),
        a.wired(),
    ensures
        b.wired(),
        a.ids() == b.ids(),
{
    lemma_steady(a, b);
}

proof fn lemma_broadcast_kin(w: World, signals: Seq<SignalView>, recorded_at: u64, n: nat)
    requires
        w.net.wired(),
        n <= w.net.links.len(),
    ensures
        kin(w.net, w.broadcast(signals, recorded_at, n).net),
        only_deliveries(w.log, w.broadcast(signals, recorded_at, n).log),
    decreases n,
{
    if n > 0 {
        lemma_broadcast_kin(w, signals, recorded_at, (n - 1) as nat);
        let l = w.net.links[n - 1];
        assert(l.to < w.net.nodes.len());
    }
}

proof fn lemma_vote_kin(w: World, sender_id: u32, vote: SignalView, recorded_at: u64)
    requires
        w.net.wired(),
    ensures
        kin(w.net, w.vote_cast(sender_id, vote, recorded_at).net),
        only_deliveries(w.log, w.vote_cast(sender_id, vote, recorded_at).log),
{
    match vote.target_id {
        Some(id) => {
            lemma_position_exists(w.net.ids(), id);
        },
        None => {},
    }
}

proof fn lemma_votes_kin(w: World, sender_id: u32, votes: Seq<SignalView>, recorded_at: u64, n: nat)
    requires
        w.net.wired(),
    ensures
        kin(w.net, w.votes_cast(sender_id, votes, recorded_at, n).net),
        only_deliveries(w.log, w.votes_cast(sender_id, votes, recorded_at, n).log),
    decreases n,
{
    if n > 0 {
        lemma_votes_kin(w, sender_id, votes, recorded_at, (n - 1) as nat);
        let before = w.votes_cast(sender_id, votes, recorded_at, (n - 1) as nat);
        lemma_kin_sound(w.net, before.net);
        lemma_vote_kin(before, sender_id, votes[n - 1], recorded_at);
    }
}

pub(crate) proof fn lemma_all_votes_kin(w: World, votes: Seq<Seq<SignalView>>, recorded_at: u64, n: nat)
    requires
        w.net.wired(),
    ensures
        kin(w.net, w.all_votes_cast(votes, recorded_at, n).net),
        only_deliveries(w.log, w.all_votes_cast(votes, recorded_at, n).log),
    decreases n,
{
    if n > 0 {
        lemma_all_votes_kin(w, votes, recorded_at, (n - 1) as nat);
        let before = w.all_votes_cast(votes, recorded_at, (n - 1) as nat);
        lemma_kin_sound(w.net, before.net);
        lemma_votes_kin(before, w.net.nodes[n - 1].id, votes[n - 1], recorded_at, votes[n - 1].len());
    }
}

/// The first step of a tick counts it, unless the simulation is over; then nothing happens.
pub proof fn law_tick_counts(w: World, recorded_at: u64)
    requires
        w.net.wired(),
        !w.net.finished ==> w.net.tick < u64::MAX,
    ensures
        w.net.finished ==> w.ticked(recorded_at) == w,
        !w.net.finished ==> w.ticked(recorded_at).net.tick == w.net.tick + 1,
        w.ticked(recorded_at).net.max_ticks == w.net.max_ticks,
        w.ticked(recorded_at).net.finished == w.net.finished,
{
    if !w.net.finished {
        let next = World { net: w.net.next_tick(), ..w };
        lemma_still_sound(w.net, next.net);
        lemma_broadcast_kin(next, next.net.broadcasts(), recorded_at, next.net.links.len());
    }
}

/// In the first step of a tick no node decides anything: all states stay as they are.
pub proof fn law_news_change_no_state(w: World, recorded_at: u64, i: int)
    requires
        w.net.wired(),
        0 <= i < w.net.nodes.len(),
    ensures
        w.ticked(recorded_at).net.nodes[i].state == w.net.nodes[i].state,
{
    if !w.net.finished {
        let next = World { net: w.net.next_tick(), ..w };
        lemma_still_sound(w.net, next.net);
        lemma_broadcast_kin(next, next.net.broadcasts(), recorded_at, next.net.links.len());
        assert(next.net.nodes[i].state == w.net.nodes[i].state);
    }
}

proof fn lemma_broadcast_misses(w: World, signals: Seq<SignalView>, recorded_at: u64, n: nat, i: int)
    requires
        w.net.wired(),
        n <= w.net.links.len(),
        0 <= i < w.net.nodes.len(),
        open_links_uncut(w.net),
        w.net.cut(i),
    ensures
        w.broadcast(signals, recorded_at, n).net.nodes[i] == w.net.nodes[i],
    decreases n,
{
    if n > 0 {
        lemma_broadcast_misses(w, signals, recorded_at, (n - 1) as nat, i);
        lemma_broadcast_kin(w, signals, recorded_at, (n - 1) as nat);
        let l = w.net.links[n - 1];
        assert(l.to < w.net.nodes.len());
        if l.active {
            assert(l.to != i);
        }
    }
}

/// A node that is cut off hears nothing in the first step of a tick.
pub proof fn law_cut_node_hears_nothing(w: World, recorded_at: u64, i: int)
    requires
        w.net.wired(),
        0 <= i < w.net.nodes.len(),
        open_links_uncut(w.net),
        w.net.cut(i),
    ensures
        w.ticked(recorded_at).net.nodes[i] == w.net.nodes[i],
{
    if !w.net.finished {
        let next = World { net: w.net.next_tick(), ..w };
        lemma_still_sound(w.net, next.net);
        assert(open_links_uncut(next.net)) by {
            assert forall|k: int| 0 <= k < next.net.links.len() && (#[trigger] next.net.links[k]).active implies !next.net.cut(
                next.net.links[k].from as int,
            ) && !next.net.cut(next.net.links[k].to as int) by {
                let l = w.net.links[k];
                assert(!w.net.cut(l.from as int) && !w.net.cut(l.to as int));
            }
        }
        lemma_broadcast_misses(next, next.net.broadcasts(), recorded_at, next.net.links.len(), i);
    }
}

proof fn lemma_vote_misses(w: World, sender_id: u32, vote: SignalView, recorded_at: u64, i: int)
    requires
        w.net.wired(),
        0 <= i < w.net.nodes.len(),
        open_links_uncut(w.net),
        w.net.cut(i),
    ensures
        w.vote_cast(sender_id, vote, recorded_at).net.nodes[i] == w.net.nodes[i],
{
    match vote.target_id {
        Some(id) => {
            lemma_position_exists(w.net.ids(), id);
        },
        None => {},
    }
}

proof fn lemma_kin_cut(a: NetworkView, b: NetworkView, i: int)
    requires
        kin(a, b),
        a.wired(),
        0 <= i < a.nodes.len(),
        open_links_uncut(a),
        a.cut(i),
    ensures
        open_links_uncut(b),
        b.cut(i),
{
    assert(b.nodes[i].id == a.nodes[i].id);
    assert forall|k: int| 0 <= k < b.links.len() && (#[trigger] b.links[k]).active implies !b.cut(b.links[k].from as int)
        && !b.cut(b.links[k].to as int) by {
        let l = a.links[k];
        assert(!a.cut(l.from as int) && !a.cut(l.to as int));
        assert(b.nodes[l.from as int].id == a.nodes[l.from as int].id);
        assert(b.nodes[l.to as int].id == a.nodes[l.to as int].id);
    }
}

proof fn lemma_votes_miss(w: World, sender_id: u32, votes: Seq<SignalView>, recorded_at: u64, n: nat, i: int)
    requires
        w.net.wired(),
        0 <= i < w.net.nodes.len(),
        open_links_uncut(w.net),
        w.net.cut(i),
    ensures
        w.votes_cast(sender_id, votes, recorded_at, n).net.nodes[i] == w.net.nodes[i],
    decreases n,
{
    if n > 0 {
        lemma_votes_miss(w, sender_id, votes, recorded_at, (n - 1) as nat, i);
        lemma_votes_kin(w, sender_id, votes, recorded_at, (n - 1) as nat);
        let before = w.votes_cast(sender_id, votes, recorded_at, (n - 1) as nat);
        lemma_kin_sound(w.net, before.net);
        lemma_kin_cut(w.net, before.net, i);
        lemma_vote_misses(before, sender_id, votes[n - 1], recorded_at, i);
    }
}

/// Votes do not reach a node that is cut off.
pub proof fn law_cut_node_gets_no_votes(w: World, votes: Seq<Seq<SignalView>>, recorded_at: u64, n: nat, i: int)
    requires
        w.net.wired(),
        0 <= i < w.net.nodes.len(),
        open_links_uncut(w.net),
        w.net.cut(i),
    ensures
        w.all_votes_cast(votes, recorded_at, n).net.nodes[i] == w.net.nodes[i],
    decreases n,
{
    if n > 0 {
        law_cut_node_gets_no_votes(w, votes, recorded_at, (n - 1) as nat, i);
        lemma_all_votes_kin(w, votes, recorded_at, (n - 1) as nat);
        let before = w.all_votes_cast(votes, recorded_at, (n - 1) as nat);
        lemma_kin_sound(w.net, before.net);
        lemma_kin_cut(w.net, before.net, i);
        lemma_votes_miss(before, w.net.nodes[n - 1].id, votes[n - 1], recorded_at, votes[n - 1].len(), i);
    }
}

/// The second step of a tick leaves the clock and the links alone.
pub proof fn law_votes_keep_clock(w: World, replies: Seq<Vec<Option<Single>>>, recorded_at: u64)
    requires
        w.net.wired(),
    ensures
        only_nodes(w.net, w.polled(replies, recorded_at).net),
{
    lemma_polled(w, replies, recorded_at);
}

/// Logging the decisions of the first `n` nodes takes them off these nodes, puts them behind the recent ones
/// and behind the log's, each once and in the order of the nodes, and does nothing else.
pub proof fn law_decisions_are_logged_once(w: World, n: nat)
    requires
        n <= w.net.nodes.len(),
    ensures
        ({
            let after = w.decisions_logged(n);
            let entries = w.net.records(n);
            &&& after.net == NetworkView {
                nodes: after.net.nodes,
                recent_lifecycle: w.net.recent_lifecycle + entries,
                ..w.net
            }
            &&& after.net.nodes.len() == w.net.nodes.len()
            &&& forall|k: int|
                #![trigger after.net.nodes[k]]
                0 <= k < w.net.nodes.len() ==> after.net.nodes[k] == if k < n {
                    w.net.nodes[k].without_lifecycle()
                } else {
                    w.net.nodes[k]
                }
            &&& after.log == JournalView { lifecycle: after.log.lifecycle, ..w.log }
            &&& after.log.lifecycle.unwritten() == w.log.lifecycle.unwritten() + entries
        }),
    decreases n,
{
    if n > 0 {
        law_decisions_are_logged_once(w, (n - 1) as nat);
        let before = w.decisions_logged((n - 1) as nat);
        let past = w.net.records((n - 1) as nat);
        let entries = w.net.nodes[n - 1].pending_lifecycle;
        law_pushed_is_handed_over(before.log.lifecycle, entries, w.net.tick, entries.len());
        assert(entries.take(entries.len() as int) =~= entries);
        assert(w.net.recent_lifecycle + past + entries =~= w.net.recent_lifecycle + (past + entries));
        assert(w.log.lifecycle.unwritten() + past + entries =~= w.log.lifecycle.unwritten() + (past + entries));
    } else {
        assert(w.net.recent_lifecycle + w.net.records(0) =~= w.net.recent_lifecycle);
        assert(w.log.lifecycle.unwritten() + w.net.records(0) =~= w.log.lifecycle.unwritten());
    }
}

pub(crate) proof fn lemma_answers_logged(w: World, n: nat)
    requires
        n <= w.net.nodes.len(),
    ensures
        only_nodes(w.net, w.answers_logged(n).net),
        w.answers_logged(n).net.nodes.len() == w.net.nodes.len(),
        forall|k: int|
            #![trigger w.answers_logged(n).net.nodes[k]]
            0 <= k < w.net.nodes.len() ==> w.answers_logged(n).net.nodes[k] == if k < n {
                w.net.nodes[k].without_answers()
            } else {
                w.net.nodes[k]
            },
        w.answers_logged(n).log == (JournalView { ai_decisions: w.answers_logged(n).log.ai_decisions, ..w.log }),
    decreases n,
{
    if n > 0 {
        lemma_answers_logged(w, (n - 1) as nat);
    }
}

pub(crate) proof fn lemma_advised_kin(w: World, advices: Seq<Option<SignalView>>, recorded_at: u64, n: nat)
    requires
        w.net.wired(),
        n <= advices.len(),
    ensures
        kin(w.net, w.advised(advices, recorded_at, n).net),
        only_deliveries(w.log, w.advised(advices, recorded_at, n).log),
    decreases n,
{
    if n > 0 {
        lemma_advised_kin(w, advices, recorded_at, (n - 1) as nat);
        let before = w.advised(advices, recorded_at, (n - 1) as nat);
        lemma_kin_sound(w.net, before.net);
        match advices[n - 1] {
            Some(signal) => {
                lemma_sent_kin(before, signal, n - 1, recorded_at, before.net.links.len());
            },
            None => {},
        }
    }
}

proof fn lemma_requested(w: World, requester: usize, requests: Seq<SignalView>, recorded_at: u64, n: nat)
    ensures
        w.requested(requester, requests, recorded_at, n).0.net == w.net,
        only_deliveries(w.log, w.requested(requester, requests, recorded_at, n).0.log),
        forall|k: int|
            0 <= k < w.requested(requester, requests, recorded_at, n).1.len() ==> (#[trigger] w.requested(
                requester,
                requests,
                recorded_at,
                n,
            ).1[k]).0 == requester,
    decreases n,
{
    if n > 0 {
        lemma_requested(w, requester, requests, recorded_at, (n - 1) as nat);
    }
}

proof fn lemma_all_requested(w: World, requesters: Seq<usize>, recorded_at: u64, n: nat)
    requires
        n <= requesters.len(),
        forall|k: int| 0 <= k < requesters.len() ==> (#[trigger] requesters[k]) < w.net.nodes.len(),
    ensures
        w.all_requested(requesters, recorded_at, n).0.net == w.net,
        only_deliveries(w.log, w.all_requested(requesters, recorded_at, n).0.log),
        forall|k: int|
            0 <= k < w.all_requested(requesters, recorded_at, n).1.len() ==> (#[trigger] w.all_requested(
                requesters,
                recorded_at,
                n,
            ).1[k]).0 < w.net.nodes.len(),
    decreases n,
{
    if n > 0 {
        lemma_all_requested(w, requesters, recorded_at, (n - 1) as nat);
        let (before, acks) = w.all_requested(requesters, recorded_at, (n - 1) as nat);
        let i = requesters[n - 1];
        let requests = w.net.nodes[i as int].reconnect_requests(w.net.tick);
        lemma_requested(before, i, requests, recorded_at, requests.len());
        let more = before.requested(i, requests, recorded_at, requests.len()).1;
        let all = w.all_requested(requesters, recorded_at, n).1;
        assert(all == acks + more);
        assert forall|k: int| 0 <= k < all.len() implies (#[trigger] all[k]).0 < w.net.nodes.len() by {
            if k < acks.len() {
                assert(all[k] == acks[k]);
            } else {
                assert(all[k] == more[k - acks.len()]);
            }
        }
    }
}

/// Nothing but the nodes differs, and they have the same ids and settings and the same answers of models to
/// log.
pub open spec fn related(a: NetworkView, b: NetworkView) -> bool {
    &&& only_nodes(a, b)
    &&& same_nodes(a, b)
    &&& forall|i: int|
        0 <= i < a.nodes.len() ==> (#[trigger] a.nodes[i]).pending_ai_decisions == b.nodes[i].pending_ai_decisions
}

proof fn lemma_with_node(a: NetworkView, b: NetworkView, i: int, node: NodeView)
    requires
        related(a, b),
        0 <= i < b.nodes.len(),
        node.id == b.nodes[i].id,
        node.config == b.nodes[i].config,
        node.pending_ai_decisions == b.nodes[i].pending_ai_decisions,
    ensures
        related(a, b.with_node(i, node)),
{
    let c = b.with_node(i, node);
    assert forall|k: int| 0 <= k < a.nodes.len() implies (#[trigger] a.nodes[k]).id == c.nodes[k].id && a.nodes[k].config
        == c.nodes[k].config && a.nodes[k].pending_ai_decisions == c.nodes[k].pending_ai_decisions by {
        assert(a.nodes[k].id == b.nodes[k].id);
    }
}

proof fn lemma_acknowledged(w: World, acks: Acks, recorded_at: u64, n: nat)
    requires
        n <= acks.len(),
        forall|k: int| 0 <= k < acks.len() ==> (#[trigger] acks[k]).0 < w.net.nodes.len(),
    ensures
        related(w.net, w.acknowledged(acks, recorded_at, n).0.net),
        only_deliveries(w.log, w.acknowledged(acks, recorded_at, n).0.log),
        forall|k: int|
            0 <= k < w.acknowledged(acks, recorded_at, n).1.len() ==> (#[trigger] w.acknowledged(
                acks,
                recorded_at,
                n,
            ).1[k]) < w.net.nodes.len(),
    decreases n,
{
    if n > 0 {
        lemma_acknowledged(w, acks, recorded_at, (n - 1) as nat);
        let before = w.acknowledged(acks, recorded_at, (n - 1) as nat).0;
        let (i, ack) = acks[n - 1];
        assert(acks[n - 1].0 < w.net.nodes.len());
        lemma_with_node(w.net, before.net, i as int, before.net.nodes[i as int].confirmed(ack.source_id));
    }
}

proof fn lemma_all_welcomed(net: NetworkView, completed: Seq<usize>, recorded_at: u64, n: nat)
    requires
        n <= completed.len(),
        forall|k: int| 0 <= k < completed.len() ==> (#[trigger] completed[k]) < net.nodes.len(),
    ensures
        related(net, net.all_welcomed(completed, recorded_at, n)),
    decreases n,
{
    if n > 0 {
        lemma_all_welcomed(net, completed, recorded_at, (n - 1) as nat);
        let before = net.all_welcomed(completed, recorded_at, (n - 1) as nat);
        let i = completed[n - 1] as int;
        lemma_reconnected_keeps(before.nodes[i], net.tick, recorded_at);
        lemma_with_node(net, before, i, before.nodes[i].reconnected(net.tick, recorded_at));
    }
}

proof fn lemma_others_turned_away(
    net: NetworkView,
    requesters: Seq<usize>,
    completed: Seq<usize>,
    recorded_at: u64,
    n: nat,
)
    requires
        n <= requesters.len(),
        forall|k: int| 0 <= k < requesters.len() ==> (#[trigger] requesters[k]) < net.nodes.len(),
    ensures
        related(net, net.others_turned_away(requesters, completed, recorded_at, n)),
    decreases n,
{
    if n > 0 {
        lemma_others_turned_away(net, requesters, completed, recorded_at, (n - 1) as nat);
        let before = net.others_turned_away(requesters, completed, recorded_at, (n - 1) as nat);
        let i = requesters[n - 1] as int;
        lemma_turned_away_keeps(before.nodes[i], net.tick, recorded_at);
        lemma_with_node(net, before, i, before.nodes[i].turned_away(net.tick, recorded_at));
    }
}

proof fn lemma_related_trans(a: NetworkView, b: NetworkView, c: NetworkView)
    requires
        related(a, b),
        related(b, c),
    ensures
        related(a, c),
{
    assert forall|k: int| 0 <= k < a.nodes.len() implies (#[trigger] a.nodes[k]).id == c.nodes[k].id && a.nodes[k].config
        == c.nodes[k].config && a.nodes[k].pending_ai_decisions == c.nodes[k].pending_ai_decisions by {
        assert(a.nodes[k].id == b.nodes[k].id);
        assert(b.nodes[k].id == c.nodes[k].id);
    }
}

proof fn lemma_filter_positions(s: Seq<usize>, p: spec_fn(usize) -> bool, n: nat)
    requires
        forall|k: int| 0 <= k < s.len() ==> (#[trigger] s[k]) < n,
    ensures
        forall|k: int| 0 <= k < s.filter(p).len() ==> (#[trigger] s.filter(p)[k]) < n,
    decreases s.len(),
{
    reveal(Seq::filter);
    if s.len() > 0 {
        assert(s[s.len() - 1] < n);
        lemma_filter_positions(s.drop_last(), p, n);
        let kept = s.drop_last().filter(p);
        assert forall|k: int| 0 <= k < s.filter(p).len() implies (#[trigger] s.filter(p)[k]) < n by {
            if k < kept.len() {
                assert(s.filter(p)[k] == kept[k]);
            }
        }
    }
}

pub(crate) proof fn lemma_handshaken(w: World, recorded_at: u64)
    requires
        w.net.nodes.len() <= u32::MAX,
    ensures
        related(w.net, w.handshaken(recorded_at).net),
        only_deliveries(w.log, w.handshaken(recorded_at).log),
{
    let requesters = w.net.reconnecting();
    lemma_filter_positions(
        Seq::new(w.net.nodes.len(), |i: int| i as usize),
        |i: usize| w.net.nodes[i as int].state.mode == Mode::Reconnecting,
        w.net.nodes.len(),
    );
    let (asked, acks) = w.all_requested(requesters, recorded_at, requesters.len());
    let (answered, completed) = asked.acknowledged(acks, recorded_at, acks.len());
    lemma_all_requested(w, requesters, recorded_at, requesters.len());
    lemma_acknowledged(asked, acks, recorded_at, acks.len());
    lemma_all_welcomed(answered.net, completed, recorded_at, completed.len());
    let welcomed = answered.net.all_welcomed(completed, recorded_at, completed.len());
    lemma_others_turned_away(welcomed, requesters, completed, recorded_at, requesters.len());
    lemma_related_trans(w.net, answered.net, welcomed);
    lemma_related_trans(
        w.net,
        welcomed,
        welcomed.others_turned_away(requesters, completed, recorded_at, requesters.len()),
    );
}

/// All nodes have the same records to log.
pub open spec fn all_pending(a: NetworkView, b: NetworkView) -> bool {
    forall|i: int| 0 <= i < a.nodes.len() ==> same_pending(#[trigger] a.nodes[i], b.nodes[i])
}

proof fn lemma_repeated(net: NetworkView, effect: EffectView, n: nat)
    ensures
        only_nodes(net, repeated(net, effect, n).0),
        same_nodes(net, repeated(net, effect, n).0),
        all_pending(net, repeated(net, effect, n).0),
    decreases n,
{
    if n > 0 {
        lemma_repeated(net, effect, (n - 1) as nat);
        let before = repeated(net, effect, (n - 1) as nat).0;
        let i = effect.target_node_indices[n - 1];
        lemma_struck_by_keeps(before.nodes[i as int], effect.actions, effect.actions.len());
    }
}

proof fn lemma_expired(net: NetworkView, effect: EffectView)
    requires
        net.nodes.len() <= u32::MAX,
    ensures
        same_nodes(net, expired(net, effect)),
        all_pending(net, expired(net, effect)),
{
    let after = expired(net, effect);
    assert forall|i: int| 0 <= i < net.nodes.len() implies (#[trigger] net.nodes[i]).id == after.nodes[i].id
        && net.nodes[i].config == after.nodes[i].config && same_pending(net.nodes[i], after.nodes[i]) by {
        let node = net.nodes[i];
        lemma_undone_keeps(node, effect.accumulated[i as usize], escaped(node, effect.partitioned_ids));
    }
}

/// Scenarios change nothing but nodes and who is parted from the others.
pub(crate) proof fn lemma_advanced(net: NetworkView, effects: Seq<EffectView>, n: nat)
    requires
        net.nodes.len() <= u32::MAX,
    ensures
        ({
            let after = advanced(net, effects, n).0;
            only_nodes(NetworkView { partitioned_nodes: after.partitioned_nodes, ..net }, after)
        }),
        same_nodes(net, advanced(net, effects, n).0),
        all_pending(net, advanced(net, effects, n).0),
    decreases n,
{
    if n > 0 {
        lemma_advanced(net, effects, (n - 1) as nat);
        let before = advanced(net, effects, (n - 1) as nat).0;
        let after = advanced(net, effects, n).0;
        let e = effects[n - 1];
        lemma_repeated(before, e, e.target_node_indices.len());
        lemma_expired(before, e);
        assert forall|i: int| 0 <= i < net.nodes.len() implies (#[trigger] net.nodes[i]).id == after.nodes[i].id
            && net.nodes[i].config == after.nodes[i].config && same_pending(net.nodes[i], after.nodes[i]) by {
            assert(net.nodes[i].id == before.nodes[i].id);
            assert(before.nodes[i].id == after.nodes[i].id);
        }
    }
}

proof fn lemma_posted_within(net: NetworkView, from: usize, snap: NodeSnapshotView)
    requires
        net.wired(),
    ensures
        forall|i: int| 0 <= i < net.posted(from, snap).len() ==> (#[trigger] net.posted(from, snap)[i]).0 < net.nodes.len(),
{
    let p = |l: Link| l.active && l.from == from;
    assert forall|i: int| 0 <= i < net.posted(from, snap).len() implies (#[trigger] net.posted(from, snap)[i]).0
        < net.nodes.len() by {
        let kept = net.links.filter(p);
        assert(kept.contains(kept[i]));
        lemma_filter_from(net.links, p, kept[i]);
        let k = net.links.index_of(kept[i]);
        assert(net.links[k].to < net.nodes.len());
    }
}

proof fn lemma_announced_within(net: NetworkView, n: nat)
    requires
        net.wired(),
        n <= net.nodes.len(),
    ensures
        forall|i: int| 0 <= i < net.announced(n).len() ==> (#[trigger] net.announced(n)[i]).0 < net.nodes.len(),
    decreases n,
{
    if n > 0 {
        lemma_announced_within(net, (n - 1) as nat);
        lemma_posted_within(net, (n - 1) as usize, net.own_snapshot(n - 1));
        let before = net.announced((n - 1) as nat);
        let more = net.posted((n - 1) as usize, net.own_snapshot(n - 1));
        assert forall|i: int| 0 <= i < net.announced(n).len() implies (#[trigger] net.announced(n)[i]).0
            < net.nodes.len() by {
            if i < before.len() {
                assert(net.announced(n)[i] == before[i]);
            } else {
                assert(net.announced(n)[i] == more[i - before.len()]);
            }
        }
    }
}

proof fn lemma_first_round(net: NetworkView, mail: Mail, n: nat)
    requires
        net.wired(),
        n <= mail.len(),
        forall|i: int| 0 <= i < mail.len() ==> (#[trigger] mail[i]).0 < net.nodes.len(),
    ensures
        kin(net, net.first_round(mail, n).0),
        forall|i: int|
            0 <= i < net.first_round(mail, n).1.len() ==> (#[trigger] net.first_round(mail, n).1[i]).0
                < net.nodes.len(),
    decreases n,
{
    if n > 0 {
        lemma_first_round(net, mail, (n - 1) as nat);
        let (i, snap) = mail[n - 1];
        lemma_posted_within(net, i, snap.relayed());
    }
}

proof fn lemma_second_round(net: NetworkView, mail: Mail, n: nat)
    requires
        n <= mail.len(),
        forall|i: int| 0 <= i < mail.len() ==> (#[trigger] mail[i]).0 < net.nodes.len(),
    ensures
        kin(net, net.second_round(mail, n)),
    decreases n,
{
    if n > 0 {
        lemma_second_round(net, mail, (n - 1) as nat);
        assert(mail[n - 1].0 < net.nodes.len());
    }
}

/// Telling each other of their links changes no node's state.
pub proof fn law_flood_changes_no_state(net: NetworkView)
    requires
        net.wired(),
    ensures
        kin(net, net.flooded()),
{
    let mail = net.announced(net.nodes.len());
    lemma_announced_within(net, net.nodes.len());
    lemma_first_round(net, mail, mail.len());
    let (after, relays) = net.first_round(mail, mail.len());
    lemma_second_round(after, relays, relays.len());
}

/// No node with this id is cut off.
pub open spec fn uncut_id(net: NetworkView, id: u32) -> bool {
    forall|j: int| 0 <= j < net.nodes.len() && (#[trigger] net.nodes[j]).id == id ==> !net.cut(j)
}

/// Every open link joins two nodes that are not cut off.
pub open spec fn open_links_uncut(net: NetworkView) -> bool {
    forall|i: int|
        0 <= i < net.links.len() && (#[trigger] net.links[i]).active ==> !net.cut(net.links[i].from as int) && !net.cut(
            net.links[i].to as int,
        )
}

/// Every link is open exactly where neither of its ends is cut off.
pub open spec fn links_follow(net: NetworkView) -> bool {
    forall|i: int|
        0 <= i < net.links.len() ==> ((#[trigger] net.links[i]).active <==> !net.cut(net.links[i].from as int) && !net.cut(
            net.links[i].to as int,
        ))
}

proof fn lemma_mute(net: NetworkView, n: nat, id: u32)
    requires
        n <= net.nodes.len(),
        !net.mute(n).contains(id),
    ensures
        !net.partitioned_nodes.contains(id),
        forall|j: int| 0 <= j < n && (#[trigger] net.nodes[j]).id == id ==> !net.cut(j),
    decreases n,
{
    if n > 0 {
        lemma_mute(net, (n - 1) as nat, id);
    }
}

proof fn lemma_excluded(net: NetworkView, n: nat, id: u32)
    requires
        n <= net.nodes.len(),
        !net.excluded(n).contains(id),
    ensures
        !net.partitioned_nodes.contains(id),
        forall|j: int| 0 <= j < n && (#[trigger] net.nodes[j]).id == id ==> !net.cut(j),
    decreases n,
{
    if n > 0 {
        lemma_excluded(net, (n - 1) as nat, id);
    }
}

/// Every request for a bridge is for a node that is not cut off, from one that is not.
proof fn lemma_requests(net: NetworkView, i: int)
    requires
        0 <= i < net.nodes.len(),
    ensures
        net.requests_from(i).len() > 0 ==> uncut_id(net, net.nodes[i].id),
        forall|k: int|
            0 <= k < net.requests_from(i).len() ==> (#[trigger] net.requests_from(i)[k]).target_id is Some && uncut_id(
                net,
                net.requests_from(i)[k].target_id->0,
            ),
{
    let n = net.nodes.len();
    if !net.mute(n).contains(net.nodes[i].id) {
        lemma_mute(net, n, net.nodes[i].id);
        let node = net.nodes[i];
        let stale = node.topology_map.stale(net.tick, node.config.security.node_stale_ttl);
        law_candidates(node, stale, net.excluded(n), stale.len());
        let asked = node.bridges_to_ask(net.tick, net.excluded(n));
        assert forall|k: int| 0 <= k < net.requests_from(i).len() implies (#[trigger] net.requests_from(i)[k]).target_id is Some
            && uncut_id(net, net.requests_from(i)[k].target_id->0) by {
            assert(node.bridgeable(asked[k].0, net.excluded(n)));
            lemma_excluded(net, n, asked[k].0);
        }
    }
}

/// An answer that grants a bridge comes from a node that is not cut off, and goes to one that is not.
pub open spec fn sound_answer(net: NetworkView, answer: (usize, SignalView)) -> bool {
    &&& answer.0 < net.nodes.len()
    &&& uncut_id(net, net.nodes[answer.0 as int].id)
    &&& uncut_id(net, answer.1.source_id)
}

proof fn lemma_bridges_asked(
    first: NetworkView,
    w: World,
    sender: usize,
    requests: Seq<SignalView>,
    recorded_at: u64,
    n: nat,
)
    requires
        w.net.wired(),
        kin(first, w.net),
        n <= requests.len(),
        sender < first.nodes.len(),
        requests == first.requests_from(sender as int),
    ensures
        kin(w.net, w.bridges_asked(sender, requests, recorded_at, n).0.net),
        only_deliveries(w.log, w.bridges_asked(sender, requests, recorded_at, n).0.log),
        forall|k: int|
            0 <= k < w.bridges_asked(sender, requests, recorded_at, n).1.len() ==> sound_answer(
                first,
                #[trigger] w.bridges_asked(sender, requests, recorded_at, n).1[k],
            ),
    decreases n,
{
    if n > 0 {
        lemma_bridges_asked(first, w, sender, requests, recorded_at, (n - 1) as nat);
        lemma_requests(first, sender as int);
        let request = requests[n - 1];
        assert(first.requests_from(sender as int)[n - 1] == request);
        let id = request.target_id->0;
        lemma_position_exists(w.net.ids(), id);
        match w.net.addressee(request) {
            Some(target) => {
                assert(w.net.ids()[target as int] == id);
                assert(w.net.nodes[target as int].id == id);
                let (before, answers) = w.bridges_asked(sender, requests, recorded_at, (n - 1) as nat);
                let (after, more) = w.bridges_asked(sender, requests, recorded_at, n);
                assert(before.net.nodes[target as int].id == id);
                assert forall|k: int| 0 <= k < more.len() implies sound_answer(first, #[trigger] more[k]) by {
                    if k < answers.len() {
                        assert(more[k] == answers[k]);
                    }
                }
            },
            None => {},
        }
    }
}

proof fn lemma_kin_trans(a: NetworkView, b: NetworkView, c: NetworkView)
    requires
        kin(a, b),
        kin(b, c),
    ensures
        kin(a, c),
{
    assert forall|i: int| 0 <= i < a.nodes.len() implies (#[trigger] c.nodes[i]).id == a.nodes[i].id && c.nodes[i].state
        == a.nodes[i].state && c.nodes[i].config == a.nodes[i].config && same_pending(a.nodes[i], c.nodes[i]) by {
        assert(b.nodes[i].id == a.nodes[i].id);
    }
}

proof fn lemma_all_bridges_asked(first: NetworkView, w: World, requests: Seq<Seq<SignalView>>, recorded_at: u64, n: nat)
    requires
        w.net.wired(),
        kin(first, w.net),
        n <= requests.len(),
        requests == first.all_requests(),
    ensures
        kin(first, w.all_bridges_asked(requests, recorded_at, n).0.net),
        only_deliveries(w.log, w.all_bridges_asked(requests, recorded_at, n).0.log),
        forall|k: int|
            0 <= k < w.all_bridges_asked(requests, recorded_at, n).1.len() ==> sound_answer(
                first,
                #[trigger] w.all_bridges_asked(requests, recorded_at, n).1[k],
            ),
    decreases n,
{
    if n > 0 {
        lemma_all_bridges_asked(first, w, requests, recorded_at, (n - 1) as nat);
        let (before, answers) = w.all_bridges_asked(requests, recorded_at, (n - 1) as nat);
        assert(first.wired()) by {
            lemma_kin_back(first, w.net);
        }
        lemma_kin_sound(first, before.net);
        lemma_bridges_asked(first, before, (n - 1) as usize, requests[n - 1], recorded_at, requests[n - 1].len());
        let (after, more) = before.bridges_asked(
            (n - 1) as usize,
            requests[n - 1],
            recorded_at,
            requests[n - 1].len(),
        );
        lemma_kin_trans(first, before.net, after.net);
        let all = w.all_bridges_asked(requests, recorded_at, n).1;
        assert forall|k: int| 0 <= k < all.len() implies sound_answer(first, #[trigger] all[k]) by {
            if k < answers.len() {
                assert(all[k] == answers[k]);
            } else {
                assert(all[k] == more[k - answers.len()]);
            }
        }
    }
}

proof fn lemma_kin_back(a: NetworkView, b: NetworkView)
    requires
        kin(a, b),
        b.wired(),
    ensures
        a.wired(),
{
    assert forall|i: int| 0 <= i < a.links.len() implies (#[trigger] a.links[i]).from < a.nodes.len() && a.links[i].to
        < a.nodes.len() by {
        assert(b.links[i].from < b.nodes.len());
    }
}

proof fn lemma_bridges_answered(first: NetworkView, w: World, answers: Answers, n: nat)
    requires
        kin(first, w.net),
        n <= answers.len(),
        forall|k: int| 0 <= k < answers.len() ==> sound_answer(first, #[trigger] answers[k]),
    ensures
        kin(first, w.bridges_answered(answers, n).0.net),
        w.bridges_answered(answers, n).0.log == w.log,
        forall|k: int|
            #![trigger w.bridges_answered(answers, n).1[k]]
            0 <= k < w.bridges_answered(answers, n).1.len() ==> uncut_id(first, w.bridges_answered(answers, n).1[k].0)
                && uncut_id(first, w.bridges_answered(answers, n).1[k].1),
    decreases n,
{
    if n > 0 {
        lemma_bridges_answered(first, w, answers, (n - 1) as nat);
        let (before, pairs) = w.bridges_answered(answers, (n - 1) as nat);
        let (after, more) = w.bridges_answered(answers, n);
        let (i, response) = answers[n - 1];
        assert(sound_answer(first, answers[n - 1]));
        assert(before.net.nodes[i as int].id == first.nodes[i as int].id);
        assert forall|k: int| #![trigger more[k]] 0 <= k < more.len() implies uncut_id(first, more[k].0) && uncut_id(
            first,
            more[k].1,
        ) by {
            if k < pairs.len() {
                assert(more[k] == pairs[k]);
            }
        }
    }
}

proof fn lemma_forgotten(net: NetworkView, at: Option<usize>, id: u32)
    requires
        at matches Some(i) ==> i < net.nodes.len(),
    ensures
        kin(net, net.forgotten(at, id)),
{
}

proof fn lemma_all_forgotten(net: NetworkView, pairs: Seq<(u32, u32)>, n: nat)
    requires
        net.wired(),
    ensures
        kin(net, net.all_forgotten(pairs, n)),
    decreases n,
{
    if n > 0 {
        lemma_all_forgotten(net, pairs, (n - 1) as nat);
        let before = net.all_forgotten(pairs, (n - 1) as nat);
        let (a, b) = pairs[n - 1];
        lemma_position_exists(net.ids(), a);
        lemma_position_exists(net.ids(), b);
        let middle = before.forgotten(position(net.ids(), a), b);
        lemma_forgotten(before, position(net.ids(), a), b);
        lemma_forgotten(middle, position(net.ids(), b), a);
        lemma_kin_trans(net, before, middle);
        lemma_kin_trans(net, middle, net.all_forgotten(pairs, n));
    }
}

/// The links of bridges join nodes that are not cut off.
proof fn lemma_bridge_links_uncut(net: NetworkView, pairs: Seq<(u32, u32)>, n: nat)
    requires
        net.wired(),
        n <= pairs.len(),
        forall|k: int| 0 <= k < pairs.len() ==> uncut_id(net, (#[trigger] pairs[k]).0) && uncut_id(net, pairs[k].1),
    ensures
        forall|i: int|
            #![trigger bridge_links(pairs, net.ids(), n)[i]]
            0 <= i < bridge_links(pairs, net.ids(), n).len() ==> {
                let l = bridge_links(pairs, net.ids(), n)[i];
                &&& l.active
                &&& l.from < net.nodes.len()
                &&& l.to < net.nodes.len()
                &&& !net.cut(l.from as int)
                &&& !net.cut(l.to as int)
            },
    decreases n,
{
    if n > 0 {
        lemma_bridge_links_uncut(net, pairs, (n - 1) as nat);
        let ids = net.ids();
        let before = bridge_links(pairs, ids, (n - 1) as nat);
        let after = bridge_links(pairs, ids, n);
        let (a, b) = pairs[n - 1];
        lemma_position_exists(ids, a);
        lemma_position_exists(ids, b);
        assert(uncut_id(net, a) && uncut_id(net, b));
        assert forall|i: int| #![trigger after[i]] 0 <= i < after.len() implies {
            let l = after[i];
            &&& l.active
            &&& l.from < net.nodes.len()
            &&& l.to < net.nodes.len()
            &&& !net.cut(l.from as int)
            &&& !net.cut(l.to as int)
        } by {
            if i < before.len() {
                assert(after[i] == before[i]);
            } else {
                let from = position(ids, a)->0;
                let to = position(ids, b)->0;
                assert(ids[from as int] == a && ids[to as int] == b);
                assert(net.nodes[from as int].id == a && net.nodes[to as int].id == b);
            }
        }
    }
}

/// Building bridges opens no link to a node that is cut off, takes no link away and changes no
/// node's state.
pub proof fn law_bridges_join_uncut_nodes(w: World, recorded_at: u64)
    requires
        w.net.wired(),
        open_links_uncut(w.net),
    ensures
        ({
            let after = w.healed(recorded_at).net;
            &&& open_links_uncut(after)
            &&& links_follow(w.net) ==> links_follow(after)
            &&& kin(w.net.with_links(after.links), after)
            &&& only_deliveries(w.log, w.healed(recorded_at).log)
            &&& w.net.links.len() <= after.links.len()
            &&& after.links.take(w.net.links.len() as int) == w.net.links
            &&& after.wired()
        }),
{
    let first = w.net;
    let requests = first.all_requests();
    let asking = World { net: first.all_asking(), ..w };
    assert(kin(first, asking.net));
    lemma_kin_sound(first, asking.net);
    lemma_all_bridges_asked(first, asking, requests, recorded_at, requests.len());
    let (asked, answers) = asking.all_bridges_asked(requests, recorded_at, requests.len());
    lemma_bridges_answered(first, asked, answers, answers.len());
    let (answered, pairs) = asked.bridges_answered(answers, answers.len());
    let added = bridge_links(pairs, first.ids(), pairs.len());
    lemma_bridge_links_uncut(first, pairs, pairs.len());
    lemma_kin_sound(first, answered.net);
    let bridged = answered.net.with_links(answered.net.links + added);
    assert(bridged.wired()) by {
        assert forall|i: int| 0 <= i < bridged.links.len() implies (#[trigger] bridged.links[i]).from < bridged.nodes.len()
            && bridged.links[i].to < bridged.nodes.len() by {
            if i < first.links.len() {
                assert(bridged.links[i] == first.links[i]);
            } else {
                assert(bridged.links[i] == added[i - first.links.len()]);
            }
        }
    }
    lemma_all_forgotten(bridged, pairs, pairs.len());
    let after = w.healed(recorded_at).net;
    assert(after == bridged.all_forgotten(pairs, pairs.len()));
    lemma_kin_sound(bridged, after);
    assert(kin(first.with_links(bridged.links), bridged));
    lemma_kin_trans(first.with_links(bridged.links), bridged, after);
    assert(after.links.take(first.links.len() as int) =~= first.links);
    assert forall|i: int| 0 <= i < after.links.len() implies {
        let l = #[trigger] after.links[i];
        &&& l.active ==> !after.cut(l.from as int) && !after.cut(l.to as int)
        &&& links_follow(first) && !after.cut(l.from as int) && !after.cut(l.to as int) ==> l.active
    } by {
        let l = after.links[i];
        assert(l.from < after.nodes.len() && l.to < after.nodes.len());
        assert(after.nodes[l.from as int].id == first.nodes[l.from as int].id);
        assert(after.nodes[l.to as int].id == first.nodes[l.to as int].id);
        if i < first.links.len() {
            assert(first.links[i] == l);
        } else {
            assert(added[i - first.links.len()] == l);
        }
    }
}

/// When the links and scenarios have had their turn, the links are open exactly where neither end is
/// cut off.
pub(crate) proof fn lemma_maintained(net: NetworkView)
    requires
        net.wired(),
    ensures
        links_follow(net.maintained()),
        net.maintained().wired(),
        same_clock(net, net.maintained()),
        net.maintained().recent_lifecycle == net.recent_lifecycle,
        net.maintained().nodes.len() == net.nodes.len(),
        all_pending(net, net.maintained()),
{
    let a = net.synced();
    assert(a.wired()) by {
        assert forall|i: int| 0 <= i < a.links.len() implies (#[trigger] a.links[i]).from < a.nodes.len() && a.links[i].to
            < a.nodes.len() by {
            assert(net.links[i].from < net.nodes.len());
        }
    }
    let idle = NetworkView { active_effects: seq![], ..a };
    lemma_advanced(idle, a.active_effects, a.active_effects.len());
    let b = a.affected();
    assert(same_nodes(idle, b));
    assert(same_nodes(a, b));
    lemma_still_sound(a, b);
    let c = b.synced();
    assert(c.wired()) by {
        assert forall|i: int| 0 <= i < c.links.len() implies (#[trigger] c.links[i]).from < c.nodes.len() && c.links[i].to
            < c.nodes.len() by {
            assert(b.links[i].from < b.nodes.len());
        }
    }
    let d = c.marked(net.cut_ids(net.nodes.len()));
    lemma_still_sound(c, d);
    let e = d.cleaned();
    let p = |l: Link| !d.redundant(l);
    assert forall|i: int| 0 <= i < e.links.len() implies (#[trigger] e.links[i]).from < e.nodes.len() && e.links[i].to
        < e.nodes.len() && (e.links[i].active <==> !e.cut(e.links[i].from as int) && !e.cut(e.links[i].to as int)) by {
        let l = e.links[i];
        assert(d.links.filter(p).contains(l));
        lemma_filter_from(d.links, p, l);
        let k = d.links.index_of(l);
        assert(c.links[k] == l);
        assert(c.links[k] == b.synced_link(b.links[k]));
    }
    assert(e.wired());
    law_flood_changes_no_state(e);
    let f = e.flooded();
    lemma_kin_sound(e, f);
    assert forall|i: int| 0 <= i < f.links.len() implies ((#[trigger] f.links[i]).active <==> !f.cut(
        f.links[i].from as int,
    ) && !f.cut(f.links[i].to as int)) by {
        let l = f.links[i];
        assert(e.links[i] == l);
        assert(f.nodes[l.from as int].id == e.nodes[l.from as int].id);
        assert(f.nodes[l.to as int].id == e.nodes[l.to as int].id);
    }
    assert forall|i: int| 0 <= i < net.nodes.len() implies same_pending(#[trigger] net.nodes[i], f.nodes[i]) by {
        assert(same_pending(idle.nodes[i], b.nodes[i]));
        assert(f.nodes[i].id == e.nodes[i].id);
    }
}

/// When a tick is closed, a link is open exactly where neither of its ends is isolated or parted from the
/// others by a scenario; bridges that were just built are open too.
pub proof fn law_links_follow_when_closed(w: World, recorded_at: u64)
    requires
        w.net.wired(),
    ensures
        links_follow(w.closed(recorded_at).net),
{
    reveal(World::closed);
    lemma_maintained(w.net);
    let maintained = World { net: w.net.maintained(), ..w };
    law_bridges_join_uncut_nodes(maintained, recorded_at);
    let healed = maintained.healed(recorded_at).net;
    let after = healed.concluded();
    assert forall|i: int| 0 <= i < after.links.len() implies ((#[trigger] after.links[i]).active <==> !after.cut(
        after.links[i].from as int,
    ) && !after.cut(after.links[i].to as int)) by {
        let l = healed.links[i];
        assert(l.active <==> !healed.cut(l.from as int) && !healed.cut(l.to as int));
    }
}

/// The last `n` of the last `n` and more are the last `n` of all.
proof fn lemma_last_of_twice<T>(a: Seq<T>, b: Seq<T>, n: nat)
    ensures
        last_of(last_of(a, n) + b, n) == last_of(a + b, n),
{
    assert(last_of(last_of(a, n) + b, n) =~= last_of(a + b, n));
}

/// Two batches one after the other are one batch of both.
proof fn lemma_two_batches<T>(old: Seq<T>, first: Seq<T>, second: Seq<T>, n: nat)
    ensures
        last_of(last_of(old + first, n) + second, n) == last_of(old + (first + second), n),
        (old + first) + second == old + (first + second),
{
    assert((old + first) + second =~= old + (first + second));
    lemma_last_of_twice(old + first, second, n);
}

/// Logging all decisions takes them off the nodes, and keeps the last ones for show.
pub(crate) proof fn lemma_all_decisions_logged(w: World)
    requires
        w.net.wired(),
    ensures
        ({
            let after = w.all_decisions_logged();
            let entries = w.net.records(w.net.nodes.len());
            &&& same_clock(w.net, after.net)
            &&& after.net.wired()
            &&& after.net.nodes.len() == w.net.nodes.len()
            &&& after.net.recent_lifecycle == last_of(
                w.net.recent_lifecycle + entries,
                RECENT_LIFECYCLE_CAPACITY as nat,
            )
            &&& forall|k: int|
                0 <= k < w.net.nodes.len() ==> (#[trigger] after.net.nodes[k]) == w.net.nodes[k].without_lifecycle()
            &&& after.log.lifecycle.unwritten() == w.log.lifecycle.unwritten() + entries
        }),
{
    law_decisions_are_logged_once(w, w.net.nodes.len());
    let logged = w.decisions_logged(w.net.nodes.len()).net;
    let after = w.all_decisions_logged().net;
    assert forall|k: int| 0 <= k < w.net.nodes.len() implies (#[trigger] after.nodes[k])
        == w.net.nodes[k].without_lifecycle() by {
        assert(logged.nodes[k] == after.nodes[k]);
    }
    assert(same_nodes(w.net, after));
    lemma_still_sound(w.net, after);
}

/// The clock shows the same, and ends at the same tick.
pub open spec fn same_clock(a: NetworkView, b: NetworkView) -> bool {
    a.tick == b.tick && a.max_ticks == b.max_ticks && a.finished == b.finished
}

/// No node has anything left to log.
pub open spec fn all_logged(net: NetworkView) -> bool {
    forall|k: int|
        0 <= k < net.nodes.len() ==> (#[trigger] net.nodes[k]).pending_lifecycle.len() == 0
            && net.nodes[k].pending_ai_decisions.len() == 0
}

proof fn lemma_resumed(
    w: World,
    askings: Seq<Asking>,
    predictions: Seq<Result<AIOutput, String>>,
    recorded_at: u64,
)
    requires
        w.net.wired(),
    ensures
        ({
            let after = w.resumed(askings, predictions, recorded_at);
            let ended = w.net.resumed(askings, predictions, recorded_at);
            let entries = ended.records(ended.nodes.len());
            &&& same_clock(w.net, after.net)
            &&& after.net.wired()
            &&& all_logged(after.net)
            &&& after.net.recent_lifecycle == last_of(
                w.net.recent_lifecycle + entries,
                RECENT_LIFECYCLE_CAPACITY as nat,
            )
            &&& after.log.lifecycle.unwritten() == w.log.lifecycle.unwritten() + entries
        }),
{
    reveal(World::resumed);
    let resumed = World { net: w.net.resumed(askings, predictions, recorded_at), ..w };
    assert(same_nodes(w.net, resumed.net)) by {
        assert forall|k: int| 0 <= k < w.net.nodes.len() implies (#[trigger] w.net.nodes[k]).id == resumed.net.nodes[k].id
            && w.net.nodes[k].config == resumed.net.nodes[k].config by {
            w.net.nodes[k].lemma_resumed_keeps(
                askings[k],
                recommendation(w.net.nodes[k].ai, predictions[k]),
                w.net.tick,
                recorded_at,
            );
        }
    }
    lemma_still_sound(w.net, resumed.net);
    lemma_all_decisions_logged(resumed);
    let logged = resumed.all_decisions_logged();
    lemma_answers_logged(logged, logged.net.nodes.len());
    let after = logged.answers_logged(logged.net.nodes.len());
    assert forall|k: int| 0 <= k < logged.net.nodes.len() implies (#[trigger] logged.net.nodes[k]).id
        == after.net.nodes[k].id && logged.net.nodes[k].config == after.net.nodes[k].config by {
        assert(after.net.nodes[k] == logged.net.nodes[k].without_answers());
    }
    lemma_still_sound(logged.net, after.net);
    assert forall|k: int| 0 <= k < after.net.nodes.len() implies (#[trigger] after.net.nodes[k]).pending_lifecycle.len() == 0
        && after.net.nodes[k].pending_ai_decisions.len() == 0 by {
        assert(logged.net.nodes[k] == resumed.net.nodes[k].without_lifecycle());
    }
}

proof fn lemma_settled(w: World, recorded_at: u64)
    requires
        w.net.wired(),
        all_logged(w.net),
    ensures
        ({
            let after = w.settled(recorded_at);
            let shaken = w.all_advised(recorded_at).handshaken(recorded_at);
            let entries = shaken.net.records(shaken.net.nodes.len());
            &&& same_clock(w.net, after.net)
            &&& after.net.wired()
            &&& all_logged(after.net)
            &&& after.net.recent_lifecycle == last_of(
                w.net.recent_lifecycle + entries,
                RECENT_LIFECYCLE_CAPACITY as nat,
            )
            &&& after.log.lifecycle.unwritten() == w.log.lifecycle.unwritten() + entries
        }),
{
    reveal(World::settled);
    let told = World { net: w.net.all_told(), ..w };
    assert(same_nodes(w.net, told.net));
    lemma_still_sound(w.net, told.net);
    lemma_advised_kin(told, w.net.advices(), recorded_at, w.net.nodes.len());
    let advised = w.all_advised(recorded_at);
    lemma_kin_sound(told.net, advised.net);
    lemma_handshaken(advised, recorded_at);
    let shaken = advised.handshaken(recorded_at);
    lemma_still_sound(advised.net, shaken.net);
    lemma_all_decisions_logged(shaken);
    let after = w.settled(recorded_at);
    assert forall|k: int| 0 <= k < after.net.nodes.len() implies (#[trigger] after.net.nodes[k]).pending_lifecycle.len() == 0
        && after.net.nodes[k].pending_ai_decisions.len() == 0 by {
        assert(after.net.nodes[k] == shaken.net.nodes[k].without_lifecycle());
        assert(advised.net.nodes[k].pending_ai_decisions == shaken.net.nodes[k].pending_ai_decisions);
        assert(same_pending(told.net.nodes[k], advised.net.nodes[k]));
        assert(told.net.nodes[k] == w.net.nodes[k].told_all());
        assert(w.net.nodes[k].pending_ai_decisions.len() == 0);
    }
}

proof fn lemma_closed(w: World, recorded_at: u64)
    requires
        w.net.wired(),
        all_logged(w.net),
    ensures
        ({
            let after = w.closed(recorded_at);
            &&& after.net.tick == w.net.tick
            &&& after.net.max_ticks == w.net.max_ticks
            &&& after.net.finished <==> w.net.finished || w.net.tick >= w.net.max_ticks
            &&& after.net.recent_lifecycle == w.net.recent_lifecycle
            &&& all_logged(after.net)
            &&& after.log.lifecycle.outgoing == w.log.lifecycle.unwritten()
            &&& after.log.lifecycle.buffer.len() == 0
            &&& after.log.signals.buffer.len() == 0
            &&& after.log.ai_decisions.buffer.len() == 0
        }),
{
    reveal(World::closed);
    lemma_maintained(w.net);
    let maintained = World { net: w.net.maintained(), ..w };
    law_bridges_join_uncut_nodes(maintained, recorded_at);
    let healed = maintained.healed(recorded_at);
    let after = w.closed(recorded_at);
    assert(after.log.lifecycle.outgoing =~= w.log.lifecycle.unwritten());
    assert forall|k: int| 0 <= k < after.net.nodes.len() implies (#[trigger] after.net.nodes[k]).pending_lifecycle.len() == 0
        && after.net.nodes[k].pending_ai_decisions.len() == 0 by {
        assert(after.net.nodes[k] == healed.net.nodes[k]);
        assert(same_pending(maintained.net.nodes[k], healed.net.nodes[k]));
        assert(same_pending(w.net.nodes[k], maintained.net.nodes[k]));
        assert(w.net.nodes[k].pending_lifecycle.len() == 0);
    }
}

/// The last step of a tick keeps the clock and ends the simulation exactly with its last tick. Of the earlier
/// decisions followed by this tick's it keeps the last ones for show. Each decision of the tick is handed
/// over with the log once, behind the earlier ones, and no node has anything left to log. A link is then
/// open exactly where neither of its ends is isolated or parted from the others by a scenario.
pub proof fn law_tick_ends(
    w: World,
    askings: Seq<Asking>,
    predictions: Seq<Result<AIOutput, String>>,
    recorded_at: u64,
)
    requires
        w.net.wired(),
    ensures
        ({
            let after = w.decided(askings, predictions, recorded_at);
            let entries = w.tick_records(askings, predictions, recorded_at);
            &&& after.net.tick == w.net.tick
            &&& after.net.max_ticks == w.net.max_ticks
            &&& after.net.finished <==> w.net.finished || w.net.tick >= w.net.max_ticks
            &&& after.net.recent_lifecycle == last_of(
                w.net.recent_lifecycle + entries,
                RECENT_LIFECYCLE_CAPACITY as nat,
            )
            &&& after.net.recent_lifecycle.len() <= RECENT_LIFECYCLE_CAPACITY
            &&& all_logged(after.net)
            &&& after.log.lifecycle.outgoing == w.log.lifecycle.unwritten() + entries
            &&& after.log.lifecycle.buffer.len() == 0
            &&& after.log.signals.buffer.len() == 0
            &&& after.log.ai_decisions.buffer.len() == 0
            &&& links_follow(after.net)
        }),
{
    let resumed = w.resumed(askings, predictions, recorded_at);
    let ended = w.net.resumed(askings, predictions, recorded_at);
    let first = ended.records(ended.nodes.len());
    let shaken = resumed.all_advised(recorded_at).handshaken(recorded_at);
    let second = shaken.net.records(shaken.net.nodes.len());
    let old = w.net.recent_lifecycle;
    lemma_resumed(w, askings, predictions, recorded_at);
    lemma_settled(resumed, recorded_at);
    lemma_closed(resumed.settled(recorded_at), recorded_at);
    law_links_follow_when_closed(resumed.settled(recorded_at), recorded_at);
    lemma_two_batches(old, first, second, RECENT_LIFECYCLE_CAPACITY as nat);
    lemma_two_batches(w.log.lifecycle.unwritten(), first, second, 0);
}

/// One whole tick of a network that is not over yet, whatever the models reply: it counts by one, ends the
/// simulation exactly with its last tick, logs each of its decisions once, keeps the last ones for show,
/// and leaves a link open exactly where neither of its ends is cut off.
pub proof fn law_whole_tick(
    w: World,
    replies: Seq<Vec<Option<Single>>>,
    askings: Seq<Asking>,
    predictions: Seq<Result<AIOutput, String>>,
    told_at: u64,
    polled_at: u64,
    decided_at: u64,
)
    requires
        w.net.wired(),
        !w.net.finished,
        w.net.tick < u64::MAX,
    ensures
        ({
            let polled = w.ticked(told_at).polled(replies, polled_at);
            let after = polled.decided(askings, predictions, decided_at);
            let entries = polled.tick_records(askings, predictions, decided_at);
            &&& after.net.tick == w.net.tick + 1
            &&& after.net.finished <==> w.net.tick + 1 >= w.net.max_ticks
            &&& after.net.recent_lifecycle == last_of(
                w.net.recent_lifecycle + entries,
                RECENT_LIFECYCLE_CAPACITY as nat,
            )
            &&& after.log.lifecycle.outgoing == w.log.lifecycle.unwritten() + entries
            &&& all_logged(after.net)
            &&& links_follow(after.net)
        }),
{
    let next = World { net: w.net.next_tick(), ..w };
    lemma_still_sound(w.net, next.net);
    lemma_broadcast_kin(next, next.net.broadcasts(), told_at, next.net.links.len());
    let told = w.ticked(told_at);
    lemma_kin_sound(next.net, told.net);
    lemma_polled(told, replies, polled_at);
    law_tick_ends(told.polled(replies, polled_at), askings, predictions, decided_at);
}

pub(crate) proof fn lemma_polled(w: World, replies: Seq<Vec<Option<Single>>>, recorded_at: u64)
    requires
        w.net.wired(),
    ensures
        only_nodes(w.net, w.polled(replies, recorded_at).net),
        only_deliveries(w.log, w.polled(replies, recorded_at).log),
        w.polled(replies, recorded_at).net.wired(),
{
    let votes = w.net.votes(replies);
    let cast = World { net: w.net.accusing(replies), ..w };
    assert(kin(w.net, cast.net));
    lemma_kin_sound(w.net, cast.net);
    lemma_all_votes_kin(cast, votes, recorded_at, votes.len());
    lemma_kin_sound(cast.net, cast.all_votes_cast(votes, recorded_at, votes.len()).net);
}

/// What a node knows it goes on knowing.
proof fn lemma_knows_on(node: NodeView, known: NodeSnapshotView, snap: NodeSnapshotView, current_tick: u64)
    requires
        node.knows(known),
    ensures
        node.informed_of(snap, current_tick).knows(known),
{
}

proof fn lemma_first_round_knows(net: NetworkView, mail: Mail, n: nat, k: int)
    requires
        net.wired(),
        0 <= k < n <= mail.len(),
        forall|i: int| 0 <= i < mail.len() ==> (#[trigger] mail[i]).0 < net.nodes.len(),
    ensures
        net.first_round(mail, n).0.nodes[mail[k].0 as int].knows(mail[k].1),
    decreases n,
{
    lemma_first_round(net, mail, (n - 1) as nat);
    let before = net.first_round(mail, (n - 1) as nat).0;
    let (i, snap) = mail[n - 1];
    assert(mail[k].0 < net.nodes.len());
    if k < n - 1 {
        lemma_first_round_knows(net, mail, (n - 1) as nat, k);
        if mail[k].0 == i {
            lemma_knows_on(before.nodes[i as int], mail[k].1, snap, net.tick);
        }
    } else {
        law_passed_on_once(before.nodes[i as int], snap, net.tick);
    }
}

proof fn lemma_second_round_knows(net: NetworkView, mail: Mail, n: nat, b: int, known: NodeSnapshotView)
    requires
        n <= mail.len(),
        0 <= b < net.nodes.len(),
        net.nodes[b].knows(known),
        forall|i: int| 0 <= i < mail.len() ==> (#[trigger] mail[i]).0 < net.nodes.len(),
    ensures
        net.second_round(mail, n).nodes[b].knows(known),
    decreases n,
{
    if n > 0 {
        lemma_second_round_knows(net, mail, (n - 1) as nat, b, known);
        lemma_second_round(net, mail, (n - 1) as nat);
        let before = net.second_round(mail, (n - 1) as nat);
        let (i, snap) = mail[n - 1];
        assert(mail[n - 1].0 < net.nodes.len());
        if i == b {
            lemma_knows_on(before.nodes[b], known, snap, net.tick);
        }
    }
}

proof fn lemma_posted_along(net: NetworkView, from: usize, snap: NodeSnapshotView, l: Link)
    requires
        net.links.contains(l),
        l.active,
        l.from == from,
    ensures
        net.posted(from, snap).contains((l.to, snap)),
{
    let p = |l: Link| l.active && l.from == from;
    lemma_filter_keeps(net.links, p, l);
    let k = net.links.filter(p).index_of(l);
    assert(net.posted(from, snap)[k] == (l.to, snap));
}

proof fn lemma_announced_along(net: NetworkView, n: nat, l: Link)
    requires
        net.wired(),
        n <= net.nodes.len(),
        net.links.contains(l),
        l.active,
        l.from < n,
        net.nodes[l.from as int].state.mode != Mode::Isolated,
    ensures
        net.announced(n).contains((l.to, net.own_snapshot(l.from as int))),
    decreases n,
{
    let letter = (l.to, net.own_snapshot(l.from as int));
    let before = net.announced((n - 1) as nat);
    if l.from < n - 1 {
        lemma_announced_along(net, (n - 1) as nat, l);
        assert(net.announced(n)[before.index_of(letter)] == letter);
    } else {
        lemma_posted_along(net, l.from, net.own_snapshot(l.from as int), l);
        let more = net.posted(l.from, net.own_snapshot(l.from as int));
        assert(net.announced(n)[before.len() + more.index_of(letter)] == letter);
    }
}

/// After a flood every node knows of this tick's links of each node, if not isolated, from which an
/// active link leads to it.
pub proof fn law_flood_reaches_neighbors(net: NetworkView, l: Link)
    requires
        net.wired(),
        net.links.contains(l),
        l.active,
        net.nodes[l.from as int].state.mode != Mode::Isolated,
    ensures
        net.flooded().nodes[l.to as int].knows(net.own_snapshot(l.from as int)),
{
    let k = net.links.index_of(l);
    assert(net.links[k].from < net.nodes.len() && net.links[k].to < net.nodes.len());
    let mail = net.announced(net.nodes.len());
    let letter = (l.to, net.own_snapshot(l.from as int));
    lemma_announced_within(net, net.nodes.len());
    lemma_announced_along(net, net.nodes.len(), l);
    lemma_first_round(net, mail, mail.len());
    lemma_first_round_knows(net, mail, mail.len(), mail.index_of(letter));
    let (after, relays) = net.first_round(mail, mail.len());
    lemma_second_round_knows(after, relays, relays.len(), l.to as int, letter.1);
}

/// What the node has heard of in this tick comes with full confidence.
spec fn trusts(node: NodeView, tick: u64) -> bool {
    forall|id: u32| #[trigger]
        node.topology_map.snapshots.contains_key(id) ==> node.topology_map.snapshots[id].timestamp < tick || (
        node.topology_map.snapshots[id].timestamp == tick && node.topology_map.snapshots[id].confidence == Single {
            bits: ONE,
        })
}

proof fn lemma_first_round_trusts(net: NetworkView, mail: Mail, n: nat, b: int)
    requires
        net.wired(),
        n <= mail.len(),
        0 <= b < net.nodes.len(),
        trusts(net.nodes[b], net.tick),
        forall|i: int|
            0 <= i < mail.len() ==> (#[trigger] mail[i]).0 < net.nodes.len() && mail[i].1.timestamp == net.tick
                && mail[i].1.confidence == (Single { bits: ONE }),
    ensures
        trusts(net.first_round(mail, n).0.nodes[b], net.tick),
    decreases n,
{
    if n > 0 {
        lemma_first_round_trusts(net, mail, (n - 1) as nat, b);
        lemma_first_round(net, mail, (n - 1) as nat);
        assert(mail[n - 1].0 < net.nodes.len());
    }
}

proof fn lemma_second_round_keeps(net: NetworkView, mail: Mail, n: nat, b: int, id: u32)
    requires
        n <= mail.len(),
        0 <= b < net.nodes.len(),
        net.nodes[b].topology_map.snapshots.contains_key(id),
        net.nodes[b].topology_map.snapshots[id].timestamp >= net.tick,
        forall|i: int|
            0 <= i < mail.len() ==> (#[trigger] mail[i]).0 < net.nodes.len() && mail[i].1.timestamp <= net.tick,
    ensures
        net.second_round(mail, n).nodes[b].topology_map.snapshots.contains_key(id),
        net.second_round(mail, n).nodes[b].topology_map.snapshots[id] == net.nodes[b].topology_map.snapshots[id],
    decreases n,
{
    if n > 0 {
        lemma_second_round_keeps(net, mail, (n - 1) as nat, b, id);
        lemma_second_round(net, mail, (n - 1) as nat);
        assert(mail[n - 1].0 < net.nodes.len());
    }
}

proof fn lemma_announced_fresh(net: NetworkView, n: nat)
    requires
        net.wired(),
        n <= net.nodes.len(),
    ensures
        forall|i: int|
            0 <= i < net.announced(n).len() ==> (#[trigger] net.announced(n)[i]).1.timestamp == net.tick
                && net.announced(n)[i].1.confidence == (Single { bits: ONE }),
    decreases n,
{
    if n > 0 {
        lemma_announced_fresh(net, (n - 1) as nat);
        let before = net.announced((n - 1) as nat);
        let more = net.posted((n - 1) as usize, net.own_snapshot(n - 1));
        assert forall|i: int| 0 <= i < net.announced(n).len() implies (#[trigger] net.announced(n)[i]).1.timestamp
            == net.tick && net.announced(n)[i].1.confidence == (Single { bits: ONE }) by {
            if i < before.len() {
                assert(net.announced(n)[i] == before[i]);
            } else {
                assert(net.announced(n)[i] == more[i - before.len()]);
            }
        }
    }
}

proof fn lemma_relays_fresh(net: NetworkView, mail: Mail, n: nat)
    requires
        n <= mail.len(),
        forall|i: int| 0 <= i < mail.len() ==> (#[trigger] mail[i]).1.timestamp <= net.tick,
    ensures
        forall|i: int|
            0 <= i < net.first_round(mail, n).1.len() ==> (#[trigger] net.first_round(mail, n).1[i]).1.timestamp
                <= net.tick,
    decreases n,
{
    if n > 0 {
        lemma_relays_fresh(net, mail, (n - 1) as nat);
        let (before, relays) = net.first_round(mail, (n - 1) as nat);
        let (i, snap) = mail[n - 1];
        let more = net.posted(i, snap.relayed());
        let all = net.first_round(mail, n).1;
        assert(mail[n - 1].1.timestamp <= net.tick);
        assert forall|k: int| 0 <= k < all.len() implies (#[trigger] all[k]).1.timestamp <= net.tick by {
            if k < relays.len() {
                assert(all[k] == relays[k]);
            } else {
                assert(all[k] == more[k - relays.len()]);
            }
        }
    }
}

/// After a flood a node holds with full confidence what a direct neighbour, if not isolated, has announced in
/// this tick, provided that it held nothing yet from this tick or from later.
pub proof fn law_direct_neighbors_are_trusted(net: NetworkView, l: Link)
    requires
        net.wired(),
        net.links.contains(l),
        l.active,
        net.nodes[l.from as int].state.mode != Mode::Isolated,
        forall|id: u32| #[trigger]
            net.nodes[l.to as int].topology_map.snapshots.contains_key(id)
                ==> net.nodes[l.to as int].topology_map.snapshots[id].timestamp < net.tick,
    ensures
        ({
            let map = net.flooded().nodes[l.to as int].topology_map.snapshots;
            let id = net.nodes[l.from as int].id;
            &&& map.contains_key(id)
            &&& map[id].timestamp == net.tick
            &&& map[id].confidence == (Single { bits: ONE })
        }),
{
    let k = net.links.index_of(l);
    assert(net.links[k].from < net.nodes.len() && net.links[k].to < net.nodes.len());
    let mail = net.announced(net.nodes.len());
    let letter = (l.to, net.own_snapshot(l.from as int));
    let b = l.to as int;
    let id = net.nodes[l.from as int].id;
    lemma_announced_within(net, net.nodes.len());
    lemma_announced_fresh(net, net.nodes.len());
    lemma_announced_along(net, net.nodes.len(), l);
    lemma_first_round(net, mail, mail.len());
    lemma_first_round_knows(net, mail, mail.len(), mail.index_of(letter));
    assert(trusts(net.nodes[b], net.tick));
    lemma_first_round_trusts(net, mail, mail.len(), b);
    lemma_relays_fresh(net, mail, mail.len());
    let (after, relays) = net.first_round(mail, mail.len());
    assert(after.nodes[b].topology_map.snapshots.contains_key(id));
    lemma_second_round_keeps(after, relays, relays.len(), b, id);
}

} // verus!
