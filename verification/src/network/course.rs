//! How the steps of a tick work together.

use vstd::prelude::*;

use crate::ai_module::{AIModel, AIOutput};
use crate::network::ballots::law_advice_goes_along_active_links;
use crate::network::bridging::{law_recovery_noted, lemma_healed_keeps};
use crate::network::laws::{
    kin, law_flood_changes_no_state, law_flood_reaches_neighbors, lemma_advanced, lemma_advised_kin, lemma_all_decisions_logged,
    lemma_all_votes_kin, lemma_answers_logged, lemma_handshaken, lemma_kin_sound, lemma_maintained,
};
use crate::network::links::{law_cut_ids, lemma_filter_from, lemma_filter_keeps};
use crate::network::topology_map::Link;
use crate::network::welcome::{law_handshake, neighbors_counted, supporters, welcomes};
use crate::network::world::World;
use crate::network::{lemma_still_sound, same_nodes, NetworkView};
use crate::node::ai_processes::recommendation;
use crate::node::laws::law_verdict_of_neighbors;
use crate::node::tick::Asking;
use crate::node::{Mode, NodeView, StateView};
use crate::persistence::{law_pushed_is_handed_over, AiDecisionView, JournalView};
use crate::proposal::ProposalAction;
use crate::scenarios::engine::{advanced, repeated};
use crate::scenarios::laws::{aged, law_effects_keep_order, plan_of};
use crate::scenarios::EffectView;
use crate::single::Single;

verus! {

/// In the second step of a tick the votes come first, and change nobody's state; then a node that is at work and has
/// neighbours is isolated exactly where those that vote against it in this tick are two thirds of these, and the set
/// number, at least; and nobody else is isolated by it.
pub proof fn law_second_step(w: World, replies: Seq<Vec<Option<Single>>>, recorded_at: u64, b: int)
    requires
        w.net.wired(),
        0 <= b < w.net.nodes.len(),
    ensures
        ({
            let heard = w.voted(replies, recorded_at).net.nodes[b];
            let after = w.polled(replies, recorded_at).net.nodes[b];
            let n = heard.neighbor_ids.len();
            let votes = heard.accusers(w.net.tick).len();
            let out = n > 0 && 3 * votes >= 2 * n && votes >= heard.config.security.peer_suspicion_threshold;
            &&& heard.state == w.net.nodes[b].state
            &&& heard.id == w.net.nodes[b].id
            &&& heard.config == w.net.nodes[b].config
            &&& heard.state.mode != Mode::Isolated && heard.state.mode != Mode::Reconnecting ==> (after.state.mode
                == Mode::Isolated <==> out)
            &&& heard.state.mode == Mode::Isolated || heard.state.mode == Mode::Reconnecting ==> after.state == heard.state
        }),
{
    let votes = w.net.votes(replies);
    let cast = World { net: w.net.accusing(replies), ..w };
    assert(kin(w.net, cast.net));
    lemma_kin_sound(w.net, cast.net);
    lemma_all_votes_kin(cast, votes, recorded_at, votes.len());
    let after = cast.all_votes_cast(votes, recorded_at, votes.len());
    assert(after.net.nodes[b].state == cast.net.nodes[b].state);
    let heard = w.voted(replies, recorded_at).net.nodes[b];
    assert(heard.state == after.net.nodes[b].state);
    assert(w.voted(replies, recorded_at).net.tick == w.net.tick);
    law_verdict_of_neighbors(heard, w.net.tick, recorded_at);
    lemma_not_isolated(heard, w.net.tick, recorded_at);
}

/// Without the vote of its neighbours no node is isolated in the first step of its tick.
proof fn lemma_not_isolated(node: NodeView, tick: u64, recorded_at: u64)
    ensures
        node.state.mode != Mode::Isolated && node.consensus_proposal(tick) is None ==> node.begun(
            tick,
            recorded_at,
        ).0.state.mode != Mode::Isolated,
        node.state.mode == Mode::Isolated || node.state.mode == Mode::Reconnecting ==> node.begun(
            tick,
            recorded_at,
        ).0.state == node.state,
{
    reveal(NodeView::begun);
}

/// What a model recommends counts only where it has answered and is not kept from it; its label says what to do, and an
/// unknown label says to do nothing.
pub proof fn law_recommendation(ai: AIModel, reply: Result<AIOutput, String>)
    ensures
        recommendation(ai, reply) is Some <==> reply is Ok && !ai.overridden,
        recommendation(ai, reply) matches Some(p) ==> {
            let label = reply->Ok_0.recommended_action@;
            &&& p.threat_score == reply->Ok_0.threat_score
            &&& p.predicted_state == reply->Ok_0.predicted_state@
            &&& p.event_reason == reply->Ok_0.event_reason@
            &&& p.confidence == reply->Ok_0.confidence
            &&& p.action == ProposalAction::ReduceLoad <==> label == "reduce_load"@
            &&& p.action == ProposalAction::IncreaseLoad <==> label == "increase_load"@
            &&& p.action == ProposalAction::EnterIsolation <==> label == "enter_isolation"@
            &&& p.action == ProposalAction::EnterDegraded <==> label == "enter_degraded"@
            &&& p.action == ProposalAction::ExitDegraded <==> label == "exit_degraded"@
            &&& p.action == ProposalAction::BeginReconnect <==> label == "begin_reconnect"@
            &&& p.action == ProposalAction::ExitIsolation <==> label == "exit_isolation"@
            &&& p.action != ProposalAction::ExitCalibration
        },
{
    reveal_strlit("reduce_load");
    reveal_strlit("increase_load");
    reveal_strlit("enter_isolation");
    reveal_strlit("enter_degraded");
    reveal_strlit("exit_degraded");
    reveal_strlit("begin_reconnect");
    reveal_strlit("exit_isolation");
    let a = "enter_isolation"@;
    let b = "begin_reconnect"@;
    assert("reduce_load"@.len() == 11);
    assert("increase_load"@.len() == 13 && "exit_degraded"@.len() == 13);
    assert("increase_load"@[0] == 'i' && "exit_degraded"@[0] == 'e');
    assert("enter_degraded"@.len() == 14 && "exit_isolation"@.len() == 14);
    assert("enter_degraded"@[1] == 'n' && "exit_isolation"@[1] == 'x');
    assert(a.len() == 15 && b.len() == 15 && a[0] == 'e' && b[0] == 'b');
}

/// In the last step of a tick every node follows what its own model has answered, as far as it has asked, and the model of no
/// other.
pub proof fn law_answers_are_followed(
    w: World,
    askings: Seq<Asking>,
    predictions: Seq<Result<AIOutput, String>>,
    recorded_at: u64,
    i: int,
)
    requires
        w.net.wired(),
        0 <= i < w.net.nodes.len(),
    ensures
        ({
            let node = w.net.nodes[i];
            let after = w.resumed(askings, predictions, recorded_at).net.nodes[i];
            let ended = node.resumed(askings[i], recommendation(node.ai, predictions[i]), w.net.tick, recorded_at);
            after == NodeView { pending_lifecycle: seq![], pending_ai_decisions: seq![], ..ended }
        }),
{
    reveal(World::resumed);
    let resumed = World { net: w.net.resumed(askings, predictions, recorded_at), ..w };
    assert forall|k: int| 0 <= k < w.net.nodes.len() implies (#[trigger] w.net.nodes[k]).id == resumed.net.nodes[k].id
        && w.net.nodes[k].config == resumed.net.nodes[k].config by {
        w.net.nodes[k].lemma_resumed_keeps(
            askings[k],
            recommendation(w.net.nodes[k].ai, predictions[k]),
            w.net.tick,
            recorded_at,
        );
    }
    lemma_still_sound(w.net, resumed.net);
    lemma_all_decisions_logged(resumed);
    let logged = resumed.all_decisions_logged();
    lemma_answers_logged(logged, logged.net.nodes.len());
    let after = logged.answers_logged(logged.net.nodes.len());
    assert(logged.net.nodes[i] == resumed.net.nodes[i].without_lifecycle());
    assert(after.net.nodes[i] == logged.net.nodes[i].without_answers());
}

/// When the nodes have told their news and the handshakes had their turn, a node that was not on its way back is as it was,
/// but has nothing left to tell. One that was on its way back has arrived where enough of its neighbours let it in and it
/// is no threat, and where they do not, it has been turned away.
pub proof fn law_news_and_handshakes(w: World, recorded_at: u64, i: int)
    requires
        w.net.wired(),
        w.net.ids().no_duplicates(),
        0 <= i < w.net.nodes.len(),
        w.net.nodes[i].reconnect matches Some(r) ==> r.confirmed_by.finite(),
    ensures
        ({
            let told = w.all_advised(recorded_at).net;
            let node = told.nodes[i];
            let after = w.settled(recorded_at).net.nodes[i];
            let sec = node.config.security;
            let threat = sec.threat_score_isolation.at_most(node.state.last_threat_score) || node.state.failed_auth_count
                > sec.max_failed_auth;
            let enough = (exists|j: int| #[trigger] welcomes(told, j, i)) && node.reconnect is Some && 3 * supporters(
                told,
                i,
            ).len() >= 2 * neighbors_counted(node);
            &&& node.state == StateView { pending_load_signal: None, ..w.net.nodes[i].state }
            &&& node.state.mode != Mode::Reconnecting ==> after.state == node.state && after.neighbor_signals
                == node.neighbor_signals && after.neighbor_history == node.neighbor_history
            &&& node.state.mode == Mode::Reconnecting && enough ==> after.reconnect is None && after.state.mode == if threat {
                Mode::Reconnecting
            } else {
                Mode::Normal
            }
            &&& node.state.mode == Mode::Reconnecting && !enough ==> after.state == node.turned_away(
                w.net.tick,
                recorded_at,
            ).state && after.reconnect == node.turned_away(w.net.tick, recorded_at).reconnect
        }),
{
    reveal(World::settled);
    let before = World { net: w.net.all_told(), ..w };
    assert(same_nodes(w.net, before.net));
    lemma_still_sound(w.net, before.net);
    lemma_advised_kin(before, w.net.advices(), recorded_at, w.net.nodes.len());
    let advised = w.all_advised(recorded_at);
    lemma_kin_sound(before.net, advised.net);
    assert(before.net.ids() =~= w.net.ids());
    law_advice_goes_along_active_links(w, recorded_at, i, i);
    law_handshake(advised, recorded_at, i);
    lemma_handshaken(advised, recorded_at);
    let shaken = advised.handshaken(recorded_at);
    lemma_still_sound(advised.net, shaken.net);
    lemma_all_decisions_logged(shaken);
    assert(shaken.all_decisions_logged().net.nodes[i] == shaken.net.nodes[i].without_lifecycle());
}

/// Nothing of the nodes differs in the end but what the scenarios do, what they know of each other's links, and their
/// attempts at bridges.
proof fn lemma_closed_nodes(w: World, recorded_at: u64, i: int)
    requires
        w.net.wired(),
        0 <= i < w.net.nodes.len(),
    ensures
        ({
            let hit = w.net.synced().affected();
            let after = w.closed(recorded_at).net;
            &&& after.nodes.len() == w.net.nodes.len()
            &&& hit.nodes.len() == w.net.nodes.len()
            &&& after.nodes[i].state == hit.nodes[i].state
            &&& after.nodes[i].id == w.net.nodes[i].id
            &&& hit.nodes[i].id == w.net.nodes[i].id
            &&& after.partitioned_nodes == hit.partitioned_nodes
            &&& after.active_effects == hit.active_effects
            &&& after.tick == w.net.tick
            &&& hit.tick == w.net.tick
            &&& after.recovered_at_tick == hit.synced().marked(w.net.cut_ids(w.net.nodes.len())).recovered_at_tick
            &&& after.nodes[i].topology_map == w.net.maintained().nodes[i].topology_map
            &&& w.net.maintained().nodes.len() == w.net.nodes.len()
            &&& w.net.maintained().wired()
            &&& hit.synced().marked(w.net.cut_ids(w.net.nodes.len())).cleaned().wired()
        }),
{
    reveal(World::closed);
    let a = w.net.synced();
    lemma_maintained(w.net);
    assert(a.wired()) by {
        assert forall|k: int| 0 <= k < a.links.len() implies (#[trigger] a.links[k]).from < a.nodes.len() && a.links[k].to
            < a.nodes.len() by {
            assert(w.net.links[k].from < w.net.nodes.len());
        }
    }
    let idle = NetworkView { active_effects: seq![], ..a };
    lemma_advanced(idle, a.active_effects, a.active_effects.len());
    let b = a.affected();
    assert(same_nodes(idle, b));
    assert(b.nodes[i].id == idle.nodes[i].id) by {
        assert(idle.nodes[i].id == b.nodes[i].id);
    }
    lemma_still_sound(a, b);
    let c = b.synced();
    assert(c.wired()) by {
        assert forall|k: int| 0 <= k < c.links.len() implies (#[trigger] c.links[k]).from < c.nodes.len() && c.links[k].to
            < c.nodes.len() by {
            assert(b.links[k].from < b.nodes.len());
        }
    }
    let d = c.marked(w.net.cut_ids(w.net.nodes.len()));
    let e = d.cleaned();
    let p = |l: Link| !d.redundant(l);
    assert(e.wired()) by {
        assert forall|k: int| 0 <= k < e.links.len() implies (#[trigger] e.links[k]).from < e.nodes.len() && e.links[k].to
            < e.nodes.len() by {
            let l = e.links[k];
            assert(d.links.filter(p).contains(l));
            lemma_filter_from(d.links, p, l);
            let j = d.links.index_of(l);
            assert(c.links[j] == l);
        }
    }
    law_flood_changes_no_state(e);
    let f = e.flooded();
    lemma_kin_sound(e, f);
    assert(f.nodes[i].state == e.nodes[i].state);
    let maintained = World { net: f, ..w };
    lemma_healed_keeps(maintained, recorded_at);
    let healed = maintained.healed(recorded_at).net;
    assert(healed.with_links(f.links).nodes[i] == (NodeView {
        virtual_bridge_attempts: healed.nodes[i].virtual_bridge_attempts,
        ..f.nodes[i]
    }));
}

/// At the end of a tick every scenario that has ticks left goes on with one less, in the same order, and those that have
/// none are over. Where none is at work, nobody's state changes in this, and nobody is cut off by a scenario or joined
/// again.
pub proof fn law_scenarios_go_on(w: World, recorded_at: u64, i: int)
    requires
        w.net.wired(),
        0 <= i < w.net.nodes.len(),
    ensures
        ({
            let after = w.closed(recorded_at).net;
            &&& after.active_effects.map_values(|e: EffectView| plan_of(e)) == w.net.active_effects.filter(
                |e: EffectView| e.ticks_remaining > 0,
            ).map_values(|e: EffectView| plan_of(aged(e)))
            &&& w.net.active_effects.len() == 0 ==> after.nodes[i].state == w.net.nodes[i].state && after.partitioned_nodes
                == w.net.partitioned_nodes
        }),
{
    lemma_closed_nodes(w, recorded_at, i);
    let a = w.net.synced();
    let idle = NetworkView { active_effects: seq![], ..a };
    let effects = w.net.active_effects;
    law_effects_keep_order(idle, effects, effects.len());
    assert(effects.take(effects.len() as int) =~= effects);
}

/// At the end of a tick it is noted of each node that was cut off before and is not so any more that it is back in this
/// tick; of all others it stays noted when they last came back.
pub proof fn law_returns_are_noted(w: World, recorded_at: u64, i: int)
    requires
        w.net.wired(),
        w.net.ids().no_duplicates(),
        0 <= i < w.net.nodes.len(),
    ensures
        ({
            let after = w.closed(recorded_at).net;
            let id = w.net.nodes[i].id;
            &&& w.net.cut(i) && !after.cut(i) ==> after.recovered_at_tick.contains_key(id) && after.recovered_at_tick[id]
                == w.net.tick
            &&& !w.net.cut(i) || after.cut(i) ==> after.recovered_at_tick.contains_key(id)
                == w.net.recovered_at_tick.contains_key(id) && after.recovered_at_tick[id] == w.net.recovered_at_tick[id]
        }),
{
    lemma_closed_nodes(w, recorded_at, i);
    let hit = w.net.synced().affected();
    let n = w.net.nodes.len();
    let cut = w.net.cut_ids(n);
    let id = w.net.nodes[i].id;
    law_cut_ids(w.net, n, id);
    if exists|k: int| 0 <= k < n && (#[trigger] w.net.nodes[k]).id == id && w.net.cut(k) {
        let k = choose|k: int| 0 <= k < n && (#[trigger] w.net.nodes[k]).id == id && w.net.cut(k);
        assert(w.net.ids()[k] == w.net.ids()[i]);
    }
    assert(cut.contains(id) <==> w.net.cut(i));
    assert(hit.synced().ids() =~= w.net.ids()) by {
        assert forall|k: int| 0 <= k < n implies hit.synced().ids()[k] == w.net.ids()[k] by {
            lemma_closed_nodes(w, recorded_at, k);
        }
    }
    law_recovery_noted(hit.synced(), cut, i);
    let idle = NetworkView { active_effects: seq![], ..w.net.synced() };
    lemma_noted_before(idle, w.net.active_effects, w.net.active_effects.len());
}

/// Scenarios do not note who is back.
proof fn lemma_noted_before(net: NetworkView, effects: Seq<EffectView>, n: nat)
    ensures
        advanced(net, effects, n).0.recovered_at_tick == net.recovered_at_tick,
    decreases n,
{
    if n > 0 {
        lemma_noted_before(net, effects, (n - 1) as nat);
        let before = advanced(net, effects, (n - 1) as nat).0;
        let e = effects[n - 1];
        lemma_noted_repeated(before, e, e.target_node_indices.len());
    }
}

proof fn lemma_noted_repeated(net: NetworkView, e: EffectView, n: nat)
    ensures
        repeated(net, e, n).0.recovered_at_tick == net.recovered_at_tick,
    decreases n,
{
    if n > 0 {
        lemma_noted_repeated(net, e, (n - 1) as nat);
    }
}

/// At the end of a tick the nodes at both ends of a physical link, if neither is cut off, have told each other of their links
/// in this tick.
pub proof fn law_links_are_announced(w: World, recorded_at: u64, l: Link)
    requires
        w.net.wired(),
        w.net.links.contains(l),
        !l.virtual_link,
    ensures
        ({
            let after = w.closed(recorded_at).net;
            let id = w.net.nodes[l.from as int].id;
            !after.cut(l.from as int) && !after.cut(l.to as int) ==> {
                &&& after.nodes[l.to as int].topology_map.snapshots.contains_key(id)
                &&& after.nodes[l.to as int].topology_map.snapshots[id].timestamp >= w.net.tick
            }
        }),
{
    let k = w.net.links.index_of(l);
    let a = l.from as int;
    let b = l.to as int;
    assert(w.net.links[k].from < w.net.nodes.len() && w.net.links[k].to < w.net.nodes.len());
    lemma_closed_nodes(w, recorded_at, a);
    lemma_closed_nodes(w, recorded_at, b);
    let after = w.closed(recorded_at).net;
    let hit = w.net.synced().affected();
    let d = hit.synced().marked(w.net.cut_ids(w.net.nodes.len()));
    let e = d.cleaned();
    if !after.cut(a) && !after.cut(b) {
        assert(!hit.cut(a) && !hit.cut(b));
        let idle = NetworkView { active_effects: seq![], ..w.net.synced() };
        lemma_links_kept(idle, w.net.active_effects, w.net.active_effects.len());
        assert(w.net.synced().links[k] == w.net.synced_link(l));
        let m = hit.synced().links[k];
        assert(m.from == l.from && m.to == l.to && !m.virtual_link && m.active);
        assert(d.links.contains(m));
        lemma_filter_keeps(d.links, |l: Link| !d.redundant(l), m);
        assert(e.links.contains(m));
        law_flood_reaches_neighbors(e, m);
    }
}

/// Scenarios leave the links alone.
proof fn lemma_links_kept(net: NetworkView, effects: Seq<EffectView>, n: nat)
    ensures
        advanced(net, effects, n).0.links == net.links,
    decreases n,
{
    if n > 0 {
        lemma_links_kept(net, effects, (n - 1) as nat);
        let before = advanced(net, effects, (n - 1) as nat).0;
        let e = effects[n - 1];
        lemma_links_repeated(before, e, e.target_node_indices.len());
    }
}

proof fn lemma_links_repeated(net: NetworkView, e: EffectView, n: nat)
    ensures
        repeated(net, e, n).0.links == net.links,
    decreases n,
{
    if n > 0 {
        lemma_links_repeated(net, e, (n - 1) as nat);
    }
}

/// What the first `n` nodes have to log of their models' answers.
pub open spec fn answers_of(net: NetworkView, n: nat) -> Seq<AiDecisionView>
    decreases n,
{
    if n == 0 {
        seq![]
    } else {
        answers_of(net, (n - 1) as nat) + net.nodes[n - 1].pending_ai_decisions
    }
}

/// Each answer of a model in a tick is put into its log once, in the order of the nodes, and into no other; it is then off the
/// node.
pub proof fn law_answers_are_logged_once(w: World, n: nat)
    requires
        n <= w.net.nodes.len(),
    ensures
        ({
            let after = w.answers_logged(n);
            &&& after.log == JournalView { ai_decisions: after.log.ai_decisions, ..w.log }
            &&& after.log.ai_decisions.unwritten() == w.log.ai_decisions.unwritten() + answers_of(w.net, n)
            &&& after.net == NetworkView { nodes: after.net.nodes, ..w.net }
            &&& after.net.nodes.len() == w.net.nodes.len()
            &&& forall|k: int|
                0 <= k < n ==> #[trigger] after.net.nodes[k] == (NodeView { pending_ai_decisions: seq![], ..w.net.nodes[k] })
        }),
    decreases n,
{
    if n > 0 {
        let m = (n - 1) as nat;
        law_answers_are_logged_once(w, m);
        let before = w.answers_logged(m);
        let after = w.answers_logged(n);
        let entries = w.net.nodes[n - 1].pending_ai_decisions;
        law_pushed_is_handed_over(before.log.ai_decisions, entries, w.net.tick, entries.len());
        assert(entries.take(entries.len() as int) =~= entries);
        assert((w.log.ai_decisions.unwritten() + answers_of(w.net, m)) + entries =~= w.log.ai_decisions.unwritten()
            + answers_of(w.net, n));
        assert forall|k: int| 0 <= k < n implies #[trigger] after.net.nodes[k] == (NodeView {
            pending_ai_decisions: seq![],
            ..w.net.nodes[k]
        }) by {
            if k < m {
                assert(before.net.nodes[k] == (NodeView { pending_ai_decisions: seq![], ..w.net.nodes[k] }));
            }
        }
    } else {
        assert(w.log.ai_decisions.unwritten() + answers_of(w.net, 0) =~= w.log.ai_decisions.unwritten());
    }
}

} // verus!
