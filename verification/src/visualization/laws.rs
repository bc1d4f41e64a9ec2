//! What holds of what a viewer is shown, and of what it can ask for.

use vstd::arithmetic::power2::pow2;
use vstd::prelude::*;
use vstd::string::*;

use crate::lists::lemma_filtered;
use crate::network::topology_map::Link;
use crate::network::NetworkView;
use crate::node::signals::{all_of, fresh, fresh_of, law_all_of, law_newest, newest, sources, total};
use crate::node::{Mode, NodeView, SignalView};
use crate::persistence::LifecycleView;
use crate::scenarios::{EffectKind, ScenarioTarget};
use crate::single::{law_average_of_bytes, law_rounded_in_order, law_share_above, law_whole_exact, magnitude, Single, INFINITY};
use crate::text::{decimal, digit_text};
use crate::verdicts::{holds, law_starving, lemma_total_most};
use crate::visualization::command::{
    digit, digits, granted, number, pieces, refusal_of, stands_for, Command, Duration, Refusal, ScenarioRequest,
};
use crate::visualization::{law_no_line_lost, load_sum, shown, signals_held, VisualEdge};

verus! {

/// The parts with the separator between them.
pub open spec fn glued(parts: Seq<Seq<char>>, separator: char) -> Seq<char>
    decreases parts.len(),
{
    if parts.len() == 0 {
        seq![]
    } else if parts.len() == 1 {
        parts[0]
    } else {
        glued(parts.drop_last(), separator).push(separator) + parts.last()
    }
}

/// None of the parts has the separator in it.
pub open spec fn plain(parts: Seq<Seq<char>>, separator: char) -> bool {
    forall|i: int| 0 <= i < parts.len() ==> !(#[trigger] parts[i]).contains(separator)
}

/// A text that is put together of parts is taken apart into the same parts.
pub proof fn law_parts_come_back(parts: Seq<Seq<char>>, separator: char)
    requires
        parts.len() > 0,
        plain(parts, separator),
    ensures
        pieces(glued(parts, separator), separator) == parts,
    decreases parts.len(),
{
    let last = parts.last();
    assert(!parts[parts.len() - 1].contains(separator));
    if parts.len() == 1 {
        lemma_pieces_grow(seq![], last, separator, last.len());
        assert(seq![] + last =~= last);
        assert(last.take(last.len() as int) =~= last);
        assert(pieces(last, separator) =~= parts);
    } else {
        let rest = parts.drop_last();
        assert(plain(rest, separator)) by {
            assert forall|i: int| 0 <= i < rest.len() implies !(#[trigger] rest[i]).contains(separator) by {
                assert(rest[i] == parts[i]);
            }
        }
        law_parts_come_back(rest, separator);
        let before = glued(rest, separator).push(separator);
        assert(before.drop_last() =~= glued(rest, separator));
        assert(pieces(before, separator) == rest.push(seq![]));
        lemma_pieces_grow(before, last, separator, last.len());
        assert(last.take(last.len() as int) =~= last);
        assert(rest.push(seq![]).drop_last() =~= rest);
        assert(Seq::<char>::empty() + last =~= last);
        assert(rest.push(last) =~= parts);
    }
}

/// More text without a separator makes the last piece longer.
proof fn lemma_pieces_grow(s: Seq<char>, t: Seq<char>, separator: char, n: nat)
    requires
        n <= t.len(),
        !t.contains(separator),
    ensures
        pieces(s, separator).len() > 0,
        pieces(s + t.take(n as int), separator) == pieces(s, separator).drop_last().push(
            pieces(s, separator).last() + t.take(n as int),
        ),
    decreases n,
{
    lemma_pieces_some(s, separator);
    let p = pieces(s, separator);
    if n == 0 {
        assert(s + t.take(0) =~= s);
        assert(p.last() + t.take(0) =~= p.last());
        assert(p.drop_last().push(p.last()) =~= p);
    } else {
        let m = (n - 1) as nat;
        lemma_pieces_grow(s, t, separator, m);
        let c = t[n - 1];
        assert(t.contains(c));
        let before = s + t.take(m as int);
        let after = s + t.take(n as int);
        assert(after =~= before.push(c));
        assert(after.drop_last() =~= before);
        let q = pieces(before, separator);
        assert(q.last() == p.last() + t.take(m as int));
        assert(q.drop_last() =~= p.drop_last());
        assert((p.last() + t.take(m as int)).push(c) =~= p.last() + t.take(n as int));
    }
}

proof fn lemma_pieces_some(s: Seq<char>, separator: char)
    ensures
        pieces(s, separator).len() > 0,
    decreases s.len(),
{
    if s.len() > 0 {
        lemma_pieces_some(s.drop_last(), separator);
    }
}

/// The text of a digit is one character, and stands for the digit.
proof fn lemma_digit(d: nat)
    requires
        d < 10,
    ensures
        digit_text(d).len() == 1,
        digit(digit_text(d)[0]) == Some(d),
        digit_text(d)[0] != ':',
        digit_text(d)[0] != '+',
{
    reveal_strlit("0");
    reveal_strlit("1");
    reveal_strlit("2");
    reveal_strlit("3");
    reveal_strlit("4");
    reveal_strlit("5");
    reveal_strlit("6");
    reveal_strlit("7");
    reveal_strlit("8");
    reveal_strlit("9");
}

/// A number that is written in decimal is read back, and nothing but digits is in its text.
pub proof fn law_number_read_back(n: nat, most: nat)
    ensures
        digits(decimal(n)) == Some(n),
        number(decimal(n), most) == if n <= most { Some(n) } else { None },
        decimal(n).len() > 0,
        !decimal(n).contains(':'),
        !decimal(n).contains('+'),
    decreases n,
{
    let d = digit_text(n % 10);
    lemma_digit(n % 10);
    if n < 10 {
        assert(decimal(n) == d);
        assert(d.drop_last() =~= seq![]);
        assert(digits(d.drop_last()) == Some(0nat));
        assert(d.last() == d[0]);
        assert(digits(d) == Some(n));
    } else {
        law_number_read_back(n / 10, most);
        let s = decimal(n / 10) + d;
        assert(decimal(n) == s);
        assert(s.drop_last() =~= decimal(n / 10));
        assert(s.last() == d[0]);
        assert(digits(s) == Some(10 * (n / 10) + n % 10));
        if s.contains(':') {
            let i = s.index_of(':');
            if i < decimal(n / 10).len() {
                assert(decimal(n / 10)[i] == ':');
            }
        }
        if s.contains('+') {
            let i = s.index_of('+');
            if i < decimal(n / 10).len() {
                assert(decimal(n / 10)[i] == '+');
            }
        }
    }
    let s = decimal(n);
    assert(s.contains(s[0]));
}

/// A request for a scenario that is written as its parts with colons between them is read as what it says: the name, the
/// kind of target with its id, and the ticks that it is to last.
pub proof fn law_request_read(name: Seq<char>, kind: Seq<char>, id: u32, ticks: u64, text: Seq<char>, command: Command)
    requires
        !name.contains(':'),
        !kind.contains(':'),
        text == glued(seq!["scenario"@, name, kind, decimal(id as nat), decimal(ticks as nat)], ':'),
        stands_for(text, command),
    ensures
        command is Scenario,
        command->Scenario_0.name@ == name,
        command->Scenario_0.duration == Duration::Ticks(ticks),
        kind == "ById"@ ==> command->Scenario_0.target == ScenarioTarget::ById(id),
        kind == "Random"@ ==> command->Scenario_0.target == (ScenarioTarget::Random { count: 1 }),
        kind != "ById"@ && kind != "Random"@ ==> command->Scenario_0.target is All,
{
    let parts = seq!["scenario"@, name, kind, decimal(id as nat), decimal(ticks as nat)];
    reveal_strlit("scenario");
    reveal_strlit("Random");
    reveal_strlit("ById");
    assert("Random"@.len() == 6 && "ById"@.len() == 4);
    law_number_read_back(id as nat, u32::MAX as nat);
    law_number_read_back(ticks as nat, u64::MAX as nat);
    assert(!parts[0].contains(':')) by {
        let s = "scenario"@;
        assert forall|i: int| 0 <= i < s.len() implies s[i] != ':' by {}
    }
    assert(plain(parts, ':'));
    law_parts_come_back(parts, ':');
    lemma_not_a_word(parts, text);
}

/// A text with a separator in it is none of the single words.
proof fn lemma_not_a_word(parts: Seq<Seq<char>>, text: Seq<char>)
    requires
        parts.len() == 5,
        text == glued(parts, ':'),
    ensures
        text != "run"@,
        text != "stop"@,
        text != "restart"@,
{
    reveal_strlit("run");
    reveal_strlit("stop");
    reveal_strlit("restart");
    let before = glued(parts.drop_last(), ':').push(':');
    let i = before.len() - 1;
    assert(text == before + parts.last());
    assert(text[i] == ':');
}

/// The single words are read as what they say, and a text that starts with none of the words and is no request is passed
/// over.
pub proof fn law_words_read(command: Command)
    ensures
        stands_for("run"@, command) <==> command is Run,
        stands_for("stop"@, command) <==> command is Stop,
        stands_for("restart"@, command) <==> command is Restart,
{
    reveal_strlit("run");
    reveal_strlit("stop");
    reveal_strlit("restart");
    assert("run"@.len() != "stop"@.len());
    assert("run"@.len() != "restart"@.len());
    assert("stop"@.len() != "restart"@.len());
}

/// The name is one of a scenario.
pub open spec fn known_name(name: Seq<char>) -> bool {
    name == "ddos"@ || name == "underscale"@ || name == "brute_force"@ || name == "ai_crash"@ || name == "node_infection"@
        || name == "network_partition"@
}

/// A scenario is granted exactly where there is one of the name, and it is to last one tick at least and no longer than the
/// simulation, or as long as usual. It is then the scenario of that name, on the target that is asked for, for the ticks
/// that are asked for; as usual means 10 ticks for the brute force and the partition, and 20 for the others.
pub proof fn law_scenario_granted(request: ScenarioRequest, remaining: u64)
    ensures
        granted(request, remaining) is Some <==> known_name(request.name@) && match request.duration {
            Duration::Usual => true,
            Duration::Ticks(ticks) => 1 <= ticks <= remaining,
            Duration::Unreadable(_) => false,
        },
        granted(request, remaining) matches Some(s) ==> {
            &&& s.name == request.name@
            &&& s.target == request.target
            &&& request.duration matches Duration::Ticks(ticks) ==> s.effect == (EffectKind::Sustained {
                duration_ticks: ticks,
                revert_on_expire: true,
            })
            &&& request.duration is Usual && (s.name == "brute_force"@ || s.name == "network_partition"@) ==> s.effect
                == (EffectKind::Sustained { duration_ticks: 10, revert_on_expire: true })
            &&& request.duration is Usual && (s.name == "ddos"@ || s.name == "underscale"@ || s.name == "ai_crash"@ || s.name
                == "node_infection"@) ==> s.effect == (EffectKind::Sustained { duration_ticks: 20, revert_on_expire: true })
            &&& s.cuts_links <==> s.name == "network_partition"@
        },
{
    lemma_names_differ();
}

/// Why a scenario is refused: because its duration cannot be read, lies out of range, or because there is none of the name.
pub proof fn law_scenario_refused(request: ScenarioRequest, remaining: u64)
    requires
        granted(request, remaining) is None,
    ensures
        request.duration matches Duration::Unreadable(raw) ==> refusal_of(request, remaining) == Refusal::Unreadable(raw),
        request.duration matches Duration::Ticks(ticks) ==> (ticks == 0 || ticks > remaining) ==> refusal_of(
            request,
            remaining,
        ) == (Refusal::OutOfRange { ticks, remaining }),
        request.duration matches Duration::Ticks(ticks) ==> 1 <= ticks <= remaining ==> !known_name(request.name@)
            && refusal_of(request, remaining) == Refusal::Unknown(request.name),
        request.duration is Usual ==> !known_name(request.name@) && refusal_of(request, remaining) == Refusal::Unknown(
            request.name,
        ),
{
}

proof fn lemma_names_differ()
    ensures
        "brute_force"@ != "ddos"@,
        "brute_force"@ != "underscale"@,
        "brute_force"@ != "ai_crash"@,
        "brute_force"@ != "node_infection"@,
        "network_partition"@ != "ddos"@,
        "network_partition"@ != "underscale"@,
        "network_partition"@ != "ai_crash"@,
        "network_partition"@ != "node_infection"@,
        "network_partition"@ != "brute_force"@,
{
    reveal_strlit("ddos");
    reveal_strlit("underscale");
    reveal_strlit("brute_force");
    reveal_strlit("ai_crash");
    reveal_strlit("node_infection");
    reveal_strlit("network_partition");
    assert("brute_force"@.len() == 11);
    assert("network_partition"@.len() == 17);
    assert("ddos"@.len() == 4);
    assert("underscale"@.len() == 10);
    assert("ai_crash"@.len() == 8);
    assert("node_infection"@.len() == 14);
}

/// A viewer is shown every node as it is, with what it last proposed and by how many it is accused in this tick.
pub proof fn law_nodes_shown(net: NetworkView, since_tick: u64, i: int)
    requires
        0 <= i < net.nodes.len(),
    ensures
        ({
            let node = net.nodes[i];
            let v = shown(net, since_tick).nodes[i];
            &&& shown(net, since_tick).nodes.len() == net.nodes.len()
            &&& v.id == node.id
            &&& v.mode == node.state.mode.text()
            &&& v.load == node.state.load
            &&& v.failed_auth_count == node.state.failed_auth_count
            &&& v.active_connections == node.state.active_connections
            &&& v.ai_state_reason == node.state.ai_state_reason
            &&& node.last_proposal matches Some(p) ==> v.threat == p.threat_score && v.confidence == p.confidence
                && v.predicted_state == p.predicted_state
            &&& node.last_proposal is None ==> v.threat == (Single { bits: 0 }) && v.confidence == (Single { bits: 0 })
                && v.predicted_state.len() == 0
            &&& v.peer_suspicion_votes == node.accusers(net.tick).len() as usize
            &&& shown(net, since_tick).tick == net.tick
            &&& shown(net, since_tick).max_ticks == net.max_ticks
            &&& shown(net, since_tick).finished == net.finished
        }),
{
}

/// A viewer is shown exactly the active links, one edge for each of them, from the id at its one end to the id at its other.
pub proof fn law_edges_shown(net: NetworkView, since_tick: u64, e: VisualEdge)
    ensures
        shown(net, since_tick).edges.len() == net.links.filter(|l: Link| l.active).len(),
        shown(net, since_tick).edges.contains(e) <==> exists|i: int|
            0 <= i < net.links.len() && (#[trigger] net.links[i]).active && net.nodes[net.links[i].from as int].id == e.source
                && net.nodes[net.links[i].to as int].id == e.target && net.links[i].virtual_link == e.virtual_link,
{
    let keep = |l: Link| l.active;
    let open = net.links.filter(keep);
    let edges = shown(net, since_tick).edges;
    if edges.contains(e) {
        let k = edges.index_of(e);
        assert(open.contains(open[k]));
        lemma_filtered(net.links, keep, open[k]);
        let i = net.links.index_of(open[k]);
        assert(net.links[i].active);
    }
    if exists|i: int|
        0 <= i < net.links.len() && (#[trigger] net.links[i]).active && net.nodes[net.links[i].from as int].id == e.source
            && net.nodes[net.links[i].to as int].id == e.target && net.links[i].virtual_link == e.virtual_link {
        let i = choose|i: int|
            0 <= i < net.links.len() && (#[trigger] net.links[i]).active && net.nodes[net.links[i].from as int].id == e.source
                && net.nodes[net.links[i].to as int].id == e.target && net.links[i].virtual_link == e.virtual_link;
        assert(net.links.contains(net.links[i]));
        lemma_filtered(net.links, keep, net.links[i]);
        let k = open.index_of(net.links[i]);
        assert(edges[k] == e);
    }
}

proof fn lemma_load_sum(nodes: Seq<NodeView>, n: nat)
    requires
        n <= nodes.len(),
    ensures
        load_sum(nodes, n) <= n * 255,
    decreases n,
{
    if n > 0 {
        lemma_load_sum(nodes, (n - 1) as nat);
    }
}

/// The average load that a viewer is shown is a whole number next to the true average of the nodes' loads, and the true one
/// where that is whole; it is zero where there are no nodes.
pub proof fn law_average_shown(net: NetworkView, since_tick: u64, l: nat)
    requires
        net.nodes.len() <= 0xffff,
        l < 255,
    ensures
        ({
            let n = net.nodes.len();
            let sum = load_sum(net.nodes, n);
            let v = shown(net, since_tick).network_avg_load;
            &&& n == 0 ==> v == 0
            &&& n > 0 && n * l <= sum <= n * (l + 1) ==> v == l || v == l + 1
            &&& n > 0 && sum == n * l ==> v == l
        }),
{
    let n = net.nodes.len();
    let sum = load_sum(net.nodes, n);
    lemma_load_sum(net.nodes, n);
    if n > 0 {
        let q = Single::whole(sum).quotient(Single::whole(n));
        law_average_of_bytes(sum, n, l);
        law_average_of_bytes(sum, n, l + 1);
        law_share_above(sum, n, 0);
        law_whole_exact(l);
        law_whole_exact(l + 1);
        if n * l <= sum <= n * (l + 1) {
            assert(Single::whole(l).at_most(q));
            assert(q.at_most(Single::whole(l + 1)));
            law_rounded_in_order(Single::whole(l), q);
            law_rounded_in_order(q, Single::whole(l + 1));
        }
        if sum == n * l {
            assert(q.at_most(Single::whole(l)));
            law_rounded_in_order(q, Single::whole(l));
            assert(n * l <= n * (l + 1)) by (nonlinear_arith);
            assert(Single::whole(l).at_most(q));
            law_rounded_in_order(Single::whole(l), q);
        }
    }
}

/// The sum of loads is that of one node more.
pub proof fn law_load_sum(nodes: Seq<NodeView>, node: NodeView)
    ensures
        load_sum(nodes.push(node), nodes.len() + 1) == load_sum(nodes, nodes.len()) + node.state.load,
        load_sum(Seq::empty(), 0) == 0,
{
    lemma_load_prefix(nodes, node, nodes.len());
}

proof fn lemma_load_prefix(nodes: Seq<NodeView>, node: NodeView, n: nat)
    requires
        n <= nodes.len(),
    ensures
        load_sum(nodes.push(node), n) == load_sum(nodes, n),
    decreases n,
{
    if n > 0 {
        lemma_load_prefix(nodes, node, (n - 1) as nat);
    }
}

/// A viewer is shown one line for each of the last decisions that it has not seen, in their order: of the tick, the node,
/// the action, whether it was allowed, and why.
pub proof fn law_lines_shown(net: NetworkView, since_tick: u64, k: int)
    requires
        forall|i: int, j: int|
            0 <= i <= j < net.recent_lifecycle.len() ==> (#[trigger] net.recent_lifecycle[i]).tick
                <= (#[trigger] net.recent_lifecycle[j]).tick,
        0 <= k < net.recent_lifecycle.filter(|e: LifecycleView| e.tick > since_tick).len(),
    ensures
        ({
            let new = net.recent_lifecycle.filter(|e: LifecycleView| e.tick > since_tick);
            let e = new[k];
            &&& shown(net, since_tick).logs.len() == new.len()
            &&& shown(net, since_tick).logs[k] == "[T"@ + decimal(e.tick as nat) + "] Node "@ + decimal(e.node_id as nat)
                + ": "@ + e.proposal_action + " -> "@ + (if e.allowed { "true"@ } else { "false"@ }) + " ("@
                + e.supervisor_reason + ")"@
        }),
{
    law_no_line_lost(net.recent_lifecycle, since_tick);
}

/// Some node holds the signal, and it is not stale.
pub open spec fn held_by_any(net: NetworkView, x: SignalView) -> bool {
    exists|i: int|
        0 <= i < net.nodes.len() && holds(
            (#[trigger] net.nodes[i]).neighbor_signals,
            x,
            net.tick,
            net.config.security.stale_ttl,
        )
}

proof fn lemma_signals_held(nodes: Seq<NodeView>, n: nat, x: SignalView)
    requires
        n <= nodes.len(),
    ensures
        signals_held(nodes, n).contains(x) <==> exists|i: int|
            0 <= i < n && all_of((#[trigger] nodes[i]).neighbor_signals).contains(x),
    decreases n,
{
    if n > 0 {
        let m = (n - 1) as nat;
        lemma_signals_held(nodes, m, x);
        let past = signals_held(nodes, m);
        let more = all_of(nodes[n - 1].neighbor_signals);
        let all = past + more;
        if all.contains(x) {
            let k = all.index_of(x);
            if k < past.len() {
                assert(past[k] == x);
                let i = choose|i: int| 0 <= i < m && all_of((#[trigger] nodes[i]).neighbor_signals).contains(x);
                assert(all_of(nodes[i].neighbor_signals).contains(x));
            } else {
                assert(more[k - past.len()] == x);
                assert(all_of(nodes[n - 1].neighbor_signals).contains(x));
            }
        }
        if exists|i: int| 0 <= i < n && all_of((#[trigger] nodes[i]).neighbor_signals).contains(x) {
            let i = choose|i: int| 0 <= i < n && all_of((#[trigger] nodes[i]).neighbor_signals).contains(x);
            if i < m {
                assert(past.contains(x));
                assert(all[past.index_of(x)] == x);
            } else {
                assert(all[past.len() + more.index_of(x)] == x);
            }
        }
    }
}

/// The last words in the network are those of every node that any node holds a signal of that is not stale, each once and in
/// the order of their ids: the newest such signal.
pub proof fn law_last_words(net: NetworkView)
    ensures
        ({
            let h = net.last_words();
            &&& forall|i: int, j: int| 0 <= i < j < h.len() ==> (#[trigger] h[i]).source_id < (#[trigger] h[j]).source_id
            &&& forall|i: int| 0 <= i < h.len() ==> held_by_any(net, #[trigger] h[i])
            &&& forall|x: SignalView| #[trigger]
                held_by_any(net, x) ==> exists|i: int|
                    0 <= i < h.len() && (#[trigger] h[i]).source_id == x.source_id && x.timestamp <= h[i].timestamp
        }),
{
    let ttl = net.config.security.stale_ttl;
    let all = signals_held(net.nodes, net.nodes.len());
    let p = |x: SignalView| fresh(x, net.tick, ttl);
    let f = fresh_of(all, net.tick, ttl);
    let h = net.last_words();
    let ids = h.map_values(|x: SignalView| x.source_id);
    law_newest(f);
    assert forall|i: int, j: int| 0 <= i < j < h.len() implies (#[trigger] h[i]).source_id < (#[trigger] h[j]).source_id by {
        assert(ids[i] < ids[j]);
    }
    assert forall|i: int| 0 <= i < h.len() implies held_by_any(net, #[trigger] h[i]) by {
        assert(f.contains(newest(f)[i]));
        lemma_filtered(all, p, h[i]);
        lemma_signals_held(net.nodes, net.nodes.len(), h[i]);
        let k = choose|k: int| 0 <= k < net.nodes.len() && all_of((#[trigger] net.nodes[k]).neighbor_signals).contains(h[i]);
        law_all_of(net.nodes[k].neighbor_signals, h[i]);
        assert(holds(net.nodes[k].neighbor_signals, h[i], net.tick, ttl));
    }
    assert forall|x: SignalView| #[trigger] held_by_any(net, x) implies exists|i: int|
        0 <= i < h.len() && (#[trigger] h[i]).source_id == x.source_id && x.timestamp <= h[i].timestamp by {
        let k = choose|k: int|
            0 <= k < net.nodes.len() && holds((#[trigger] net.nodes[k]).neighbor_signals, x, net.tick, ttl);
        law_all_of(net.nodes[k].neighbor_signals, x);
        assert(all_of(net.nodes[k].neighbor_signals).contains(x));
        lemma_signals_held(net.nodes, net.nodes.len(), x);
        lemma_filtered(all, p, x);
        assert(f.contains(x));
        let j = f.index_of(x);
        let senders = f.map_values(|x: SignalView| x.source_id);
        assert(senders[j] == x.source_id);
        assert(sources(f).contains(x.source_id));
        assert(ids.contains(x.source_id));
        let i = ids.index_of(x.source_id);
        assert(newest(f)[i].source_id == x.source_id);
        assert(f[j].timestamp <= newest(f)[i].timestamp);
        assert(h[i].source_id == x.source_id);
    }
}

/// How busy the network is shown to be: by the last words, the load of all of them as a share of what all of them can carry,
/// held against any positive number. It is none where there are no last words. And the network is shown to starve
/// exactly where more than half of the last words tell of a boosted node.
pub proof fn law_utilization_shown(net: NetworkView, since_tick: u64, bits: u32)
    requires
        net.last_words().len() <= 0xffff,
        bits < INFINITY,
    ensures
        ({
            let v = shown(net, since_tick);
            let h = net.last_words();
            let load = total(h, |x: SignalView| x.load as nat);
            let room = h.len() * net.config.load_calibration.boost_ceiling as nat;
            let middle = (magnitude(bits as nat) + magnitude((bits + 1) as nat)) * room;
            &&& room == 0 ==> v.network_utilization == (Single { bits: 0 })
            &&& room > 0 ==> ((Single { bits }).below(v.network_utilization) <==> 2 * load * pow2(149) > middle || (2 * load
                * pow2(149) == middle && bits % 2 == 1))
            &&& v.network_starving <==> 2 * h.filter(|x: SignalView| x.mode == Mode::Boosted).len() > h.len()
        }),
{
    let h = net.last_words();
    let c = net.config.load_calibration.boost_ceiling as nat;
    let f = |x: SignalView| x.load as nat;
    let room = h.len() * c;
    lemma_total_most(h, f, 1, 255);
    assert(room <= 0xffff * 255) by (nonlinear_arith)
        requires room == h.len() * c, h.len() <= 0xffff, c <= 255;
    if room > 0 {
        law_share_above(total(h, f), room, bits);
    }
    law_starving(h);
}

/// A text is read as a number only where it holds a digit, and nothing but digits behind a plus sign, if there is one.
pub proof fn law_only_digits_are_read(s: Seq<char>, most: nat, i: int)
    requires
        number(s, most) is Some,
        0 <= i < s.len(),
    ensures
        s.len() > 0,
        s[i] == '+' ==> i == 0 && s.len() > 1,
        s[i] != '+' ==> '0' <= s[i] && s[i] <= '9',
        number(s, most)->0 <= most,
{
    let row = if s[0] == '+' { s.skip(1) } else { s };
    lemma_all_digits(row);
    if s[0] == '+' && i > 0 {
        assert(row[i - 1] == s[i]);
        assert(digit(row[i - 1]) is Some);
    } else if s[0] != '+' {
        assert(digit(row[i]) is Some);
    }
}

proof fn lemma_all_digits(s: Seq<char>)
    requires
        digits(s) is Some,
    ensures
        forall|i: int| 0 <= i < s.len() ==> digit(#[trigger] s[i]) is Some,
    decreases s.len(),
{
    if s.len() > 0 {
        lemma_all_digits(s.drop_last());
        assert forall|i: int| 0 <= i < s.len() implies digit(#[trigger] s[i]) is Some by {
            if i < s.len() - 1 {
                assert(s.drop_last()[i] == s[i]);
            }
        }
    }
}

/// No number is read from an empty text.
pub proof fn law_nothing_is_no_number(most: nat)
    ensures
        number(Seq::empty(), most) is None,
{
}

} // verus!
