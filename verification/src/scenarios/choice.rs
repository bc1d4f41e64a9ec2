//! Whom each target of a scenario stands for.

use vstd::prelude::*;

use crate::lists::lemma_filtered;
use crate::network::ballots::{lemma_own_position, open_way};
use crate::network::topology_map::Link;
use crate::network::NetworkView;
use crate::node::bridges::{lemma_position_exists, position};
use crate::node::{Mode, NodeView};
use crate::scenarios::actions::escaped;
use crate::scenarios::targets::{at_large, found, ids_next_to, lemma_filter_distinct, resolves};
use crate::scenarios::ScenarioTarget;

verus! {

proof fn lemma_found(ids: Seq<u32>, net: NetworkView, n: nat, i: usize)
    requires
        n <= ids.len(),
        net.nodes.len() <= u32::MAX,
        net.ids().no_duplicates(),
    ensures
        found(ids, net.ids(), n).contains(i) <==> i < net.nodes.len() && ids.take(n as int).contains(net.nodes[i as int].id),
        found(ids, net.ids(), n).len() <= n,
    decreases n,
{
    if n > 0 {
        let m = (n - 1) as nat;
        lemma_found(ids, net, m, i);
        let past = found(ids, net.ids(), m);
        let all = found(ids, net.ids(), n);
        let id = ids[n - 1];
        let part = ids.take(m as int);
        assert(ids.take(n as int) =~= part.push(id));
        lemma_position_exists(net.ids(), id);
        if past.contains(i) {
            assert(all[past.index_of(i)] == i);
            let x = net.nodes[i as int].id;
            assert(part.push(id)[part.index_of(x)] == x);
        }
        if all.contains(i) {
            let k = all.index_of(i);
            if k < past.len() {
                assert(past[k] == i);
            } else {
                assert(net.ids()[i as int] == id);
                assert(part.push(id)[m as int] == id);
            }
        }
        if i < net.nodes.len() && part.push(id).contains(net.nodes[i as int].id) {
            let x = net.nodes[i as int].id;
            let k = part.push(id).index_of(x);
            if k < m {
                assert(part[k] == x);
            } else {
                lemma_own_position(net, i as int);
                assert(all[all.len() - 1] == i);
            }
        }
    } else {
        assert(ids.take(0) =~= seq![]);
    }
}

/// One id stands for the node that has it, if any has; several stand for all nodes that have one of them; the neighbours of
/// an id are all nodes to which an active link leads from the node that has it; and all are all, each once and in order.
pub proof fn law_named_targets(net: NetworkView, target: ScenarioTarget, picks: Seq<usize>, i: usize)
    requires
        net.wired(),
        net.ids().no_duplicates(),
        resolves(target, net, picks),
    ensures
        target matches ScenarioTarget::ById(id) ==> picks.len() <= 1 && (picks.contains(i) <==> i < net.nodes.len()
            && net.nodes[i as int].id == id),
        target matches ScenarioTarget::Ids(ids) ==> picks.len() <= ids@.len() && (picks.contains(i) <==> i < net.nodes.len()
            && ids@.contains(net.nodes[i as int].id)),
        target matches ScenarioTarget::NeighborsOf(id) ==> (picks.contains(i) <==> i < net.nodes.len() && exists|a: int|
            0 <= a < net.nodes.len() && (#[trigger] net.nodes[a]).id == id && open_way(net, a, i as int)),
        target is All ==> picks.len() == net.nodes.len() && (i < net.nodes.len() ==> picks[i as int] == i),
{
    match target {
        ScenarioTarget::ById(id) => {
            lemma_found(seq![id], net, 1, i);
            assert(seq![id].take(1) =~= seq![id]);
            assert(seq![id][0] == id);
            if i < net.nodes.len() && seq![id].contains(net.nodes[i as int].id) {
                assert(seq![id][seq![id].index_of(net.nodes[i as int].id)] == id);
            }
        },
        ScenarioTarget::Ids(ids) => {
            lemma_found(ids@, net, ids@.len(), i);
            assert(ids@.take(ids@.len() as int) =~= ids@);
        },
        ScenarioTarget::NeighborsOf(id) => {
            lemma_position_exists(net.ids(), id);
            match position(net.ids(), id) {
                Some(origin) => {
                    let next = ids_next_to(net, origin);
                    lemma_found(next, net, next.len(), i);
                    assert(next.take(next.len() as int) =~= next);
                    if i < net.nodes.len() {
                        lemma_next_to(net, origin, i);
                    }
                    assert(net.nodes[origin as int].id == net.ids()[origin as int]);
                    assert forall|a: int| 0 <= a < net.nodes.len() && (#[trigger] net.nodes[a]).id == id implies a == origin by {
                        assert(net.ids()[a] == net.ids()[origin as int]);
                    }
                },
                None => {
                    if exists|a: int| 0 <= a < net.nodes.len() && (#[trigger] net.nodes[a]).id == id {
                        let a = choose|a: int| 0 <= a < net.nodes.len() && (#[trigger] net.nodes[a]).id == id;
                        assert(net.ids()[a] == id);
                    }
                },
            }
        },
        _ => {},
    }
}

proof fn lemma_next_to(net: NetworkView, origin: usize, i: usize)
    requires
        net.wired(),
        net.ids().no_duplicates(),
        i < net.nodes.len(),
    ensures
        ids_next_to(net, origin).contains(net.nodes[i as int].id) <==> open_way(net, origin as int, i as int),
{
    let keep = |l: Link| l.active && l.from == origin;
    let open = net.links.filter(keep);
    let next = ids_next_to(net, origin);
    let id = net.nodes[i as int].id;
    if next.contains(id) {
        let k = next.index_of(id);
        assert(open.contains(open[k]));
        lemma_filtered(net.links, keep, open[k]);
        let j = net.links.index_of(open[k]);
        assert(net.links[j].to < net.nodes.len());
        assert(net.ids()[net.links[j].to as int] == net.ids()[i as int]);
        assert(net.links[j].to == i);
    }
    if open_way(net, origin as int, i as int) {
        let j = choose|j: int|
            0 <= j < net.links.len() && (#[trigger] net.links[j]).active && net.links[j].from == origin && net.links[j].to == i;
        assert(net.links.contains(net.links[j]));
        lemma_filtered(net.links, keep, net.links[j]);
        let k = open.index_of(net.links[j]);
        assert(next[k] == id);
    }
}

/// Random picks are made among exactly the nodes that are not isolated, each of them once.
pub proof fn law_at_large(net: NetworkView, i: usize)
    requires
        net.nodes.len() <= u32::MAX,
    ensures
        at_large(net).contains(i) <==> i < net.nodes.len() && net.nodes[i as int].state.mode != Mode::Isolated,
        at_large(net).no_duplicates(),
{
    let all = Seq::new(net.nodes.len(), |i: int| i as usize);
    let keep = |i: usize| net.nodes[i as int].state.mode != Mode::Isolated;
    lemma_filtered(all, keep, i);
    assert(all.no_duplicates());
    lemma_filter_distinct(all, keep);
    if i < net.nodes.len() {
        assert(all[i as int] == i);
    }
    if all.contains(i) {
        let k = all.index_of(i);
    }
}

/// A node has escaped a scenario exactly where it is isolated or on its way back and the scenario has not cut it off itself.
pub proof fn law_escaped(node: NodeView, partitioned_ids: Seq<u32>)
    ensures
        escaped(node, partitioned_ids) <==> (node.state.mode == Mode::Isolated || node.state.mode == Mode::Reconnecting)
            && forall|k: int| 0 <= k < partitioned_ids.len() ==> (#[trigger] partitioned_ids[k]) != node.id,
{
    if partitioned_ids.contains(node.id) {
        assert(partitioned_ids[partitioned_ids.index_of(node.id)] == node.id);
    }
}

} // verus!
