//! What a viewer is shown of the network.

use vstd::prelude::*;

use crate::ai_module::suspects;
use crate::network::topology_map::{lemma_filter_push, Link};
use crate::network::{Network, NetworkView};
use crate::node::signals::{
    all_of, all_signals, count_sources, fresh_of, fresh_signals, newest, newest_signals, referred, select, total,
};
use crate::node::{lifecycle_views, Node, NodeSignal, NodeView, SignalType, SignalView};
use crate::persistence::{LifecycleEntry, LifecycleView};
use crate::single::Single;
use crate::supervisor::{add_loads_whole, share, share_of, starving, Supervisor};
use crate::text::{decimal, push_decimal, push_truth, truth_text};

pub mod command;
pub mod laws;

verus! {

#[derive(Debug)]
pub struct VisualNode {
    pub id: u32,
    pub mode: String,
    pub load: u8,
    pub threat: Single,
    pub failed_auth_count: u8,
    pub active_connections: u8,
    pub confidence: Single,
    pub predicted_state: String,
    pub ai_state_reason: String,
    pub peer_suspicion_votes: usize,
}

#[verifier::ext_equal]
pub struct VisualNodeView {
    pub id: u32,
    pub mode: Seq<char>,
    pub load: u8,
    pub threat: Single,
    pub failed_auth_count: u8,
    pub active_connections: u8,
    pub confidence: Single,
    pub predicted_state: Seq<char>,
    pub ai_state_reason: Seq<char>,
    pub peer_suspicion_votes: usize,
}

impl View for VisualNode {
    type V = VisualNodeView;

    open spec fn view(&self) -> VisualNodeView {
        VisualNodeView {
            id: self.id,
            mode: self.mode@,
            load: self.load,
            threat: self.threat,
            failed_auth_count: self.failed_auth_count,
            active_connections: self.active_connections,
            confidence: self.confidence,
            predicted_state: self.predicted_state@,
            ai_state_reason: self.ai_state_reason@,
            peer_suspicion_votes: self.peer_suspicion_votes,
        }
    }
}

#[derive(Debug, Clone, Copy, PartialEq, Eq, Structural)]
pub struct VisualEdge {
    pub source: u32,
    pub target: u32,
    pub virtual_link: bool,
}

#[derive(Debug)]
pub struct VisualState {
    pub tick: u64,
    pub max_ticks: u64,
    pub finished: bool,
    pub nodes: Vec<VisualNode>,
    pub network_avg_load: usize,
    pub edges: Vec<VisualEdge>,
    pub logs: Vec<String>,
    pub network_utilization: Single,
    pub network_starving: bool,
}

#[verifier::ext_equal]
pub struct VisualStateView {
    pub tick: u64,
    pub max_ticks: u64,
    pub finished: bool,
    pub nodes: Seq<VisualNodeView>,
    pub network_avg_load: usize,
    pub edges: Seq<VisualEdge>,
    pub logs: Seq<Seq<char>>,
    pub network_utilization: Single,
    pub network_starving: bool,
}

impl View for VisualState {
    type V = VisualStateView;

    open spec fn view(&self) -> VisualStateView {
        VisualStateView {
            tick: self.tick,
            max_ticks: self.max_ticks,
            finished: self.finished,
            nodes: self.nodes@.map_values(|n: VisualNode| n@),
            network_avg_load: self.network_avg_load,
            edges: self.edges@,
            logs: self.logs@.map_values(|l: String| l@),
            network_utilization: self.network_utilization,
            network_starving: self.network_starving,
        }
    }
}

impl NodeView {
    /// What is shown of the node.
    pub open spec fn shown(self, tick: u64) -> VisualNodeView {
        VisualNodeView {
            id: self.id,
            mode: self.state.mode.text(),
            load: self.state.load,
            threat: match self.last_proposal {
                Some(p) => p.threat_score,
                None => Single { bits: 0 },
            },
            failed_auth_count: self.state.failed_auth_count,
            active_connections: self.state.active_connections,
            confidence: match self.last_proposal {
                Some(p) => p.confidence,
                None => Single { bits: 0 },
            },
            predicted_state: match self.last_proposal {
                Some(p) => p.predicted_state,
                None => seq![],
            },
            ai_state_reason: self.state.ai_state_reason,
            peer_suspicion_votes: self.accusers(tick).len() as usize,
        }
    }
}

/// The loads of the first `n` nodes together.
pub open spec fn load_sum(nodes: Seq<NodeView>, n: nat) -> nat
    decreases n,
{
    if n == 0 {
        0
    } else {
        load_sum(nodes, (n - 1) as nat) + nodes[n - 1].state.load as nat
    }
}

/// The signals that the first `n` nodes hold.
pub open spec fn signals_held(nodes: Seq<NodeView>, n: nat) -> Seq<SignalView>
    decreases n,
{
    if n == 0 {
        seq![]
    } else {
        signals_held(nodes, (n - 1) as nat) + all_of(nodes[n - 1].neighbor_signals)
    }
}

impl NetworkView {
    /// The average load of the nodes, rounded.
    pub open spec fn average_load(self) -> nat {
        if self.nodes.len() == 0 {
            0
        } else {
            Single::whole(load_sum(self.nodes, self.nodes.len())).quotient(Single::whole(self.nodes.len())).rounded()
        }
    }

    /// The last word of each node that any other holds and that is not stale.
    pub open spec fn last_words(self) -> Seq<SignalView> {
        newest(fresh_of(signals_held(self.nodes, self.nodes.len()), self.tick, self.config.security.stale_ttl))
    }

    /// The load by the nodes' last words as a share of what they can carry at most.
    pub open spec fn utilization(self) -> Single {
        share(
            total(self.last_words(), |s: SignalView| s.load as nat),
            self.last_words().len() * self.config.load_calibration.boost_ceiling as nat,
            Single { bits: 0 },
        )
    }

    /// The active links, by the ids at their ends.
    pub open spec fn edges(self) -> Seq<VisualEdge> {
        self.links.filter(|l: Link| l.active).map_values(|l: Link| self.edge(l))
    }

    pub open spec fn edge(self, l: Link) -> VisualEdge {
        VisualEdge {
            source: self.nodes[l.from as int].id,
            target: self.nodes[l.to as int].id,
            virtual_link: l.virtual_link,
        }
    }
}

/// One line on a decision.
pub open spec fn line(e: LifecycleView) -> Seq<char> {
    "[T"@ + decimal(e.tick as nat) + "] Node "@ + decimal(e.node_id as nat) + ": "@ + e.proposal_action + " -> "@
        + truth_text(e.allowed) + " ("@ + e.supervisor_reason + ")"@
}

/// The last entries, back to the first that is not later than `since_tick`.
pub open spec fn entries_since(entries: Seq<LifecycleView>, since_tick: u64) -> Seq<LifecycleView>
    decreases entries.len(),
{
    if entries.len() == 0 || entries.last().tick <= since_tick {
        seq![]
    } else {
        entries_since(entries.drop_last(), since_tick).push(entries.last())
    }
}

/// What a viewer is shown who has seen everything up to `since_tick`.
pub open spec fn shown(net: NetworkView, since_tick: u64) -> VisualStateView {
    VisualStateView {
        tick: net.tick,
        max_ticks: net.max_ticks,
        finished: net.finished,
        nodes: net.nodes.map_values(|n: NodeView| n.shown(net.tick)),
        network_avg_load: net.average_load() as usize,
        edges: net.edges(),
        logs: entries_since(net.recent_lifecycle, since_tick).map_values(|e: LifecycleView| line(e)),
        network_utilization: net.utilization(),
        network_starving: starving(net.last_words()),
    }
}

/// The decisions that are shown are later than those that were seen.
pub proof fn law_no_line_twice(entries: Seq<LifecycleView>, since_tick: u64)
    ensures
        forall|i: int|
            0 <= i < entries_since(entries, since_tick).len() ==> (#[trigger] entries_since(entries, since_tick)[i]).tick
                > since_tick,
    decreases entries.len(),
{
    if entries.len() > 0 && entries.last().tick > since_tick {
        law_no_line_twice(entries.drop_last(), since_tick);
    }
}

/// Where the entries are in the order of their ticks, every one that is later is shown.
pub proof fn law_no_line_lost(entries: Seq<LifecycleView>, since_tick: u64)
    requires
        forall|i: int, j: int| 0 <= i <= j < entries.len() ==> (#[trigger] entries[i]).tick <= (#[trigger] entries[j]).tick,
    ensures
        entries_since(entries, since_tick) == entries.filter(|e: LifecycleView| e.tick > since_tick),
    decreases entries.len(),
{
    reveal(Seq::filter);
    let p = |e: LifecycleView| e.tick > since_tick;
    if entries.len() > 0 {
        law_no_line_lost(entries.drop_last(), since_tick);
        if entries.last().tick <= since_tick {
            lemma_none_later(entries, since_tick, p);
        }
    }
}

proof fn lemma_none_later(entries: Seq<LifecycleView>, since_tick: u64, p: spec_fn(LifecycleView) -> bool)
    requires
        forall|i: int| 0 <= i < entries.len() ==> !p(#[trigger] entries[i]),
    ensures
        entries.filter(p) == Seq::<LifecycleView>::empty(),
    decreases entries.len(),
{
    reveal(Seq::filter);
    if entries.len() > 0 {
        lemma_none_later(entries.drop_last(), since_tick, p);
    }
}

fn show_node(n: &Node, tick: u64) -> (v: VisualNode)
    ensures
        v@ == n@.shown(tick),
{
    let id: u32 = n.id;
    let all = all_signals(&n.neighbor_signals);
    let voted = |x: &NodeSignal| -> (b: bool)
        ensures
            b == suspects(x@, id, tick),
        { x.signal_type == SignalType::PeerSuspicion && x.target_id == Some(id) && x.timestamp == tick };
    let votes = select(&all, voted, Ghost(|x: SignalView| suspects(x, id, tick)));
    let peer_suspicion_votes: usize = count_sources(&votes);
    assert(peer_suspicion_votes == n@.accusers(tick).len());
    let (threat, confidence, predicted_state) = match &n.last_proposal {
        Some(p) => (p.threat_score, p.confidence, p.predicted_state.clone()),
        None => {
            let nothing = String::new();
            assert(nothing@ =~= seq![]);
            (Single { bits: 0 }, Single { bits: 0 }, nothing)
        },
    };
    VisualNode {
        id,
        mode: n.state.mode.name(),
        load: n.state.load,
        threat,
        failed_auth_count: n.state.failed_auth_count,
        active_connections: n.state.active_connections,
        confidence,
        predicted_state,
        ai_state_reason: n.state.ai_state_reason.clone(),
        peer_suspicion_votes,
    }
}

fn show_nodes(network: &Network) -> (list: Vec<VisualNode>)
    ensures
        list@.map_values(|n: VisualNode| n@) == network@.nodes.map_values(|n: NodeView| n.shown(network.tick)),
{
    let ghost net = network@;
    let mut list: Vec<VisualNode> = Vec::new();
    let mut i: usize = 0;
    while i < network.nodes.len()
        invariant
            i <= network.nodes@.len(),
            net == network@,
            list@.len() == i,
            forall|k: int| 0 <= k < i ==> (#[trigger] list@[k])@ == net.nodes[k].shown(net.tick),
        decreases network.nodes@.len() - i,
    {
        assert(net.nodes[i as int] == network.nodes@[i as int]@);
        list.push(show_node(&network.nodes[i], network.tick));
        i = i + 1;
    }
    assert(list@.map_values(|n: VisualNode| n@) =~= net.nodes.map_values(|n: NodeView| n.shown(network.tick)));
    list
}

fn average_load(network: &Network) -> (avg: usize)
    requires
        network@.wired(),
    ensures
        avg == network@.average_load() as usize,
{
    let ghost net = network@;
    if network.nodes.len() == 0 {
        return 0;
    }
    let mut sum: u64 = 0;
    let mut i: usize = 0;
    while i < network.nodes.len()
        invariant
            i <= network.nodes@.len() <= u32::MAX,
            net == network@,
            sum == load_sum(net.nodes, i as nat),
            sum <= i * 255,
        decreases network.nodes@.len() - i,
    {
        assert(net.nodes[i as int] == network.nodes@[i as int]@);
        sum = sum + network.nodes[i].state.load as u64;
        i = i + 1;
    }
    Single::from_whole(sum).over(Single::from_whole(network.nodes.len() as u64)).round() as usize
}

fn signals_of_all(network: &Network) -> (list: Vec<&NodeSignal>)
    ensures
        referred(list@) == signals_held(network@.nodes, network@.nodes.len()),
{
    let ghost net = network@;
    let mut list: Vec<&NodeSignal> = Vec::new();
    let mut i: usize = 0;
    assert(referred(list@) =~= seq![]);
    while i < network.nodes.len()
        invariant
            i <= network.nodes@.len(),
            net == network@,
            referred(list@) == signals_held(net.nodes, i as nat),
        decreases network.nodes@.len() - i,
    {
        assert(net.nodes[i as int] == network.nodes@[i as int]@);
        let mut held = all_signals(&network.nodes[i].neighbor_signals);
        let ghost before = list@;
        let ghost more = held@;
        list.append(&mut held);
        assert(referred(list@) =~= referred(before) + referred(more));
        i = i + 1;
    }
    list
}

fn show_edges(network: &Network) -> (edges: Vec<VisualEdge>)
    requires
        network@.wired(),
    ensures
        edges@ == network@.edges(),
{
    let ghost net = network@;
    let ghost p = |l: Link| l.active;
    let ghost f = |l: Link| net.edge(l);
    let mut edges: Vec<VisualEdge> = Vec::new();
    let mut i: usize = 0;
    proof {
        reveal(Seq::filter);
        assert(net.links.take(0) =~= seq![]);
        assert(edges@ =~= net.links.take(0).filter(p).map_values(f));
    }
    while i < network.links.len()
        invariant
            i <= network.links@.len(),
            net == network@,
            net.wired(),
            p == (|l: Link| l.active),
            f == (|l: Link| net.edge(l)),
            edges@ == net.links.take(i as int).filter(p).map_values(f),
        decreases network.links@.len() - i,
    {
        let l: Link = network.links[i];
        let ghost kept = net.links.take(i as int).filter(p);
        proof {
            assert(net.links[i as int] == l);
            assert(net.links.take(i + 1) =~= net.links.take(i as int).push(l));
            lemma_filter_push(net.links.take(i as int), l, p);
        }
        if l.active {
            edges.push(
                VisualEdge {
                    source: network.nodes[l.from].id,
                    target: network.nodes[l.to].id,
                    virtual_link: l.virtual_link,
                },
            );
            assert(kept.push(l).map_values(f) =~= kept.map_values(f).push(f(l)));
        }
        i = i + 1;
    }
    assert(net.links.take(i as int) =~= net.links);
    edges
}

fn show_line(e: &LifecycleEntry) -> (s: String)
    ensures
        s@ == line(e@),
{
    let mut s = "[T".to_string();
    push_decimal(&mut s, e.tick as u128);
    s.append("] Node ");
    push_decimal(&mut s, e.node_id as u128);
    s.append(": ");
    s.append(e.proposal_action.as_str());
    s.append(" -> ");
    push_truth(&mut s, e.allowed);
    s.append(" (");
    s.append(e.supervisor_reason.as_str());
    s.append(")");
    s
}

proof fn lemma_entries_since(entries: Seq<LifecycleView>, since_tick: u64, n: int)
    requires
        0 <= n <= entries.len(),
        forall|k: int| n <= k < entries.len() ==> (#[trigger] entries[k]).tick > since_tick,
        n == 0 || entries[n - 1].tick <= since_tick,
    ensures
        entries_since(entries, since_tick) == entries.subrange(n, entries.len() as int),
    decreases entries.len(),
{
    if n == entries.len() {
        assert(entries.subrange(n, n) =~= seq![]);
    } else {
        let t = entries.drop_last();
        lemma_entries_since(t, since_tick, n);
        assert(entries.subrange(n, entries.len() as int) =~= t.subrange(n, t.len() as int).push(entries.last()));
    }
}

fn show_logs(network: &Network, since_tick: u64) -> (logs: Vec<String>)
    ensures
        logs@.map_values(|l: String| l@) == entries_since(network@.recent_lifecycle, since_tick).map_values(
            |e: LifecycleView| line(e),
        ),
{
    let ghost entries = network@.recent_lifecycle;
    let len: usize = network.recent_lifecycle.len();
    let mut first: usize = len;
    while first > 0 && network.recent_lifecycle[first - 1].tick > since_tick
        invariant
            first <= len,
            len == network.recent_lifecycle@.len(),
            entries == lifecycle_views(network.recent_lifecycle@),
            forall|k: int| first <= k < len ==> (#[trigger] entries[k]).tick > since_tick,
        decreases first,
    {
        assert(entries[first - 1] == network.recent_lifecycle@[first - 1]@);
        first = first - 1;
    }
    proof {
        if first > 0 {
            assert(entries[first - 1] == network.recent_lifecycle@[first - 1]@);
        }
        lemma_entries_since(entries, since_tick, first as int);
    }
    let ghost last = entries.subrange(first as int, len as int);
    let mut logs: Vec<String> = Vec::new();
    let mut i: usize = first;
    while i < len
        invariant
            first <= i <= len,
            len == network.recent_lifecycle@.len(),
            entries == lifecycle_views(network.recent_lifecycle@),
            last == entries.subrange(first as int, len as int),
            logs@.len() == i - first,
            forall|k: int| 0 <= k < logs@.len() ==> (#[trigger] logs@[k])@ == line(last[k]),
        decreases len - i,
    {
        assert(last[i - first] == network.recent_lifecycle@[i as int]@);
        logs.push(show_line(&network.recent_lifecycle[i]));
        i = i + 1;
    }
    assert(logs@.map_values(|l: String| l@) =~= last.map_values(|e: LifecycleView| line(e)));
    logs
}

/// What a viewer is shown who has seen everything up to `since_tick`.
pub fn build_visual_state(network: &Network, since_tick: u64) -> (state: VisualState)
    requires
        network@.wired(),
    ensures
        state@ == shown(network@, since_tick),
{
    let all = signals_of_all(network);
    let fresh = fresh_signals(&all, network.tick, network.config.security.stale_ttl);
    let latest = newest_signals(&fresh);
    let ceiling: u8 = network.config.load_calibration.boost_ceiling;
    let total_load: u64 = add_loads_whole(&latest);
    assert(latest@.len() * ceiling <= 0x1_0000_0000 * 255) by (nonlinear_arith)
        requires
            latest@.len() <= 0x1_0000_0000,
            ceiling <= 255,
    ;
    assert(referred(latest@).len() == latest@.len());
    let capacity: u64 = latest.len() as u64 * ceiling as u64;
    let state = VisualState {
        tick: network.tick,
        max_ticks: network.max_ticks,
        finished: network.finished,
        nodes: show_nodes(network),
        network_avg_load: average_load(network),
        edges: show_edges(network),
        logs: show_logs(network, since_tick),
        network_utilization: share_of(total_load, capacity, Single { bits: 0 }),
        network_starving: Supervisor::count_boosted(&latest) > latest.len() / 2,
    };
    assert(state@ =~= shown(network@, since_tick));
    state
}

} // verus!
