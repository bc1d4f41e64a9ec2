//! What holds of the ways in which nodes share their load.

use vstd::prelude::*;

use crate::lists::{lemma_filtered, lemma_filters_agree};
use crate::node::heuristics::{advises, load_of, overloaded, underloaded};
use crate::node::laws::lemma_sources;
use crate::node::signals::{all_of, fresh, fresh_of, law_all_of, law_newest, newest, running_sum, sources, total};
use crate::node::{Mode, NodeView, SignalType, SignalView};
use crate::proposal::ProposalAction;
use crate::single::{law_average_of_bytes, law_whole_difference, law_whole_sum, law_whole_zero, Single, ONE};
use crate::text::{decimal, id_list, rounded_text};
use crate::verdicts::{holds, lemma_total_most};

verus! {

/// The signals that a node holds and that are not stale, by ascending neighbour.
pub open spec fn recent(node: NodeView, tick: u64) -> Seq<SignalView> {
    all_of(node.neighbor_signals).filter(|x: SignalView| x.timestamp + node.config.security.stale_ttl >= tick)
}

/// The neighbour gives the advice to everyone, in a signal that is not stale.
pub open spec fn gives(node: NodeView, advice: SignalType, tick: u64, id: u32) -> bool {
    exists|x: SignalView| #[trigger]
        holds(node.neighbor_signals, x, tick, node.config.security.stale_ttl) && x.source_id == id && x.target_id is None
            && x.signal_type == advice
}

/// Those who give an advice.
pub open spec fn advisers(node: NodeView, advice: SignalType, tick: u64) -> Set<u32> {
    sources(
        recent(node, tick).filter(|x: SignalView| x.target_id is None && x.signal_type == advice),
    )
}

proof fn lemma_recent(node: NodeView, tick: u64, x: SignalView)
    ensures
        recent(node, tick).contains(x) <==> holds(node.neighbor_signals, x, tick, node.config.security.stale_ttl),
{
    let keep = |x: SignalView| x.timestamp + node.config.security.stale_ttl >= tick;
    lemma_filtered(all_of(node.neighbor_signals), keep, x);
    law_all_of(node.neighbor_signals, x);
}

proof fn lemma_recent_fresh(node: NodeView, tick: u64)
    ensures
        recent(node, tick) == fresh_of(all_of(node.neighbor_signals), tick, node.config.security.stale_ttl),
{
    lemma_filters_agree(
        all_of(node.neighbor_signals),
        |x: SignalView| x.timestamp + node.config.security.stale_ttl >= tick,
        |x: SignalView| fresh(x, tick, node.config.security.stale_ttl),
    );
}

/// Exactly those count as giving an advice of whom the node holds such an advice to everyone that is not stale, each
/// of them once.
pub proof fn law_advice_counted(node: NodeView, advice: SignalType, tick: u64, id: u32)
    ensures
        advisers(node, advice, tick).contains(id) <==> gives(node, advice, tick, id),
        node.votes(advice, tick) == advisers(node, advice, tick).len(),
{
    let ttl = node.config.security.stale_ttl;
    let all = all_of(node.neighbor_signals);
    let p = |x: SignalView| x.target_id is None && x.signal_type == advice;
    lemma_sources(recent(node, tick), p, id);
    if advisers(node, advice, tick).contains(id) {
        let x = choose|x: SignalView| #[trigger] recent(node, tick).contains(x) && p(x) && x.source_id == id;
        lemma_recent(node, tick, x);
        assert(holds(node.neighbor_signals, x, tick, ttl));
    }
    if gives(node, advice, tick, id) {
        let x = choose|x: SignalView| #[trigger]
            holds(node.neighbor_signals, x, tick, ttl) && x.source_id == id && x.target_id is None && x.signal_type
                == advice;
        lemma_recent(node, tick, x);
        assert(recent(node, tick).contains(x) && p(x));
    }
    let q = |x: SignalView| advises(x, advice, tick, ttl);
    let given = all.filter(q);
    assert(sources(given) =~= advisers(node, advice, tick)) by {
        assert forall|k: u32| #[trigger] sources(given).contains(k) <==> advisers(node, advice, tick).contains(k) by {
            lemma_sources(all, q, k);
            lemma_sources(recent(node, tick), p, k);
            if sources(given).contains(k) {
                let x = choose|x: SignalView| #[trigger] all.contains(x) && q(x) && x.source_id == k;
                law_all_of(node.neighbor_signals, x);
                lemma_recent(node, tick, x);
                assert(recent(node, tick).contains(x) && p(x));
            }
            if advisers(node, advice, tick).contains(k) {
                let x = choose|x: SignalView| #[trigger] recent(node, tick).contains(x) && p(x) && x.source_id == k;
                lemma_recent(node, tick, x);
                law_all_of(node.neighbor_signals, x);
                assert(all.contains(x) && q(x));
            }
        }
    }
}

/// A node follows its neighbours' advice exactly where more than half of them give it. It lowers its load if it is
/// normal or throttled and above the floor. If that is not called for, it raises its load if it is normal or boosted
/// and below the ceiling.
pub proof fn law_majority_is_followed(node: NodeView, tick: u64)
    ensures
        ({
            let n = node.neighbor_ids.len();
            let mode = node.state.mode;
            let lc = node.config.load_calibration;
            let down = n > 0 && 2 * advisers(node, SignalType::ReduceLoad, tick).len() > n && (mode == Mode::Normal || mode
                == Mode::Throttled) && node.state.load > lc.reduce_floor;
            let up = n > 0 && 2 * advisers(node, SignalType::BoostLoad, tick).len() > n && (mode == Mode::Normal || mode
                == Mode::Boosted) && node.state.load < lc.boost_ceiling;
            let p = node.advisory_proposal(tick);
            &&& p is Some <==> down || up
            &&& down ==> p->0.action == ProposalAction::ReduceLoad && p->0.predicted_state == "high_load_network_overload"@
            &&& up && !down ==> p->0.action == ProposalAction::IncreaseLoad && p->0.predicted_state
                == "load_on_network_has_increased"@
            &&& p is Some ==> p->0.threat_score == node.state.last_threat_score
        }),
{
    law_advice_counted(node, SignalType::ReduceLoad, tick, 0);
    law_advice_counted(node, SignalType::BoostLoad, tick, 0);
}

/// A node that has moved its load holds on exactly while more than half of its neighbours advise what it has done.
pub proof fn law_pressure(node: NodeView, tick: u64)
    ensures
        node.pressure(tick) <==> node.neighbor_ids.len() > 0 && ((node.state.mode == Mode::Throttled && 2 * advisers(
            node,
            SignalType::ReduceLoad,
            tick,
        ).len() > node.neighbor_ids.len()) || (node.state.mode == Mode::Boosted && 2 * advisers(
            node,
            SignalType::BoostLoad,
            tick,
        ).len() > node.neighbor_ids.len())),
{
    law_advice_counted(node, SignalType::ReduceLoad, tick, 0);
    law_advice_counted(node, SignalType::BoostLoad, tick, 0);
}

/// There is a newest signal exactly where there is a signal.
proof fn lemma_newest_some(s: Seq<SignalView>)
    ensures
        newest(s).len() > 0 <==> s.len() > 0,
{
    law_newest(s);
    if s.len() > 0 {
        let ids = s.map_values(|x: SignalView| x.source_id);
        assert(ids[0] == s[0].source_id);
        assert(sources(s).contains(s[0].source_id));
        assert(newest(s).map_values(|x: SignalView| x.source_id).contains(s[0].source_id));
    }
    if newest(s).len() > 0 {
        assert(s.contains(newest(s)[0]));
    }
}

/// A normal node below the ceiling offers to take over load exactly where it holds a signal to everyone, not stale, by
/// which a neighbour is isolated.
pub proof fn law_isolated_neighbors_are_replaced(node: NodeView, tick: u64)
    ensures
        ({
            let p = node.isolation_proposal(tick);
            &&& p is Some <==> node.state.mode == Mode::Normal && node.state.load < node.config.load_calibration.boost_ceiling
                && exists|id: u32| gives(node, SignalType::Isolation, tick, id)
            &&& p is Some ==> p->0.action == ProposalAction::IncreaseLoad && p->0.predicted_state
                == "low_load_neighbor_failure_relay"@ && p->0.threat_score == node.state.last_threat_score
        }),
{
    let ttl = node.config.security.stale_ttl;
    let all = all_of(node.neighbor_signals);
    let q = |x: SignalView| advises(x, SignalType::Isolation, tick, ttl);
    lemma_newest_some(all.filter(q));
    if all.filter(q).len() > 0 {
        let x = all.filter(q)[0];
        assert(all.filter(q).contains(x));
        lemma_filtered(all, q, x);
        law_all_of(node.neighbor_signals, x);
        assert(holds(node.neighbor_signals, x, tick, ttl));
        assert(gives(node, SignalType::Isolation, tick, x.source_id));
    }
    if exists|id: u32| gives(node, SignalType::Isolation, tick, id) {
        let id = choose|id: u32| gives(node, SignalType::Isolation, tick, id);
        let x = choose|x: SignalView| #[trigger]
            holds(node.neighbor_signals, x, tick, ttl) && x.source_id == id && x.target_id is None && x.signal_type
                == SignalType::Isolation;
        law_all_of(node.neighbor_signals, x);
        lemma_filtered(all, q, x);
        assert(all.filter(q).contains(x));
    }
}

/// The loads in the signals that are not stale, added up.
pub open spec fn recent_load(node: NodeView, tick: u64) -> nat {
    total(recent(node, tick), |x: SignalView| x.load as nat)
}

proof fn lemma_running_whole(s: Seq<SignalView>)
    requires
        s.len() <= 0xffff,
    ensures
        running_sum(s, |x: SignalView| Single::whole(x.load as nat)) == Single::whole(total(s, |x: SignalView| x.load as nat)),
        total(s, |x: SignalView| x.load as nat) <= s.len() * 255,
    decreases s.len(),
{
    let f = |x: SignalView| x.load as nat;
    lemma_total_most(s, f, 1, 255);
    if s.len() > 0 {
        lemma_running_whole(s.drop_last());
        law_whole_sum(total(s.drop_last(), f), s.last().load as nat);
    } else {
        law_whole_zero();
    }
}

/// The usual load round a node lies below or above a load exactly where the average of the loads that it was lately told
/// of does, each signal counted.
pub proof fn law_norm_is_average(node: NodeView, tick: u64, load: u8)
    requires
        0 < recent(node, tick).len() <= 0xffff,
    ensures
        node.norm_load(tick).below(Single::whole(load as nat)) <==> recent_load(node, tick) < recent(node, tick).len() * load,
        Single::whole(load as nat).below(node.norm_load(tick)) <==> recent_load(node, tick) > recent(node, tick).len() * load,
{
    lemma_recent_fresh(node, tick);
    lemma_running_whole(recent(node, tick));
    law_average_of_bytes(recent_load(node, tick), recent(node, tick).len(), load as nat);
}

/// A normal or throttled node below the ceiling offers to take over load exactly where it holds a signal to everyone, not
/// stale, by which a neighbour has throttled itself and lowered its load and still carries more than the average.
pub proof fn law_overloaded_neighbors_are_relieved(node: NodeView, tick: u64)
    requires
        recent(node, tick).len() <= 0xffff,
    ensures
        ({
            let p = node.overload_proposal(tick);
            &&& p is Some <==> (node.state.mode == Mode::Normal || node.state.mode == Mode::Throttled) && node.state.load
                < node.config.load_calibration.boost_ceiling && exists|x: SignalView| #[trigger]
                holds(node.neighbor_signals, x, tick, node.config.security.stale_ttl) && x.target_id is None
                    && x.signal_type == SignalType::LoadReduced && x.mode == Mode::Throttled && recent_load(node, tick)
                    < recent(node, tick).len() * x.load
            &&& p is Some ==> p->0.action == ProposalAction::IncreaseLoad && p->0.predicted_state
                == "high_load_neighbor_failure_relay"@ && p->0.threat_score == node.state.last_threat_score
        }),
{
    let ttl = node.config.security.stale_ttl;
    let norm = node.norm_load(tick);
    let all = all_of(node.neighbor_signals);
    let q = |x: SignalView| overloaded(x, norm, tick, ttl);
    lemma_newest_some(all.filter(q));
    if all.filter(q).len() > 0 {
        let x = all.filter(q)[0];
        assert(all.filter(q).contains(x));
        lemma_filtered(all, q, x);
        law_all_of(node.neighbor_signals, x);
        lemma_recent(node, tick, x);
        assert(recent(node, tick).len() > 0);
        law_norm_is_average(node, tick, x.load);
        assert(holds(node.neighbor_signals, x, tick, ttl));
    }
    if exists|x: SignalView| #[trigger]
        holds(node.neighbor_signals, x, tick, ttl) && x.target_id is None && x.signal_type == SignalType::LoadReduced && x.mode
            == Mode::Throttled && recent_load(node, tick) < recent(node, tick).len() * x.load {
        let x = choose|x: SignalView| #[trigger]
            holds(node.neighbor_signals, x, tick, ttl) && x.target_id is None && x.signal_type == SignalType::LoadReduced
                && x.mode == Mode::Throttled && recent_load(node, tick) < recent(node, tick).len() * x.load;
        lemma_recent(node, tick, x);
        assert(recent(node, tick).len() > 0);
        law_norm_is_average(node, tick, x.load);
        law_all_of(node.neighbor_signals, x);
        lemma_filtered(all, q, x);
        assert(all.filter(q).contains(x));
    }
}

/// A normal or boosted node above the floor answers boosted neighbours exactly where it holds a signal to everyone, not
/// stale, by which a neighbour is boosted and carries less than the average.
pub proof fn law_underloaded_neighbors_are_answered(node: NodeView, tick: u64)
    requires
        recent(node, tick).len() <= 0xffff,
    ensures
        ({
            let p = node.underload_proposal(tick);
            &&& p is Some <==> (node.state.mode == Mode::Normal || node.state.mode == Mode::Boosted) && node.state.load
                > node.config.load_calibration.reduce_floor && exists|x: SignalView| #[trigger]
                holds(node.neighbor_signals, x, tick, node.config.security.stale_ttl) && x.target_id is None && x.mode
                    == Mode::Boosted && recent_load(node, tick) > recent(node, tick).len() * x.load
            &&& p is Some ==> p->0.action == ProposalAction::IncreaseLoad && p->0.predicted_state
                == "low_load_neighbor_failure_relay"@ && p->0.threat_score == node.state.last_threat_score
        }),
{
    let ttl = node.config.security.stale_ttl;
    let norm = node.norm_load(tick);
    let all = all_of(node.neighbor_signals);
    let q = |x: SignalView| underloaded(x, norm, tick, ttl);
    lemma_newest_some(all.filter(q));
    if all.filter(q).len() > 0 {
        let x = all.filter(q)[0];
        assert(all.filter(q).contains(x));
        lemma_filtered(all, q, x);
        law_all_of(node.neighbor_signals, x);
        lemma_recent(node, tick, x);
        assert(recent(node, tick).len() > 0);
        law_norm_is_average(node, tick, x.load);
        assert(holds(node.neighbor_signals, x, tick, ttl));
    }
    if exists|x: SignalView| #[trigger]
        holds(node.neighbor_signals, x, tick, ttl) && x.target_id is None && x.mode == Mode::Boosted && recent_load(node, tick)
            > recent(node, tick).len() * x.load {
        let x = choose|x: SignalView| #[trigger]
            holds(node.neighbor_signals, x, tick, ttl) && x.target_id is None && x.mode == Mode::Boosted && recent_load(
                node,
                tick,
            ) > recent(node, tick).len() * x.load;
        lemma_recent(node, tick, x);
        assert(recent(node, tick).len() > 0);
        law_norm_is_average(node, tick, x.load);
        law_all_of(node.neighbor_signals, x);
        lemma_filtered(all, q, x);
        assert(all.filter(q).contains(x));
    }
}

/// How sure a node is of what it proposes for its neighbours. Of advice: as many of its neighbours as give it, as a share of
/// all. Of taking over the load of isolated neighbours: the load that was lost by their newest such signals, as a share
/// of it and the node's room together, and one at most.
pub proof fn law_confidence(node: NodeView, tick: u64)
    requires
        node.isolating_neighbors(tick).len() <= 0xfff0,
    ensures
        node.advisory_proposal(tick) matches Some(p) ==> p.confidence == Single::whole(
            advisers(
                node,
                if p.action == ProposalAction::ReduceLoad { SignalType::ReduceLoad } else { SignalType::BoostLoad },
                tick,
            ).len(),
        ).quotient(Single::whole(node.neighbor_ids.len())),
        node.isolation_proposal(tick) matches Some(p) ==> {
            let lost = total(node.isolating_neighbors(tick), |x: SignalView| x.load as nat);
            let room = (node.config.load_calibration.boost_ceiling - node.state.load) as nat;
            p.confidence == Single::whole(lost).quotient(Single::whole(lost + room)).smaller(Single { bits: ONE })
        },
{
    law_advice_counted(node, SignalType::ReduceLoad, tick, 0);
    law_advice_counted(node, SignalType::BoostLoad, tick, 0);
    let found = node.isolating_neighbors(tick);
    if node.isolation_proposal(tick) is Some {
        lemma_running_whole(found);
        let lost = total(found, |x: SignalView| x.load as nat);
        let room = (node.config.load_calibration.boost_ceiling - node.state.load) as nat;
        law_whole_difference(node.config.load_calibration.boost_ceiling as nat, node.state.load as nat);
        law_whole_sum(lost, room);
    }
}

/// The isolated neighbours are counted by their newest signal of it, each once.
pub proof fn law_isolating_neighbors(node: NodeView, tick: u64, id: u32)
    ensures
        ({
            let found = node.isolating_neighbors(tick);
            &&& (exists|k: int| 0 <= k < found.len() && (#[trigger] found[k]).source_id == id) <==> gives(
                node,
                SignalType::Isolation,
                tick,
                id,
            )
            &&& forall|i: int, j: int|
                0 <= i < j < found.len() ==> (#[trigger] found[i]).source_id < (#[trigger] found[j]).source_id
            &&& forall|k: int, x: SignalView|
                0 <= k < found.len() && #[trigger] holds(node.neighbor_signals, x, tick, node.config.security.stale_ttl)
                    && x.target_id is None && x.signal_type == SignalType::Isolation && x.source_id == (
                #[trigger] found[k]).source_id ==> x.timestamp <= found[k].timestamp
        }),
{
    let ttl = node.config.security.stale_ttl;
    let all = all_of(node.neighbor_signals);
    let q = |x: SignalView| advises(x, SignalType::Isolation, tick, ttl);
    let s = all.filter(q);
    let found = node.isolating_neighbors(tick);
    let ids = found.map_values(|x: SignalView| x.source_id);
    law_newest(s);
    lemma_sources(all, q, id);
    assert forall|i: int, j: int| 0 <= i < j < found.len() implies (#[trigger] found[i]).source_id < (#[trigger] found[j]).source_id by {
        assert(ids[i] < ids[j]);
    }
    if exists|k: int| 0 <= k < found.len() && (#[trigger] found[k]).source_id == id {
        let k = choose|k: int| 0 <= k < found.len() && (#[trigger] found[k]).source_id == id;
        assert(ids[k] == id);
        assert(ids.contains(id));
        let x = choose|x: SignalView| #[trigger] all.contains(x) && q(x) && x.source_id == id;
        law_all_of(node.neighbor_signals, x);
        assert(holds(node.neighbor_signals, x, tick, ttl));
    }
    if gives(node, SignalType::Isolation, tick, id) {
        let x = choose|x: SignalView| #[trigger]
            holds(node.neighbor_signals, x, tick, ttl) && x.source_id == id && x.target_id is None && x.signal_type
                == SignalType::Isolation;
        law_all_of(node.neighbor_signals, x);
        assert(all.contains(x) && q(x));
        assert(ids.contains(id));
        let k = ids.index_of(id);
        assert(found[k].source_id == id);
    }
    assert forall|k: int, x: SignalView|
        0 <= k < found.len() && #[trigger] holds(node.neighbor_signals, x, tick, ttl) && x.target_id is None && x.signal_type
            == SignalType::Isolation && x.source_id == (#[trigger] found[k]).source_id implies x.timestamp
        <= found[k].timestamp by {
        law_all_of(node.neighbor_signals, x);
        lemma_filtered(all, q, x);
        let m = s.index_of(x);
        assert(s[m].source_id == newest(s)[k].source_id);
    }
}

proof fn lemma_running_alike(s: Seq<SignalView>, f: spec_fn(SignalView) -> Single, g: spec_fn(SignalView) -> Single)
    requires
        forall|x: SignalView| #[trigger] f(x) == g(x),
    ensures
        running_sum(s, f) == running_sum(s, g),
    decreases s.len(),
{
    if s.len() > 0 {
        lemma_running_alike(s.drop_last(), f, g);
        assert(f(s.last()) == g(s.last()));
    }
}

/// How sure a node is of relieving overloaded neighbours: what these carry above the norm, as a share of it and of the node's
/// room together. And of answering boosted ones: what these carry below the norm, as a share of it and of what the node
/// could shed. Both are one at most.
pub proof fn law_confidence_of_relief(node: NodeView, tick: u64)
    ensures
        ({
            let norm = node.norm_load(tick);
            let lc = node.config.load_calibration;
            let zero = Single { bits: 0 };
            let over = running_sum(
                node.overloaded_neighbors(tick),
                |x: SignalView| Single::whole(x.load as nat).difference(norm).larger(zero),
            );
            let under = running_sum(
                node.underloaded_neighbors(tick),
                |x: SignalView| norm.difference(Single::whole(x.load as nat)).larger(zero),
            );
            let room = Single::whole((lc.boost_ceiling - node.state.load) as nat);
            let spare = Single::whole((node.state.load - lc.reduce_floor) as nat);
            &&& node.overload_proposal(tick) matches Some(p) ==> p.confidence == over.quotient(over.sum(room)).smaller(
                Single { bits: ONE },
            )
            &&& node.underload_proposal(tick) matches Some(p) ==> p.confidence == under.quotient(under.sum(spare)).smaller(
                Single { bits: ONE },
            )
        }),
{
    let norm = node.norm_load(tick);
    let lc = node.config.load_calibration;
    let zero = Single { bits: 0 };
    lemma_running_alike(
        node.overloaded_neighbors(tick),
        |x: SignalView| load_of(x).difference(norm).larger(Single { bits: 0 }),
        |x: SignalView| Single::whole(x.load as nat).difference(norm).larger(zero),
    );
    lemma_running_alike(
        node.underloaded_neighbors(tick),
        |x: SignalView| norm.difference(load_of(x)).larger(Single { bits: 0 }),
        |x: SignalView| norm.difference(Single::whole(x.load as nat)).larger(zero),
    );
    if node.overload_proposal(tick) is Some {
        law_whole_difference(lc.boost_ceiling as nat, node.state.load as nat);
    }
    if node.underload_proposal(tick) is Some {
        law_whole_difference(node.state.load as nat, lc.reduce_floor as nat);
    }
}

/// What a node says to its proposals: how many of how many neighbours give the advice, and which neighbours are isolated,
/// what load was lost with them and what room there is.
pub proof fn law_told_why(node: NodeView, tick: u64)
    requires
        node.isolating_neighbors(tick).len() <= 0xfff0,
    ensures
        node.advisory_proposal(tick) matches Some(p) ==> {
            let down = p.action == ProposalAction::ReduceLoad;
            let given = advisers(node, if down { SignalType::ReduceLoad } else { SignalType::BoostLoad }, tick).len();
            p.event_reason == decimal(given) + "/"@ + decimal(node.neighbor_ids.len()) + if down {
                " neighbors signalled overload — reducing load further"@
            } else {
                " neighbors signalled spare capacity — boosting load further"@
            }
        },
        node.isolation_proposal(tick) matches Some(p) ==> {
            let found = node.isolating_neighbors(tick);
            let lost = total(found, |x: SignalView| x.load as nat);
            let room = (node.config.load_calibration.boost_ceiling - node.state.load) as nat;
            p.event_reason == "Node(s) "@ + id_list(found.map_values(|x: SignalView| x.source_id))
                + " entering isolation (total load "@ + rounded_text(Single::whole(lost))
                + " dropped from network) — absorbing share within headroom "@ + rounded_text(Single::whole(room))
        },
{
    law_advice_counted(node, SignalType::ReduceLoad, tick, 0);
    law_advice_counted(node, SignalType::BoostLoad, tick, 0);
    if node.isolation_proposal(tick) is Some {
        lemma_running_whole(node.isolating_neighbors(tick));
        law_whole_difference(node.config.load_calibration.boost_ceiling as nat, node.state.load as nat);
    }
}

} // verus!
