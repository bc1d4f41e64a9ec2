//! What holds of every verdict of the supervisor.

use vstd::arithmetic::power2::{lemma2_to64, lemma_pow2_adds, lemma_pow2_pos, pow2};
use vstd::prelude::*;

use crate::config::Config;
use crate::lists::{lemma_filtered, lemma_filters_agree, lemma_none_pass};
use crate::node::signals::{all_of, fresh, fresh_of, law_all_of, law_newest, newest, sources, total};
use crate::node::{Mode, SignalView, StateView};
use crate::proposal::{ProposalAction, ProposalView};
use crate::single::{law_share_above, magnitude, Single, ONE};
use crate::supervisor::{
    full, heard, is_boosted, is_congested, is_throttled, judged, plain_load, relative_utilization, share, starving,
    BOOSTED_SHARE, FULL_SHARE, THROTTLED_SHARE,
};
use crate::text::decimal;

verus! {

/// The signal is among those that a node holds, and `ttl` ticks old at most.
pub open spec fn holds(signals: Map<u32, Seq<SignalView>>, x: SignalView, current_tick: u64, ttl: u64) -> bool {
    &&& exists|id: u32| #[trigger] signals.contains_key(id) && signals[id].contains(x)
    &&& x.timestamp + ttl >= current_tick
}

/// The supervisor hears each neighbour that has lately sent a signal exactly once, in the order of their ids, and
/// by its newest signal.
pub proof fn law_heard(signals: Map<u32, Seq<SignalView>>, current_tick: u64, ttl: u64)
    ensures
        ({
            let h = heard(signals, current_tick, ttl);
            &&& forall|i: int, j: int| 0 <= i < j < h.len() ==> (#[trigger] h[i]).source_id < (#[trigger] h[j]).source_id
            &&& forall|i: int| 0 <= i < h.len() ==> holds(signals, #[trigger] h[i], current_tick, ttl)
            &&& forall|x: SignalView| #[trigger]
                holds(signals, x, current_tick, ttl) ==> exists|i: int|
                    0 <= i < h.len() && (#[trigger] h[i]).source_id == x.source_id && x.timestamp <= h[i].timestamp
        }),
{
    let all = all_of(signals);
    let p = |x: SignalView| fresh(x, current_tick, ttl);
    let f = fresh_of(all, current_tick, ttl);
    let h = heard(signals, current_tick, ttl);
    let ids = h.map_values(|x: SignalView| x.source_id);
    law_newest(f);
    assert forall|i: int, j: int| 0 <= i < j < h.len() implies (#[trigger] h[i]).source_id < (#[trigger] h[j]).source_id by {
        assert(ids[i] < ids[j]);
    }
    assert forall|i: int| 0 <= i < h.len() implies holds(signals, #[trigger] h[i], current_tick, ttl) by {
        assert(f.contains(newest(f)[i]));
        lemma_filtered(all, p, h[i]);
        law_all_of(signals, h[i]);
    }
    assert forall|x: SignalView| #[trigger] holds(signals, x, current_tick, ttl) implies exists|i: int|
        0 <= i < h.len() && (#[trigger] h[i]).source_id == x.source_id && x.timestamp <= h[i].timestamp by {
        law_all_of(signals, x);
        lemma_filtered(all, p, x);
        assert(f.contains(x));
        let k = f.index_of(x);
        let senders = f.map_values(|x: SignalView| x.source_id);
        assert(senders[k] == x.source_id);
        assert(sources(f).contains(x.source_id));
        assert(ids.contains(x.source_id));
        let i = ids.index_of(x.source_id);
        assert(newest(f)[i].source_id == x.source_id);
        assert(f[k].timestamp <= newest(f)[i].timestamp);
        assert(h[i].source_id == x.source_id);
    }
}

/// A sum of numbers none of which is above `most` per unit.
pub(crate) proof fn lemma_total_most(s: Seq<SignalView>, f: spec_fn(SignalView) -> nat, k: nat, most: nat)
    requires
        forall|i: int| 0 <= i < s.len() ==> k * f(#[trigger] s[i]) <= most,
    ensures
        k * total(s, f) <= s.len() * most,
    decreases s.len(),
{
    if s.len() > 0 {
        let t = s.drop_last();
        assert forall|i: int| 0 <= i < t.len() implies k * f(#[trigger] t[i]) <= most by {
            assert(t[i] == s[i]);
        }
        lemma_total_most(t, f, k, most);
        assert(k * f(s[s.len() - 1]) <= most);
        let a = total(t, f);
        let b = f(s.last());
        assert(k * (a + b) == k * a + k * b) by (nonlinear_arith);
        assert((t.len() + 1) * most == t.len() * most + most) by (nonlinear_arith);
    } else {
        assert(k * 0 == 0 && 0 * most == 0) by (nonlinear_arith);
    }
}

/// A sum of numbers none of which is below `least` per unit.
proof fn lemma_total_least(s: Seq<SignalView>, f: spec_fn(SignalView) -> nat, k: nat, least: nat)
    requires
        forall|i: int| 0 <= i < s.len() ==> k * f(#[trigger] s[i]) >= least,
    ensures
        k * total(s, f) >= s.len() * least,
    decreases s.len(),
{
    if s.len() > 0 {
        let t = s.drop_last();
        assert forall|i: int| 0 <= i < t.len() implies k * f(#[trigger] t[i]) >= least by {
            assert(t[i] == s[i]);
        }
        lemma_total_least(t, f, k, least);
        assert(k * f(s[s.len() - 1]) >= least);
        let a = total(t, f);
        let b = f(s.last());
        assert(k * (a + b) == k * a + k * b) by (nonlinear_arith);
        assert((t.len() + 1) * least == t.len() * least + least) by (nonlinear_arith);
    }
}

/// A share lies above 0.85 by this much at least.
proof fn lemma_above_full(part: nat, capacity: nat)
    requires
        part < 0x0100_0000,
        0 < capacity < 0x0100_0000,
    ensures
        (Single { bits: FULL_SHARE }).below(share(part, capacity, Single { bits: 0 })) <==> 0x200_0000 * part > 28_521_269
            * capacity,
{
    let n = FULL_SHARE as nat;
    law_share_above(part, capacity, FULL_SHARE);
    lemma2_to64();
    lemma_pow2_adds(24, 125);
    lemma_pow2_pos(125);
    let p = pow2(125);
    assert(magnitude(n) == 14_260_634 * p);
    assert(magnitude(n + 1) == 14_260_635 * p);
    assert((14_260_634 * p + 14_260_635 * p) * capacity == (28_521_269 * capacity) * p) by (nonlinear_arith);
    assert(2 * part * (0x100_0000 * p) == (0x200_0000 * part) * p) by (nonlinear_arith);
    let x = 0x200_0000 * part;
    let y = 28_521_269 * capacity;
    assert(x * p > y * p <==> x > y) by (nonlinear_arith)
        requires p > 0;
}

/// A share lies above 1.15 by this much at least.
proof fn lemma_above_throttled(part: nat, capacity: nat, otherwise: Single)
    requires
        part < 0x0100_0000,
        0 < capacity < 0x0100_0000,
    ensures
        (Single { bits: THROTTLED_SHARE }).below(share(part, capacity, otherwise)) <==> 0x100_0000 * part >= 19_293_799
            * capacity,
{
    let n = THROTTLED_SHARE as nat;
    law_share_above(part, capacity, THROTTLED_SHARE);
    lemma2_to64();
    lemma_pow2_adds(23, 126);
    lemma_pow2_pos(126);
    let p = pow2(126);
    assert(magnitude(n) == 9_646_899 * p);
    assert(magnitude(n + 1) == 9_646_900 * p);
    assert((9_646_899 * p + 9_646_900 * p) * capacity == (19_293_799 * capacity) * p) by (nonlinear_arith);
    assert(2 * part * (0x80_0000 * p) == (0x100_0000 * part) * p) by (nonlinear_arith);
    let x = 0x100_0000 * part;
    let y = 19_293_799 * capacity;
    assert(x * p >= y * p <==> x >= y) by (nonlinear_arith)
        requires p > 0;
    assert(x * p == y * p <==> x == y) by (nonlinear_arith)
        requires p > 0;
}

/// A share lies above 1.75 by this much at least.
proof fn lemma_above_boosted(part: nat, capacity: nat, otherwise: Single)
    requires
        part < 0x0100_0000,
        0 < capacity < 0x0100_0000,
    ensures
        (Single { bits: BOOSTED_SHARE }).below(share(part, capacity, otherwise)) <==> 0x100_0000 * part > 29_360_129
            * capacity,
{
    let n = BOOSTED_SHARE as nat;
    law_share_above(part, capacity, BOOSTED_SHARE);
    lemma2_to64();
    lemma_pow2_adds(23, 126);
    lemma_pow2_pos(126);
    let p = pow2(126);
    assert(magnitude(n) == 14_680_064 * p);
    assert(magnitude(n + 1) == 14_680_065 * p);
    assert((14_680_064 * p + 14_680_065 * p) * capacity == (29_360_129 * capacity) * p) by (nonlinear_arith);
    assert(2 * part * (0x80_0000 * p) == (0x100_0000 * part) * p) by (nonlinear_arith);
    let x = 0x100_0000 * part;
    let y = 29_360_129 * capacity;
    assert(x * p > y * p <==> x > y) by (nonlinear_arith)
        requires p > 0;
}

/// The node is in a mode in which its load can be moved, below the ceiling, and no threat.
pub open spec fn has_room(state: StateView, cfg: Config) -> bool {
    &&& state.mode == Mode::Normal || state.mode == Mode::Throttled || state.mode == Mode::Boosted
    &&& state.load < cfg.load_calibration.boost_ceiling
    &&& !cfg.security.threat_score_isolation.at_most(state.last_threat_score)
    &&& state.failed_auth_count <= cfg.security.max_failed_auth
}

proof fn lemma_loads_bounded(h: Seq<SignalView>, f: spec_fn(SignalView) -> nat)
    requires
        h.len() <= 0xffff,
        forall|i: int| 0 <= i < h.len() ==> f(#[trigger] h[i]) <= u8::MAX,
    ensures
        total(h, f) < 0x0100_0000,
{
    lemma_total_most(h, f, 1, 255);
}

proof fn lemma_light(h: Seq<SignalView>, cfg: Config)
    requires
        h.len() <= 0xffff,
        forall|i: int| 0 <= i < h.len() ==> 20 * (#[trigger] h[i]).load <= 17 * cfg.load_calibration.boost_ceiling,
    ensures
        !full(h, cfg),
{
    let c = cfg.load_calibration.boost_ceiling as nat;
    let f = |s: SignalView| s.load as nat;
    let capacity = h.len() * c;
    lemma_loads_bounded(h, f);
    lemma_total_most(h, f, 20, 17 * c);
    assert(h.len() * (17 * c) == 17 * capacity) by (nonlinear_arith)
        requires capacity == h.len() * c;
    assert(capacity <= 0xffff * 255) by (nonlinear_arith)
        requires capacity == h.len() * c, h.len() <= 0xffff, c <= 255;
    if capacity > 0 {
        lemma_above_full(total(h, f), capacity);
    } else {
        assert(magnitude(0) == 0);
    }
}

proof fn lemma_heavy(h: Seq<SignalView>, cfg: Config)
    requires
        0 < h.len() <= 0xffff,
        cfg.load_calibration.boost_ceiling > 0,
        forall|i: int| 0 <= i < h.len() ==> 20 * (#[trigger] h[i]).load > 17 * cfg.load_calibration.boost_ceiling,
    ensures
        full(h, cfg),
{
    let c = cfg.load_calibration.boost_ceiling as nat;
    let f = |s: SignalView| s.load as nat;
    let n = h.len();
    let capacity = n * c;
    lemma_loads_bounded(h, f);
    lemma_total_least(h, f, 20, 17 * c + 1);
    assert(n * (17 * c + 1) == 17 * capacity + n) by (nonlinear_arith)
        requires capacity == n * c;
    assert(0 < capacity <= n * 255) by (nonlinear_arith)
        requires capacity == n * c, 0 < c <= 255, n > 0;
    lemma_above_full(total(h, f), capacity);
}

/// Where no neighbour that was lately heard carries more than 0.85 of the ceiling, however many they are, the
/// network has room: an increase is allowed exactly to a node that has room itself.
pub proof fn law_light_network_takes_load(
    p: ProposalView,
    state: StateView,
    cfg: Config,
    current_tick: u64,
    signals: Map<u32, Seq<SignalView>>,
)
    requires
        p.action == ProposalAction::IncreaseLoad,
        heard(signals, current_tick, cfg.security.stale_ttl).len() <= 0xffff,
        forall|x: SignalView| #[trigger]
            holds(signals, x, current_tick, cfg.security.stale_ttl) ==> 20 * x.load <= 17
                * cfg.load_calibration.boost_ceiling,
    ensures
        judged(p, state, cfg, current_tick, signals).allowed <==> has_room(state, cfg),
{
    law_heard(signals, current_tick, cfg.security.stale_ttl);
    lemma_light(heard(signals, current_tick, cfg.security.stale_ttl), cfg);
}

/// Where every neighbour that was lately heard, and one at least, carries more than 0.85 of the ceiling, no
/// increase is allowed, but for one that takes over what another node has given up.
pub proof fn law_full_network_takes_no_load(
    p: ProposalView,
    state: StateView,
    cfg: Config,
    current_tick: u64,
    signals: Map<u32, Seq<SignalView>>,
    one: SignalView,
)
    requires
        p.action == ProposalAction::IncreaseLoad,
        p.predicted_state != "low_load_neighbor_failure_relay"@,
        p.predicted_state != "absorbing_neighbor_overload"@,
        p.predicted_state != "absorbing_isolated_node_load"@,
        p.predicted_state != "load_on_network_has_increased"@,
        heard(signals, current_tick, cfg.security.stale_ttl).len() <= 0xffff,
        cfg.load_calibration.boost_ceiling > 0,
        holds(signals, one, current_tick, cfg.security.stale_ttl),
        forall|x: SignalView| #[trigger]
            holds(signals, x, current_tick, cfg.security.stale_ttl) ==> 20 * x.load > 17
                * cfg.load_calibration.boost_ceiling,
    ensures
        !judged(p, state, cfg, current_tick, signals).allowed,
{
    law_heard(signals, current_tick, cfg.security.stale_ttl);
    lemma_heavy(heard(signals, current_tick, cfg.security.stale_ttl), cfg);
}

/// An increase that takes over what another node has given up does not depend on the neighbours: it is allowed
/// exactly to a node that has room.
pub proof fn law_redistribution_needs_room_only(
    p: ProposalView,
    state: StateView,
    cfg: Config,
    current_tick: u64,
    signals: Map<u32, Seq<SignalView>>,
)
    requires
        p.action == ProposalAction::IncreaseLoad,
        p.predicted_state == "low_load_neighbor_failure_relay"@ || p.predicted_state == "absorbing_neighbor_overload"@
            || p.predicted_state == "absorbing_isolated_node_load"@ || p.predicted_state
            == "load_on_network_has_increased"@,
    ensures
        judged(p, state, cfg, current_tick, signals).allowed <==> has_room(state, cfg),
{
}

/// A node may lower its load exactly if it is in a mode in which its load can be moved, and is hotter than usual, or
/// busier than usual and above the floor.
pub proof fn law_reduction_allowed(
    p: ProposalView,
    state: StateView,
    cfg: Config,
    current_tick: u64,
    signals: Map<u32, Seq<SignalView>>,
)
    requires
        p.action == ProposalAction::ReduceLoad,
    ensures
        judged(p, state, cfg, current_tick, signals).allowed <==> {
            &&& state.mode == Mode::Normal || state.mode == Mode::Throttled || state.mode == Mode::Boosted
            &&& state.temperature > cfg.node_defaults.temperature || (state.load > cfg.node_defaults.load && state.load
                > cfg.load_calibration.reduce_floor)
        },
{
}

/// When each change of mode is allowed: going on without the model, and back; leaving the network, for its known
/// reasons or on account of failed logins or of a score above the limit; starting on the way back and arriving; and
/// doing nothing. The neighbours have no say in these.
pub proof fn law_mode_changes_allowed(
    p: ProposalView,
    state: StateView,
    cfg: Config,
    current_tick: u64,
    signals: Map<u32, Seq<SignalView>>,
)
    ensures
        ({
            let allowed = judged(p, state, cfg, current_tick, signals).allowed;
            let scored_out = cfg.security.threat_score_isolation.at_most(state.last_threat_score);
            let locked_out = state.failed_auth_count > cfg.security.max_failed_auth;
            let found = p.predicted_state;
            let grave = found == "malware_detected"@ || found == "auth_bruteforce_detected"@ || found
                == "integrity_violation"@ || found == "peer_consensus_isolation"@ || found == "neighbor_cascade_failure"@
                || found == "reconnect_timeout_failure"@;
            &&& p.action == ProposalAction::EnterDegraded ==> (allowed <==> found == "ai_module_offline"@ && state.mode
                != Mode::Degraded && state.mode != Mode::Isolated)
            &&& p.action == ProposalAction::ExitDegraded ==> (allowed <==> found == "ai_recovered"@ && state.mode
                == Mode::Degraded && !scored_out && !locked_out)
            &&& p.action == ProposalAction::EnterIsolation ==> (allowed <==> state.mode != Mode::Isolated && (grave
                || locked_out || cfg.security.threat_score_isolation.below(p.threat_score)))
            &&& p.action == ProposalAction::BeginReconnect ==> (allowed <==> state.mode == Mode::Isolated && !scored_out
                && !locked_out && state.temperature <= cfg.node_defaults.temperature && state.load
                <= cfg.node_defaults.load)
            &&& p.action == ProposalAction::ExitIsolation ==> (allowed <==> state.mode == Mode::Reconnecting
                && !scored_out && !locked_out)
            &&& p.action == ProposalAction::DoNothing ==> allowed
        }),
{
}

/// A verdict is on the proposal that was made, and of the tick in which it was made.
pub proof fn law_verdict_of_proposal(
    p: ProposalView,
    state: StateView,
    cfg: Config,
    current_tick: u64,
    signals: Map<u32, Seq<SignalView>>,
)
    ensures
        judged(p, state, cfg, current_tick, signals).proposal == p,
        judged(p, state, cfg, current_tick, signals).tick == current_tick,
{
}

proof fn lemma_relative_most(h: Seq<SignalView>, cfg: Config, throttled: bool)
    requires
        h.len() <= 0xffff,
        forall|i: int|
            0 <= i < h.len() ==> (#[trigger] h[i]).mode == Mode::Boosted || if throttled {
                20 * h[i].load <= 23 * cfg.node_defaults.load
            } else {
                4 * h[i].load <= 7 * cfg.node_defaults.load
            },
    ensures
        throttled ==> !(Single { bits: THROTTLED_SHARE }).below(relative_utilization(h, cfg)),
        !throttled ==> !(Single { bits: BOOSTED_SHARE }).below(relative_utilization(h, cfg)),
{
    let usual = cfg.node_defaults.load;
    let c = usual as nat;
    let f = |s: SignalView| plain_load(s, usual);
    let capacity = h.len() * c;
    lemma_loads_bounded(h, f);
    let (k, most) = if throttled { (20nat, 23 * c) } else { (4nat, 7 * c) };
    assert forall|i: int| 0 <= i < h.len() implies k * f(#[trigger] h[i]) <= most by {
        assert(h[i].mode == Mode::Boosted || if throttled { 20 * h[i].load <= 23 * usual } else { 4 * h[i].load <= 7 * usual });
    }
    lemma_total_most(h, f, k, most);
    assert(h.len() * (23 * c) == 23 * capacity && h.len() * (7 * c) == 7 * capacity) by (nonlinear_arith)
        requires capacity == h.len() * c;
    assert(capacity <= 0xffff * 255) by (nonlinear_arith)
        requires capacity == h.len() * c, h.len() <= 0xffff, c <= 255;
    let one = Single { bits: ONE };
    if capacity > 0 {
        lemma_above_throttled(total(h, f), capacity, one);
        lemma_above_boosted(total(h, f), capacity, one);
    } else {
        lemma_pow2_pos(126);
        let p = pow2(126);
        assert(magnitude(THROTTLED_SHARE as nat) == 9_646_899 * p);
        assert(magnitude(BOOSTED_SHARE as nat) == 14_680_064 * p);
        assert(magnitude(ONE as nat) == 8_388_608 * p);
        assert(8_388_608 * p <= 9_646_899 * p && 8_388_608 * p <= 14_680_064 * p) by (nonlinear_arith)
            requires p > 0;
    }
}

proof fn lemma_relative_least(h: Seq<SignalView>, cfg: Config, throttled: bool)
    requires
        0 < h.len() <= 0xffff,
        cfg.node_defaults.load > 0,
        forall|i: int|
            0 <= i < h.len() ==> (#[trigger] h[i]).mode != Mode::Boosted && if throttled {
                20 * h[i].load > 23 * cfg.node_defaults.load
            } else {
                4 * h[i].load > 7 * cfg.node_defaults.load
            },
    ensures
        throttled ==> (Single { bits: THROTTLED_SHARE }).below(relative_utilization(h, cfg)),
        !throttled ==> (Single { bits: BOOSTED_SHARE }).below(relative_utilization(h, cfg)),
{
    let usual = cfg.node_defaults.load;
    let c = usual as nat;
    let n = h.len();
    let f = |s: SignalView| plain_load(s, usual);
    let capacity = n * c;
    lemma_loads_bounded(h, f);
    let (k, least) = if throttled { (20nat, 23 * c + 1) } else { (4nat, 7 * c + 1) };
    assert forall|i: int| 0 <= i < h.len() implies k * f(#[trigger] h[i]) >= least by {
        assert(h[i].mode != Mode::Boosted);
    }
    lemma_total_least(h, f, k, least);
    assert(n * (23 * c + 1) == 23 * capacity + n && n * (7 * c + 1) == 7 * capacity + n) by (nonlinear_arith)
        requires capacity == n * c;
    assert(0 < capacity <= n * 255) by (nonlinear_arith)
        requires capacity == n * c, 0 < c <= 255, n > 0;
    let one = Single { bits: ONE };
    lemma_above_throttled(total(h, f), capacity, one);
    lemma_above_boosted(total(h, f), capacity, one);
}

/// A throttled or boosted node returns to its usual load only when it need not hold any more; no other node does.
pub proof fn law_return_waits_for_hold(
    p: ProposalView,
    state: StateView,
    cfg: Config,
    current_tick: u64,
    signals: Map<u32, Seq<SignalView>>,
)
    requires
        p.action == ProposalAction::ExitCalibration,
        judged(p, state, cfg, current_tick, signals).allowed,
    ensures
        state.load_hold_ticks_left == 0,
        state.mode == Mode::Throttled || state.mode == Mode::Boosted,
        state.mode == Mode::Throttled ==> state.load <= cfg.node_defaults.load,
        state.mode == Mode::Boosted ==> forall|i: int|
            #![trigger heard(signals, current_tick, cfg.security.stale_ttl)[i]]
            0 <= i < heard(signals, current_tick, cfg.security.stale_ttl).len() ==> {
                let x = heard(signals, current_tick, cfg.security.stale_ttl)[i];
                x.mode != Mode::Throttled && x.mode != Mode::Degraded
            },
{
    let h = heard(signals, current_tick, cfg.security.stale_ttl);
    lemma_none_pass(h, |s: SignalView| is_throttled(s));
    if state.mode == Mode::Boosted {
        assert forall|i: int| 0 <= i < h.len() implies (#[trigger] h[i]).mode != Mode::Throttled && h[i].mode
            != Mode::Degraded by {
            assert(!is_throttled(h[i]));
        }
    }
}

/// A node whose hold is over returns to its usual load where its neighbours are at ease. For a throttled node this
/// means that it is not busier than usual itself, that no last word tells of more than 1.15 of the usual load, unless
/// of a boosted node, and that none tells of a throttled or degraded node above the ceiling. For a boosted
/// node it means that no last word tells of a throttled or degraded node, nor of more than 1.75 of the usual load,
/// unless of a boosted node.
pub proof fn law_return_when_at_ease(
    p: ProposalView,
    state: StateView,
    cfg: Config,
    current_tick: u64,
    signals: Map<u32, Seq<SignalView>>,
)
    requires
        p.action == ProposalAction::ExitCalibration,
        state.load_hold_ticks_left == 0,
        heard(signals, current_tick, cfg.security.stale_ttl).len() <= 0xffff,
        state.mode == Mode::Throttled || state.mode == Mode::Boosted,
        state.mode == Mode::Throttled ==> state.load <= cfg.node_defaults.load,
        forall|i: int|
            #![trigger heard(signals, current_tick, cfg.security.stale_ttl)[i]]
            0 <= i < heard(signals, current_tick, cfg.security.stale_ttl).len() ==> {
                let x = heard(signals, current_tick, cfg.security.stale_ttl)[i];
                let slowed = x.mode == Mode::Throttled || x.mode == Mode::Degraded;
                if state.mode == Mode::Throttled {
                    &&& x.mode == Mode::Boosted || 20 * x.load <= 23 * cfg.node_defaults.load
                    &&& !(slowed && x.load > cfg.load_calibration.boost_ceiling)
                } else {
                    &&& x.mode == Mode::Boosted || 4 * x.load <= 7 * cfg.node_defaults.load
                    &&& !slowed
                }
            },
    ensures
        judged(p, state, cfg, current_tick, signals).allowed,
{
    let h = heard(signals, current_tick, cfg.security.stale_ttl);
    let ceiling = cfg.load_calibration.boost_ceiling;
    lemma_relative_most(h, cfg, state.mode == Mode::Throttled);
    lemma_none_pass(h, |s: SignalView| is_throttled(s));
    lemma_none_pass(h, |s: SignalView| is_congested(s, ceiling));
}

/// A node whose hold is over does not return to its usual load while its neighbours, one at least, are all busy:
/// none of them boosted, and each above 1.15 of the usual load, or above 1.75 for a boosted node.
pub proof fn law_no_return_under_pressure(
    p: ProposalView,
    state: StateView,
    cfg: Config,
    current_tick: u64,
    signals: Map<u32, Seq<SignalView>>,
)
    requires
        p.action == ProposalAction::ExitCalibration,
        0 < heard(signals, current_tick, cfg.security.stale_ttl).len() <= 0xffff,
        cfg.node_defaults.load > 0,
        forall|i: int|
            #![trigger heard(signals, current_tick, cfg.security.stale_ttl)[i]]
            0 <= i < heard(signals, current_tick, cfg.security.stale_ttl).len() ==> {
                let x = heard(signals, current_tick, cfg.security.stale_ttl)[i];
                &&& x.mode != Mode::Boosted
                &&& if state.mode == Mode::Throttled {
                    20 * x.load > 23 * cfg.node_defaults.load
                } else {
                    4 * x.load > 7 * cfg.node_defaults.load
                }
            },
    ensures
        !judged(p, state, cfg, current_tick, signals).allowed,
{
    lemma_relative_least(
        heard(signals, current_tick, cfg.security.stale_ttl),
        cfg,
        state.mode == Mode::Throttled,
    );
}

/// A throttled node does not return to its usual load while at least half of its neighbours, and one at least, are
/// throttled or degraded and above the ceiling even so.
pub proof fn law_no_return_in_congestion(
    p: ProposalView,
    state: StateView,
    cfg: Config,
    current_tick: u64,
    signals: Map<u32, Seq<SignalView>>,
)
    requires
        p.action == ProposalAction::ExitCalibration,
        state.mode == Mode::Throttled,
        heard(signals, current_tick, cfg.security.stale_ttl).len() > 0,
        2 * heard(signals, current_tick, cfg.security.stale_ttl).filter(
            |x: SignalView|
                (x.mode == Mode::Throttled || x.mode == Mode::Degraded) && x.load > cfg.load_calibration.boost_ceiling,
        ).len() >= heard(signals, current_tick, cfg.security.stale_ttl).len(),
    ensures
        !judged(p, state, cfg, current_tick, signals).allowed,
{
    let h = heard(signals, current_tick, cfg.security.stale_ttl);
    let ceiling = cfg.load_calibration.boost_ceiling;
    lemma_filters_agree(
        h,
        |x: SignalView|
            (x.mode == Mode::Throttled || x.mode == Mode::Degraded) && x.load > cfg.load_calibration.boost_ceiling,
        |s: SignalView| is_congested(s, ceiling),
    );
}

/// A network starves exactly where more than half of those heard are boosted.
pub proof fn law_starving(h: Seq<SignalView>)
    ensures
        starving(h) <==> 2 * h.filter(|x: SignalView| x.mode == Mode::Boosted).len() > h.len(),
{
    lemma_filters_agree(h, |x: SignalView| x.mode == Mode::Boosted, |s: SignalView| is_boosted(s));
}

/// Where a node that is in order wants to lower its load although the network starves, it is told how many of how
/// many are boosted; where the network is full, how many of how many are slowed down.
pub proof fn law_reasons_count(
    p: ProposalView,
    state: StateView,
    cfg: Config,
    current_tick: u64,
    signals: Map<u32, Seq<SignalView>>,
)
    ensures
        ({
            let h = heard(signals, current_tick, cfg.security.stale_ttl);
            let fast = h.filter(|x: SignalView| x.mode == Mode::Boosted).len();
            let slow = h.filter(|x: SignalView| x.mode == Mode::Throttled || x.mode == Mode::Degraded).len();
            let reason = judged(p, state, cfg, current_tick, signals).reason;
            &&& p.action == ProposalAction::ReduceLoad && 2 * fast > h.len() && state.load <= cfg.node_defaults.load
                && state.temperature <= cfg.node_defaults.temperature ==> reason == "Network starving ("@
                + decimal(fast) + "/"@ + decimal(h.len())
                + " boosted) and node not overloaded — ReduceLoad blocked"@
            &&& p.action == ProposalAction::IncreaseLoad && !judged(p, state, cfg, current_tick, signals).allowed
                && has_room(state, cfg) ==> reason == "Network overloaded ("@ + decimal(slow) + "/"@
                + decimal(h.len()) + " throttled) — IncreaseLoad blocked to prevent cascade"@
        }),
{
    let h = heard(signals, current_tick, cfg.security.stale_ttl);
    law_starving(h);
    lemma_filters_agree(h, |x: SignalView| x.mode == Mode::Boosted, |s: SignalView| is_boosted(s));
    lemma_filters_agree(
        h,
        |x: SignalView| x.mode == Mode::Throttled || x.mode == Mode::Degraded,
        |s: SignalView| is_throttled(s),
    );
}

/// The reasons that are given for moving the load: for an approval that it is one, and for a refusal the first thing that
/// stands against it.
pub proof fn law_reasons_of_load(
    p: ProposalView,
    state: StateView,
    cfg: Config,
    current_tick: u64,
    signals: Map<u32, Seq<SignalView>>,
)
    ensures
        ({
            let v = judged(p, state, cfg, current_tick, signals);
            let movable = state.mode == Mode::Normal || state.mode == Mode::Throttled || state.mode == Mode::Boosted;
            let threat = cfg.security.threat_score_isolation.at_most(state.last_threat_score) || state.failed_auth_count
                > cfg.security.max_failed_auth;
            let taken_over = p.predicted_state == "low_load_neighbor_failure_relay"@ || p.predicted_state
                == "absorbing_neighbor_overload"@ || p.predicted_state == "absorbing_isolated_node_load"@ || p.predicted_state
                == "load_on_network_has_increased"@;
            let calm = state.load <= cfg.node_defaults.load && state.temperature <= cfg.node_defaults.temperature;
            let starves = 2 * heard(signals, current_tick, cfg.security.stale_ttl).filter(
                |x: SignalView| x.mode == Mode::Boosted,
            ).len() > heard(signals, current_tick, cfg.security.stale_ttl).len();
            &&& p.action == ProposalAction::ReduceLoad ==> {
                &&& v.allowed ==> v.reason == "Load acceptable for reduction"@
                &&& !v.allowed && !(starves && calm) && !movable ==> v.reason == "Cannot reduce load from current mode ("@
                    + state.mode.text() + ")"@
                &&& !v.allowed && !(starves && calm) && movable && state.load <= cfg.load_calibration.reduce_floor
                    && state.temperature <= cfg.node_defaults.temperature ==> v.reason
                    == "Already at reduce floor — nothing left to cut"@
                &&& !v.allowed && !starves && movable && (state.load > cfg.load_calibration.reduce_floor) ==> v.reason
                    == "Load already within normal range"@
            }
            &&& p.action == ProposalAction::IncreaseLoad ==> {
                &&& v.allowed && taken_over ==> v.reason == "Redistribution approved: headroom available"@
                &&& v.allowed && !taken_over ==> v.reason == "Load increase approved: headroom available"@
                &&& taken_over && threat ==> v.reason == "Cannot increase load: active security threat ("@
                    + state.ai_state_reason + ")"@
                &&& taken_over && !threat && !movable ==> v.reason == "Cannot increase load from current mode ("@
                    + state.mode.text() + ")"@
                &&& taken_over && !threat && movable && state.load >= cfg.load_calibration.boost_ceiling ==> v.reason
                    == "Cannot increase load: already at boost ceiling"@
            }
            &&& p.action == ProposalAction::ExitCalibration ==> {
                &&& v.allowed ==> v.reason == "Calibration hold elapsed and metrics stabilized, returning to Normal"@
                &&& state.mode != Mode::Boosted && state.mode != Mode::Throttled ==> v.reason
                    == "Cannot exit calibration: node is in "@ + state.mode.text() + " mode"@
                &&& (state.mode == Mode::Boosted || state.mode == Mode::Throttled) && state.load_hold_ticks_left > 0
                    ==> v.reason == "Cannot exit calibration: hold period not yet elapsed"@
            }
        }),
{
    law_starving(heard(signals, current_tick, cfg.security.stale_ttl));
}

/// The reasons that are given for changes of mode: for an approval that it is one, and for a refusal the first thing that
/// stands against it.
pub proof fn law_reasons_of_mode(
    p: ProposalView,
    state: StateView,
    cfg: Config,
    current_tick: u64,
    signals: Map<u32, Seq<SignalView>>,
)
    ensures
        ({
            let v = judged(p, state, cfg, current_tick, signals);
            let threat = cfg.security.threat_score_isolation.at_most(state.last_threat_score) || state.failed_auth_count
                > cfg.security.max_failed_auth;
            &&& p.action == ProposalAction::EnterDegraded ==> {
                &&& v.allowed ==> v.reason == "AI failure confirmed, transitioning to Degraded mode"@
                &&& state.mode == Mode::Degraded || state.mode == Mode::Isolated ==> v.reason
                    == "Cannot enter Degraded from current mode ("@ + state.mode.text() + ")"@
                &&& state.mode != Mode::Degraded && state.mode != Mode::Isolated && !v.allowed ==> v.reason
                    == "EnterDegraded strictly requires 'ai_module_offline' state"@
            }
            &&& p.action == ProposalAction::ExitDegraded ==> {
                &&& v.allowed ==> v.reason == "AI module recovery confirmed, returning to Normal"@
                &&& state.mode != Mode::Degraded ==> v.reason == "Cannot exit Degraded: node is in "@ + state.mode.text()
                    + " mode"@
                &&& state.mode == Mode::Degraded && p.predicted_state != "ai_recovered"@ ==> v.reason
                    == "ExitDegraded strictly requires 'ai_recovered' state"@
                &&& state.mode == Mode::Degraded && p.predicted_state == "ai_recovered"@ && threat ==> v.reason
                    == "Cannot exit Degraded: unresolved security threat ("@ + state.ai_state_reason + ")"@
            }
            &&& p.action == ProposalAction::EnterIsolation ==> {
                &&& v.allowed ==> v.reason == "Isolation approved: "@ + p.predicted_state
                &&& !v.allowed ==> v.reason == "Insufficient threat score and unrecognized AI reason for isolation"@
            }
            &&& p.action == ProposalAction::BeginReconnect ==> {
                &&& v.allowed ==> v.reason == "Network conditions stable, reconnect approved"@
                &&& threat ==> v.reason == "Reconnect denied: unresolved security breach ("@ + state.ai_state_reason + ")"@
                &&& !v.allowed && !threat ==> v.reason == "Reconnect denied: wrong mode or high auth failures"@
            }
            &&& p.action == ProposalAction::ExitIsolation ==> {
                &&& v.allowed ==> v.reason == "Recovery process complete, returning to normal operations"@
                &&& state.mode != Mode::Reconnecting ==> v.reason == "Cannot exit Isolation: node is in "@
                    + state.mode.text() + " mode"@
                &&& state.mode == Mode::Reconnecting && threat ==> v.reason
                    == "Exit denied: new security threat detected during reconnect ("@ + state.ai_state_reason + ")"@
            }
            &&& p.action == ProposalAction::DoNothing ==> v.reason == "No action required"@
        }),
{
}

} // verus!
