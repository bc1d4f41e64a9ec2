//! Judging the proposals that a node makes to itself.

use std::collections::{BTreeMap, VecDeque};

use vstd::prelude::*;

use crate::config::Config;
use crate::executor::carried_out;
use crate::node::signals::{
    all_of, all_signals, count, fresh_of, fresh_signals, newest, newest_signals, referred, told, total,
};
use crate::node::{DecisionRecord, DecisionView, Mode, NodeSignal, NodeState, SignalView, StateView};
use crate::proposal::{Proposal, ProposalAction, ProposalView};
use crate::single::{Single, ONE};
use crate::text::{decimal, hundredths_text, is_text, push_decimal, push_hundredths, push_truth, truth_text};

verus! {

/// The pattern of 0.85: a network above this share of its capacity takes no more load.
pub const FULL_SHARE: u32 = 0x3f59_999a;

/// The pattern of 1.15: above this share of the usual load a throttled node stays throttled.
pub const THROTTLED_SHARE: u32 = 0x3f93_3333;

/// The pattern of 1.75: above this share of the usual load a boosted node stays boosted.
pub const BOOSTED_SHARE: u32 = 0x3fe0_0000;

pub struct Supervisor;

/// The last word of each neighbour that is not stale, by ascending neighbour.
pub open spec fn heard(signals: Map<u32, Seq<SignalView>>, current_tick: u64, ttl: u64) -> Seq<SignalView> {
    newest(fresh_of(all_of(signals), current_tick, ttl))
}

pub open spec fn is_throttled(s: SignalView) -> bool {
    s.mode == Mode::Throttled || s.mode == Mode::Degraded
}

pub open spec fn is_boosted(s: SignalView) -> bool {
    s.mode == Mode::Boosted
}

pub open spec fn throttled(heard: Seq<SignalView>) -> nat {
    heard.filter(|s: SignalView| is_throttled(s)).len()
}

pub open spec fn boosted(heard: Seq<SignalView>) -> nat {
    heard.filter(|s: SignalView| is_boosted(s)).len()
}

/// More than half of the neighbours are boosted.
pub open spec fn starving(heard: Seq<SignalView>) -> bool {
    boosted(heard) > heard.len() / 2
}

/// `part` as a share of `capacity`; `otherwise` where there is no capacity.
pub open spec fn share(part: nat, capacity: nat, otherwise: Single) -> Single {
    if capacity > 0 {
        Single::whole(part).quotient(Single::whole(capacity))
    } else {
        otherwise
    }
}

/// The neighbours' load as a share of what they can carry at most.
pub open spec fn utilization(heard: Seq<SignalView>, cfg: Config) -> Single {
    share(
        total(heard, |s: SignalView| s.load as nat),
        heard.len() * cfg.load_calibration.boost_ceiling as nat,
        Single { bits: 0 },
    )
}

/// The neighbours run at more than 0.85 of what they can carry.
pub open spec fn full(heard: Seq<SignalView>, cfg: Config) -> bool {
    Single { bits: FULL_SHARE }.below(utilization(heard, cfg))
}

/// A neighbour's load, a boosted one counted as running at the usual load at most.
pub open spec fn plain_load(s: SignalView, usual: u8) -> nat {
    if s.mode == Mode::Boosted && s.load > usual { usual as nat } else { s.load as nat }
}

/// The neighbours' plain load as a share of the usual load.
pub open spec fn relative_utilization(heard: Seq<SignalView>, cfg: Config) -> Single {
    let usual = cfg.node_defaults.load;
    share(
        total(heard, |s: SignalView| plain_load(s, usual)),
        heard.len() * usual as nat,
        Single { bits: ONE },
    )
}

/// At least half of the neighbours are throttled and still above the ceiling.
pub open spec fn congested(heard: Seq<SignalView>, cfg: Config) -> bool {
    heard.len() > 0 && 2 * heard.filter(|s: SignalView| is_congested(s, cfg.load_calibration.boost_ceiling)).len()
        >= heard.len()
}

pub open spec fn is_congested(s: SignalView, ceiling: u8) -> bool {
    is_throttled(s) && s.load > ceiling
}

/// The node takes itself for a threat, or too many logins have failed.
pub open spec fn security_threat(state: StateView, cfg: Config) -> bool {
    cfg.security.threat_score_isolation.at_most(state.last_threat_score) || state.failed_auth_count
        > cfg.security.max_failed_auth
}

/// Hotter or busier than usual.
pub open spec fn strained(state: StateView, cfg: Config) -> bool {
    state.temperature > cfg.node_defaults.temperature || state.load > cfg.node_defaults.load
}

/// The modes in which the load can be moved.
pub open spec fn adjustable(mode: Mode) -> bool {
    mode == Mode::Normal || mode == Mode::Boosted || mode == Mode::Throttled
}

/// A load increase that takes over what a neighbour cannot carry.
pub open spec fn redistributes(predicted_state: Seq<char>) -> bool {
    ||| predicted_state == "low_load_neighbor_failure_relay"@
    ||| predicted_state == "absorbing_neighbor_overload"@
    ||| predicted_state == "absorbing_isolated_node_load"@
    ||| predicted_state == "load_on_network_has_increased"@
}

/// The findings that are reason enough for isolation.
pub open spec fn calls_for_isolation(predicted_state: Seq<char>) -> bool {
    ||| predicted_state == "malware_detected"@
    ||| predicted_state == "auth_bruteforce_detected"@
    ||| predicted_state == "integrity_violation"@
    ||| predicted_state == "peer_consensus_isolation"@
    ||| predicted_state == "neighbor_cascade_failure"@
    ||| predicted_state == "reconnect_timeout_failure"@
}

/// What made a node leave its usual load is still there.
pub open spec fn anomaly_persists(state: StateView, cfg: Config, heard: Seq<SignalView>) -> bool {
    let relative = relative_utilization(heard, cfg);
    match state.mode {
        Mode::Throttled => {
            ||| state.load > cfg.node_defaults.load
            ||| Single { bits: THROTTLED_SHARE }.below(relative)
            ||| congested(heard, cfg)
        },
        Mode::Boosted => Single { bits: BOOSTED_SHARE }.below(relative) || throttled(heard) > 0,
        _ => false,
    }
}

/// Whether the proposal may be carried out.
pub open spec fn allowed(proposal: ProposalView, state: StateView, cfg: Config, heard: Seq<SignalView>) -> bool {
    match proposal.action {
        ProposalAction::ReduceLoad => {
            &&& adjustable(state.mode)
            &&& strained(state, cfg)
            &&& state.load > cfg.load_calibration.reduce_floor || state.temperature > cfg.node_defaults.temperature
        },
        ProposalAction::IncreaseLoad => {
            &&& adjustable(state.mode)
            &&& state.load < cfg.load_calibration.boost_ceiling
            &&& !security_threat(state, cfg)
            &&& redistributes(proposal.predicted_state) || !full(heard, cfg)
        },
        ProposalAction::EnterDegraded => {
            &&& state.mode != Mode::Degraded
            &&& state.mode != Mode::Isolated
            &&& proposal.predicted_state == "ai_module_offline"@
        },
        ProposalAction::ExitDegraded => {
            &&& state.mode == Mode::Degraded
            &&& proposal.predicted_state == "ai_recovered"@
            &&& !security_threat(state, cfg)
        },
        ProposalAction::EnterIsolation => {
            &&& state.mode != Mode::Isolated
            &&& calls_for_isolation(proposal.predicted_state) || state.failed_auth_count > cfg.security.max_failed_auth
                || cfg.security.threat_score_isolation.below(proposal.threat_score)
        },
        ProposalAction::BeginReconnect => {
            &&& state.mode == Mode::Isolated
            &&& !security_threat(state, cfg)
            &&& !strained(state, cfg)
        },
        ProposalAction::ExitIsolation => state.mode == Mode::Reconnecting && !security_threat(state, cfg),
        ProposalAction::ExitCalibration => {
            &&& state.mode == Mode::Boosted || state.mode == Mode::Throttled
            &&& state.load_hold_ticks_left == 0
            &&& !anomaly_persists(state, cfg, heard)
        },
        ProposalAction::DoNothing => true,
    }
}

/// What the supervisor says to the proposal.
pub open spec fn reason(proposal: ProposalView, state: StateView, cfg: Config, heard: Seq<SignalView>) -> Seq<char> {
    let ok = allowed(proposal, state, cfg, heard);
    let threat = security_threat(state, cfg);
    match proposal.action {
        ProposalAction::ReduceLoad => if ok {
            "Load acceptable for reduction"@
        } else if starving(heard) && !strained(state, cfg) {
            "Network starving ("@ + decimal(boosted(heard)) + "/"@ + decimal(heard.len())
                + " boosted) and node not overloaded — ReduceLoad blocked"@
        } else if !adjustable(state.mode) {
            "Cannot reduce load from current mode ("@ + state.mode.text() + ")"@
        } else if state.load <= cfg.load_calibration.reduce_floor && state.temperature <= cfg.node_defaults.temperature {
            "Already at reduce floor — nothing left to cut"@
        } else {
            "Load already within normal range"@
        },
        ProposalAction::IncreaseLoad => if full(heard, cfg) && !redistributes(proposal.predicted_state) {
            "Network overloaded ("@ + decimal(throttled(heard)) + "/"@ + decimal(heard.len())
                + " throttled) — IncreaseLoad blocked to prevent cascade"@
        } else if ok {
            if redistributes(proposal.predicted_state) {
                "Redistribution approved: headroom available"@
            } else {
                "Load increase approved: headroom available"@
            }
        } else if threat {
            "Cannot increase load: active security threat ("@ + state.ai_state_reason + ")"@
        } else if !adjustable(state.mode) {
            "Cannot increase load from current mode ("@ + state.mode.text() + ")"@
        } else {
            "Cannot increase load: already at boost ceiling"@
        },
        ProposalAction::EnterDegraded => if state.mode == Mode::Degraded || state.mode == Mode::Isolated {
            "Cannot enter Degraded from current mode ("@ + state.mode.text() + ")"@
        } else if !ok {
            "EnterDegraded strictly requires 'ai_module_offline' state"@
        } else {
            "AI failure confirmed, transitioning to Degraded mode"@
        },
        ProposalAction::ExitDegraded => if state.mode != Mode::Degraded {
            "Cannot exit Degraded: node is in "@ + state.mode.text() + " mode"@
        } else if proposal.predicted_state != "ai_recovered"@ {
            "ExitDegraded strictly requires 'ai_recovered' state"@
        } else if threat {
            "Cannot exit Degraded: unresolved security threat ("@ + state.ai_state_reason + ")"@
        } else {
            "AI module recovery confirmed, returning to Normal"@
        },
        ProposalAction::EnterIsolation => if ok {
            "Isolation approved: "@ + proposal.predicted_state
        } else {
            "Insufficient threat score and unrecognized AI reason for isolation"@
        },
        ProposalAction::BeginReconnect => if ok {
            "Network conditions stable, reconnect approved"@
        } else if threat {
            "Reconnect denied: unresolved security breach ("@ + state.ai_state_reason + ")"@
        } else {
            "Reconnect denied: wrong mode or high auth failures"@
        },
        ProposalAction::ExitIsolation => if ok {
            "Recovery process complete, returning to normal operations"@
        } else if state.mode != Mode::Reconnecting {
            "Cannot exit Isolation: node is in "@ + state.mode.text() + " mode"@
        } else {
            "Exit denied: new security threat detected during reconnect ("@ + state.ai_state_reason + ")"@
        },
        ProposalAction::ExitCalibration => if state.mode != Mode::Boosted && state.mode != Mode::Throttled {
            "Cannot exit calibration: node is in "@ + state.mode.text() + " mode"@
        } else if state.load_hold_ticks_left != 0 {
            "Cannot exit calibration: hold period not yet elapsed"@
        } else if !ok {
            "Cannot exit calibration: load anomaly persists (mode: "@ + state.mode.text() + ", relative util: "@
                + hundredths_text(relative_utilization(heard, cfg)) + ", self overloaded: "@ + truth_text(
                state.load > cfg.node_defaults.load,
            ) + ")"@
        } else {
            "Calibration hold elapsed and metrics stabilized, returning to Normal"@
        },
        ProposalAction::DoNothing => "No action required"@,
    }
}

/// The supervisor's record of the proposal.
pub open spec fn judged(
    proposal: ProposalView,
    state: StateView,
    cfg: Config,
    current_tick: u64,
    signals: Map<u32, Seq<SignalView>>,
) -> DecisionView {
    let h = heard(signals, current_tick, cfg.security.stale_ttl);
    DecisionView {
        tick: current_tick,
        proposal,
        allowed: allowed(proposal, state, cfg, h),
        reason: reason(proposal, state, cfg, h),
    }
}

/// Adds up what `f` makes of each signal.
fn add_whole<F: Fn(&NodeSignal) -> u64>(
    list: &Vec<&NodeSignal>,
    f: F,
    Ghost(g): Ghost<spec_fn(SignalView) -> nat>,
) -> (n: u64)
    requires
        list@.len() <= 0x1_0000_0000,
        forall|x: &NodeSignal| call_requires(f, (x,)),
        forall|x: &NodeSignal, y: u64| #[trigger] call_ensures(f, (x,), y) ==> y == g(x@) && y <= u8::MAX,
    ensures
        n == total(referred(list@), g),
{
    let mut n: u64 = 0;
    let mut i: usize = 0;
    let ghost all = referred(list@);
    while i < list.len()
        invariant
            i <= list@.len() <= 0x1_0000_0000,
            all == referred(list@),
            forall|x: &NodeSignal| call_requires(f, (x,)),
            forall|x: &NodeSignal, y: u64| #[trigger] call_ensures(f, (x,), y) ==> y == g(x@) && y <= u8::MAX,
            n == total(all.take(i as int), g),
            n <= i * u8::MAX,
        decreases list@.len() - i,
    {
        n = n + f(list[i]);
        proof {
            assert(all.take(i + 1).drop_last() =~= all.take(i as int));
        }
        i = i + 1;
    }
    assert(all.take(i as int) =~= all);
    n
}

/// The loads of the signals together.
pub(crate) fn add_loads_whole(list: &Vec<&NodeSignal>) -> (n: u64)
    requires
        list@.len() <= 0x1_0000_0000,
    ensures
        n == total(referred(list@), |s: SignalView| s.load as nat),
{
    let load = |x: &NodeSignal| -> (n: u64)
        ensures
            n == x@.load,
        { x.load as u64 };
    add_whole(list, load, Ghost(|s: SignalView| s.load as nat))
}

pub(crate) fn share_of(part: u64, capacity: u64, otherwise: Single) -> (s: Single)
    ensures
        s == share(part as nat, capacity as nat, otherwise),
{
    if capacity > 0 {
        Single::from_whole(part).over(Single::from_whole(capacity))
    } else {
        otherwise
    }
}

/// A text with a second one in its middle.
fn between(before: &str, middle: &String, after: &str) -> (s: String)
    ensures
        s@ == before@ + middle@ + after@,
{
    let mut s = before.to_string();
    s.append(middle.as_str());
    s.append(after);
    s
}

/// A text with a share in its middle.
fn with_share(before: &str, part: usize, whole: usize, after: &str) -> (s: String)
    ensures
        s@ == before@ + decimal(part as nat) + "/"@ + decimal(whole as nat) + after@,
{
    let mut s = before.to_string();
    push_decimal(&mut s, part as u128);
    s.append("/");
    push_decimal(&mut s, whole as u128);
    s.append(after);
    s
}

impl Supervisor {
    /// Judges a proposal by the node's state and the last words of its neighbours.
    pub fn validate(
        &self,
        proposal: &Proposal,
        state: &NodeState,
        cfg: &Config,
        current_tick: u64,
        neighbor_signals: &BTreeMap<u32, VecDeque<NodeSignal>>,
    ) -> (decision: DecisionRecord)
        ensures
            decision@ == judged(proposal@, state@, *cfg, current_tick, told(neighbor_signals@)),
            decision.proposal == *proposal,
    {
        let all = all_signals(neighbor_signals);
        let fresh = fresh_signals(&all, current_tick, cfg.security.stale_ttl);
        let latest = newest_signals(&fresh);
        let (allowed, reason) = Self::judge(proposal, state, cfg, &latest);
        DecisionRecord { tick: current_tick, proposal: proposal.clone(), allowed, reason }
    }

    /// Judges a proposal, given the last words of the neighbours.
    fn judge(proposal: &Proposal, state: &NodeState, cfg: &Config, latest: &Vec<&NodeSignal>) -> (verdict: (bool, String))
        requires
            latest@.len() <= 0x1_0000_0000,
        ensures
            verdict.0 == allowed(proposal@, state@, *cfg, referred(latest@)),
            verdict.1@ == reason(proposal@, state@, *cfg, referred(latest@)),
    {
        let nd = &cfg.node_defaults;
        let lc = &cfg.load_calibration;
        let threat = state.last_threat_score.ge(cfg.security.threat_score_isolation) || state.failed_auth_count
            > cfg.security.max_failed_auth;
        let strained = state.temperature > nd.temperature || state.load > nd.load;
        let adjustable = matches!(state.mode, Mode::Normal | Mode::Boosted | Mode::Throttled);
        match proposal.action {
            ProposalAction::ReduceLoad => {
                let room = state.load > lc.reduce_floor || state.temperature > nd.temperature;
                let ok = adjustable && room && strained;
                let boosted = Self::count_boosted(latest);
                let reason = if boosted > latest.len() / 2 && !strained {
                    with_share(
                        "Network starving (",
                        boosted,
                        latest.len(),
                        " boosted) and node not overloaded — ReduceLoad blocked",
                    )
                } else if ok {
                    "Load acceptable for reduction".to_string()
                } else if !adjustable {
                    between("Cannot reduce load from current mode (", &state.mode.name(), ")")
                } else if !room {
                    "Already at reduce floor — nothing left to cut".to_string()
                } else {
                    "Load already within normal range".to_string()
                };
                (ok, reason)
            },
            ProposalAction::IncreaseLoad => Self::judge_increase(proposal, state, cfg, latest, threat, adjustable),
            ProposalAction::EnterDegraded => {
                let right_mode = state.mode != Mode::Degraded && state.mode != Mode::Isolated;
                let right_reason = is_text(&proposal.predicted_state, "ai_module_offline");
                let reason = if !right_mode {
                    between("Cannot enter Degraded from current mode (", &state.mode.name(), ")")
                } else if !right_reason {
                    "EnterDegraded strictly requires 'ai_module_offline' state".to_string()
                } else {
                    "AI failure confirmed, transitioning to Degraded mode".to_string()
                };
                (right_mode && right_reason, reason)
            },
            ProposalAction::ExitDegraded => {
                let right_mode = state.mode == Mode::Degraded;
                let right_reason = is_text(&proposal.predicted_state, "ai_recovered");
                let reason = if !right_mode {
                    between("Cannot exit Degraded: node is in ", &state.mode.name(), " mode")
                } else if !right_reason {
                    "ExitDegraded strictly requires 'ai_recovered' state".to_string()
                } else if threat {
                    between("Cannot exit Degraded: unresolved security threat (", &state.ai_state_reason, ")")
                } else {
                    "AI module recovery confirmed, returning to Normal".to_string()
                };
                (right_mode && right_reason && !threat, reason)
            },
            ProposalAction::EnterIsolation => {
                let found = &proposal.predicted_state;
                let grave = is_text(found, "malware_detected") || is_text(found, "auth_bruteforce_detected") || is_text(
                    found,
                    "integrity_violation",
                ) || is_text(found, "peer_consensus_isolation") || is_text(found, "neighbor_cascade_failure") || is_text(
                    found,
                    "reconnect_timeout_failure",
                );
                let ok = state.mode != Mode::Isolated && (grave || state.failed_auth_count > cfg.security.max_failed_auth
                    || proposal.threat_score.gt(cfg.security.threat_score_isolation));
                let reason = if ok {
                    let mut s = "Isolation approved: ".to_string();
                    s.append(found.as_str());
                    s
                } else {
                    "Insufficient threat score and unrecognized AI reason for isolation".to_string()
                };
                (ok, reason)
            },
            ProposalAction::BeginReconnect => {
                let ok = state.mode == Mode::Isolated && !threat && !strained;
                let reason = if ok {
                    "Network conditions stable, reconnect approved".to_string()
                } else if threat {
                    between("Reconnect denied: unresolved security breach (", &state.ai_state_reason, ")")
                } else {
                    "Reconnect denied: wrong mode or high auth failures".to_string()
                };
                (ok, reason)
            },
            ProposalAction::ExitIsolation => {
                let right_mode = state.mode == Mode::Reconnecting;
                let reason = if !right_mode {
                    between("Cannot exit Isolation: node is in ", &state.mode.name(), " mode")
                } else if threat {
                    between(
                        "Exit denied: new security threat detected during reconnect (",
                        &state.ai_state_reason,
                        ")",
                    )
                } else {
                    "Recovery process complete, returning to normal operations".to_string()
                };
                (right_mode && !threat, reason)
            },
            ProposalAction::ExitCalibration => Self::judge_exit_calibration(state, cfg, latest, Ghost(proposal@)),
            ProposalAction::DoNothing => (true, "No action required".to_string()),
        }
    }

    pub(crate) fn count_boosted(latest: &Vec<&NodeSignal>) -> (n: usize)
        ensures
            n == boosted(referred(latest@)),
            n <= latest@.len(),
    {
        let keep = |x: &NodeSignal| -> (b: bool)
            ensures
                b == is_boosted(x@),
            { x.mode == Mode::Boosted };
        count(latest, keep, Ghost(|s: SignalView| is_boosted(s)))
    }

    fn count_throttled(latest: &Vec<&NodeSignal>) -> (n: usize)
        ensures
            n == throttled(referred(latest@)),
            n <= latest@.len(),
    {
        let keep = |x: &NodeSignal| -> (b: bool)
            ensures
                b == is_throttled(x@),
            { x.mode == Mode::Throttled || x.mode == Mode::Degraded };
        count(latest, keep, Ghost(|s: SignalView| is_throttled(s)))
    }

    fn judge_increase(
        proposal: &Proposal,
        state: &NodeState,
        cfg: &Config,
        latest: &Vec<&NodeSignal>,
        threat: bool,
        adjustable: bool,
    ) -> (verdict: (bool, String))
        requires
            proposal.action == ProposalAction::IncreaseLoad,
            latest@.len() <= 0x1_0000_0000,
            threat == security_threat(state@, *cfg),
            adjustable == self::adjustable(state.mode),
        ensures
            verdict.0 == allowed(proposal@, state@, *cfg, referred(latest@)),
            verdict.1@ == reason(proposal@, state@, *cfg, referred(latest@)),
    {
        let ceiling: u8 = cfg.load_calibration.boost_ceiling;
        let found = &proposal.predicted_state;
        let redistribution = is_text(found, "low_load_neighbor_failure_relay") || is_text(
            found,
            "absorbing_neighbor_overload",
        ) || is_text(found, "absorbing_isolated_node_load") || is_text(found, "load_on_network_has_increased");
        let total_load: u64 = add_loads_whole(latest);
        assert(latest@.len() * ceiling <= 0x1_0000_0000 * 255) by (nonlinear_arith)
            requires
                latest@.len() <= 0x1_0000_0000,
                ceiling <= 255,
        ;
        let capacity: u64 = latest.len() as u64 * ceiling as u64;
        let used = share_of(total_load, capacity, Single { bits: 0 });
        assert(used == utilization(referred(latest@), *cfg));
        if used.gt(Single { bits: FULL_SHARE }) && !redistribution {
            let throttled = Self::count_throttled(latest);
            return (
                false,
                with_share(
                    "Network overloaded (",
                    throttled,
                    latest.len(),
                    " throttled) — IncreaseLoad blocked to prevent cascade",
                ),
            );
        }
        let ok = adjustable && state.load < ceiling && !threat;
        let reason = if ok {
            if redistribution {
                "Redistribution approved: headroom available".to_string()
            } else {
                "Load increase approved: headroom available".to_string()
            }
        } else if threat {
            between("Cannot increase load: active security threat (", &state.ai_state_reason, ")")
        } else if !adjustable {
            between("Cannot increase load from current mode (", &state.mode.name(), ")")
        } else {
            "Cannot increase load: already at boost ceiling".to_string()
        };
        (ok, reason)
    }

    fn judge_exit_calibration(
        state: &NodeState,
        cfg: &Config,
        latest: &Vec<&NodeSignal>,
        Ghost(proposal): Ghost<ProposalView>,
    ) -> (verdict: (bool, String))
        requires
            proposal.action == ProposalAction::ExitCalibration,
            latest@.len() <= 0x1_0000_0000,
        ensures
            verdict.0 == allowed(proposal, state@, *cfg, referred(latest@)),
            verdict.1@ == reason(proposal, state@, *cfg, referred(latest@)),
    {
        let usual: u8 = cfg.node_defaults.load;
        let ceiling: u8 = cfg.load_calibration.boost_ceiling;
        let ghost h = referred(latest@);
        let in_calibration = state.mode == Mode::Boosted || state.mode == Mode::Throttled;
        let hold_elapsed = state.load_hold_ticks_left == 0;
        let plain = |x: &NodeSignal| -> (n: u64)
            ensures
                n == plain_load(x@, usual),
                n <= u8::MAX,
            {
                if x.mode == Mode::Boosted && x.load > usual {
                    usual as u64
                } else {
                    x.load as u64
                }
            };
        let total_load: u64 = add_whole(latest, plain, Ghost(|s: SignalView| plain_load(s, usual)));
        assert(latest@.len() * usual <= 0x1_0000_0000 * 255) by (nonlinear_arith)
            requires
                latest@.len() <= 0x1_0000_0000,
                usual <= 255,
        ;
        let capacity: u64 = latest.len() as u64 * usual as u64;
        let relative = share_of(total_load, capacity, Single { bits: ONE });
        assert(relative == relative_utilization(h, *cfg));
        let over = |x: &NodeSignal| -> (b: bool)
            ensures
                b == is_congested(x@, ceiling),
            { (x.mode == Mode::Throttled || x.mode == Mode::Degraded) && x.load > ceiling };
        let still_over: usize = count(latest, over, Ghost(|s: SignalView| is_congested(s, ceiling)));
        let congested = latest.len() > 0 && still_over as u64 * 2 >= latest.len() as u64;
        assert(congested == self::congested(h, *cfg));
        let self_overloaded = state.load > usual;
        let persists = match state.mode {
            Mode::Throttled => self_overloaded || relative.gt(Single { bits: THROTTLED_SHARE }) || congested,
            Mode::Boosted => relative.gt(Single { bits: BOOSTED_SHARE }) || Self::count_throttled(latest) > 0,
            _ => false,
        };
        let reason = if !in_calibration {
            between("Cannot exit calibration: node is in ", &state.mode.name(), " mode")
        } else if !hold_elapsed {
            "Cannot exit calibration: hold period not yet elapsed".to_string()
        } else if persists {
            let mut s = between(
                "Cannot exit calibration: load anomaly persists (mode: ",
                &state.mode.name(),
                ", relative util: ",
            );
            push_hundredths(&mut s, relative);
            s.append(", self overloaded: ");
            push_truth(&mut s, self_overloaded);
            s.append(")");
            s
        } else {
            "Calibration hold elapsed and metrics stabilized, returning to Normal".to_string()
        };
        (in_calibration && hold_elapsed && !persists, reason)
    }
}

/// A node that is a threat is not given more load.
pub proof fn law_no_increase_under_threat(
    proposal: ProposalView,
    state: StateView,
    cfg: Config,
    heard: Seq<SignalView>,
)
    requires
        proposal.action == ProposalAction::IncreaseLoad,
        security_threat(state, cfg),
    ensures
        !allowed(proposal, state, cfg, heard),
{
}

/// An isolated node may do nothing but begin its way back, and that only where it is no threat and
/// not strained.
pub proof fn law_isolation_is_left_by_reconnecting(
    proposal: ProposalView,
    state: StateView,
    cfg: Config,
    heard: Seq<SignalView>,
)
    requires
        state.mode == Mode::Isolated,
        allowed(proposal, state, cfg, heard),
    ensures
        proposal.action == ProposalAction::DoNothing || proposal.action == ProposalAction::BeginReconnect,
        proposal.action == ProposalAction::BeginReconnect ==> !security_threat(state, cfg) && !strained(state, cfg),
{
}

/// A node on its way back does not move its load, and works normally again only by leaving its
/// isolation, which it may not while it is a threat.
pub proof fn law_reconnecting_ends_by_exit(
    proposal: ProposalView,
    state: StateView,
    cfg: Config,
    current_tick: u64,
    heard: Seq<SignalView>,
)
    requires
        state.mode == Mode::Reconnecting,
        allowed(proposal, state, cfg, heard),
    ensures
        ({
            let after = carried_out(proposal.action, state, cfg, current_tick);
            &&& after.load == state.load
            &&& after.mode == Mode::Normal <==> proposal.action == ProposalAction::ExitIsolation
            &&& after.mode == Mode::Normal ==> !security_threat(state, cfg)
        }),
{
}

} // verus!
