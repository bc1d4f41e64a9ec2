//! Carrying out what the supervisor has let through.

use vstd::prelude::*;

use crate::config::Config;
use crate::node::{Mode, NodeState, SignalType, StateView};
use crate::proposal::{Proposal, ProposalAction};
use crate::single::{
    law_one_and_more, law_product_lowers, law_product_raises, law_rest_of_one, law_rounded_in_order, law_whole_exact, Single,
    ONE,
};

verus! {

/// The pattern of 0.2: the share of its usual connections that a node never drops.
pub const KEPT_SHARE: u32 = 0x3e4c_cccd;

pub struct Executor;

/// The number brought into the range of a byte.
pub open spec fn byte(n: nat) -> u8 {
    if n > u8::MAX { u8::MAX } else { n as u8 }
}

/// The load after one step down.
pub open spec fn reduced_load(load: u8, cfg: Config) -> u8 {
    let lc = cfg.load_calibration;
    byte(
        Single::whole(load as nat).product(Single { bits: ONE }.difference(lc.reduce_factor)).larger(
            Single::whole(lc.reduce_floor as nat),
        ).rounded(),
    )
}

/// The load after one step up.
pub open spec fn increased_load(load: u8, cfg: Config) -> u8 {
    let lc = cfg.load_calibration;
    byte(
        Single::whole(load as nat).product(Single { bits: ONE }.sum(lc.boost_factor)).smaller(
            Single::whole(lc.boost_ceiling as nat),
        ).rounded(),
    )
}

/// The new load as a share of the old one.
pub open spec fn load_ratio(old_load: u8, new_load: u8) -> Single {
    if old_load > 0 {
        Single::whole(new_load as nat).quotient(Single::whole(old_load as nat))
    } else {
        Single { bits: ONE }
    }
}

/// The connections after a step down: they follow the load by `conn_scale_factor`, and a fifth of
/// the usual number always stays.
pub open spec fn reduced_connections(connections: u8, ratio: Single, cfg: Config) -> u8 {
    let one = Single { bits: ONE };
    let scale = one.difference(one.difference(ratio).product(cfg.load_calibration.conn_scale_factor));
    let followed = byte(Single::whole(connections as nat).product(scale).rounded());
    let kept = byte(
        Single::whole(cfg.node_defaults.active_connections as nat).product(Single { bits: KEPT_SHARE }).ceiling(),
    );
    if followed < kept { kept } else { followed }
}

/// The connections after a step up: they follow the load by `conn_scale_factor`, up to twice the
/// usual number.
pub open spec fn increased_connections(connections: u8, ratio: Single, cfg: Config) -> u8 {
    let one = Single { bits: ONE };
    let scale = one.sum(ratio.difference(one).product(cfg.load_calibration.conn_scale_factor));
    let followed = byte(Single::whole(connections as nat).product(scale).rounded());
    let most = (2 * cfg.node_defaults.active_connections) as u8;
    if followed > most { most } else { followed }
}

/// The state after a step down.
pub open spec fn after_reduction(state: StateView, cfg: Config, current_tick: u64) -> StateView {
    let target = reduced_load(state.load, cfg);
    StateView {
        load: target,
        mode: Mode::Throttled,
        state_entered_tick: current_tick,
        active_connections: reduced_connections(state.active_connections, load_ratio(state.load, target), cfg),
        load_hold_ticks_left: cfg.load_calibration.hold_ticks,
        pending_load_signal: Some(SignalType::LoadReduced),
        ..state
    }
}

/// The state after a step up.
pub open spec fn after_increase(state: StateView, cfg: Config, current_tick: u64) -> StateView {
    let target = increased_load(state.load, cfg);
    StateView {
        load: target,
        mode: Mode::Boosted,
        state_entered_tick: current_tick,
        active_connections: increased_connections(state.active_connections, load_ratio(state.load, target), cfg),
        load_hold_ticks_left: cfg.load_calibration.hold_ticks,
        pending_load_signal: Some(SignalType::LoadBoosted),
        ..state
    }
}

/// The state after the action.
pub open spec fn carried_out(action: ProposalAction, state: StateView, cfg: Config, current_tick: u64) -> StateView {
    match action {
        ProposalAction::ReduceLoad => after_reduction(state, cfg, current_tick),
        ProposalAction::IncreaseLoad => after_increase(state, cfg, current_tick),
        ProposalAction::EnterDegraded => StateView {
            mode: Mode::Degraded,
            state_entered_tick: current_tick,
            ..state
        },
        ProposalAction::ExitDegraded | ProposalAction::ExitIsolation => StateView {
            mode: Mode::Normal,
            state_entered_tick: current_tick,
            ..state
        },
        ProposalAction::EnterIsolation => StateView {
            mode: Mode::Isolated,
            load_hold_ticks_left: 0,
            state_entered_tick: current_tick,
            pending_load_signal: Some(SignalType::Isolation),
            ..state
        },
        ProposalAction::BeginReconnect => StateView {
            mode: Mode::Reconnecting,
            state_entered_tick: current_tick,
            ..state
        },
        ProposalAction::ExitCalibration => StateView {
            mode: Mode::Normal,
            state_entered_tick: current_tick,
            load_hold_ticks_left: 0,
            ..state
        },
        ProposalAction::DoNothing => state,
    }
}

/// A node that lowers its load does not go below the floor.
pub proof fn law_reduce_floor(load: u8, cfg: Config)
    ensures
        reduced_load(load, cfg) >= cfg.load_calibration.reduce_floor,
{
    let lc = cfg.load_calibration;
    let x = Single::whole(load as nat).product(Single { bits: ONE }.difference(lc.reduce_factor));
    let y = Single::whole(lc.reduce_floor as nat);
    law_whole_exact(lc.reduce_floor as nat);
    law_rounded_in_order(y, x.larger(y));
}

/// A node that raises its load does not go above the ceiling.
pub proof fn law_boost_ceiling(load: u8, cfg: Config)
    ensures
        increased_load(load, cfg) <= cfg.load_calibration.boost_ceiling,
{
    let lc = cfg.load_calibration;
    let x = Single::whole(load as nat).product(Single { bits: ONE }.sum(lc.boost_factor));
    let y = Single::whole(lc.boost_ceiling as nat);
    law_whole_exact(lc.boost_ceiling as nat);
    law_rounded_in_order(x.smaller(y), y);
}

/// A step down by a share from zero to one never raises the load, unless it lies below the floor, and a step up by such a
/// share never lowers it, unless it lies above the ceiling.
pub proof fn law_steps_go_their_way(load: u8, cfg: Config)
    ensures
        !cfg.load_calibration.reduce_factor.negative() && cfg.load_calibration.reduce_factor.at_most(Single { bits: ONE })
            ==> reduced_load(load, cfg) <= load || reduced_load(load, cfg) == cfg.load_calibration.reduce_floor,
        !cfg.load_calibration.boost_factor.negative() && cfg.load_calibration.boost_factor.at_most(Single { bits: ONE })
            ==> increased_load(load, cfg) >= load || increased_load(load, cfg) == cfg.load_calibration.boost_ceiling,
{
    let lc = cfg.load_calibration;
    let whole = Single::whole(load as nat);
    let floor = Single::whole(lc.reduce_floor as nat);
    let ceiling = Single::whole(lc.boost_ceiling as nat);
    law_whole_exact(load as nat);
    law_whole_exact(lc.reduce_floor as nat);
    law_whole_exact(lc.boost_ceiling as nat);
    if !lc.reduce_factor.negative() && lc.reduce_factor.at_most(Single { bits: ONE }) {
        let k = Single { bits: ONE }.difference(lc.reduce_factor);
        law_rest_of_one(lc.reduce_factor);
        law_product_lowers(load as nat, k);
        law_rounded_in_order(whole.product(k), whole);
    }
    if !lc.boost_factor.negative() && lc.boost_factor.at_most(Single { bits: ONE }) {
        let k = Single { bits: ONE }.sum(lc.boost_factor);
        law_one_and_more(lc.boost_factor);
        law_product_raises(load as nat, k);
        law_rounded_in_order(whole, whole.product(k));
    }
}

/// A node that raises its load has twice its usual connections at most.
pub proof fn law_connection_ceiling(connections: u8, ratio: Single, cfg: Config)
    requires
        cfg.valid(),
    ensures
        increased_connections(connections, ratio, cfg) <= 2 * cfg.node_defaults.active_connections,
{
}

/// Only the steps of the load and the start of isolation leave something to tell the neighbours, and
/// an action that is none of these leaves it as it was.
pub proof fn law_action_tells(action: ProposalAction, state: StateView, cfg: Config, current_tick: u64)
    ensures
        carried_out(action, state, cfg, current_tick).pending_load_signal == match action {
            ProposalAction::ReduceLoad => Some(SignalType::LoadReduced),
            ProposalAction::IncreaseLoad => Some(SignalType::LoadBoosted),
            ProposalAction::EnterIsolation => Some(SignalType::Isolation),
            _ => state.pending_load_signal,
        },
{
}

/// What each action does beside the load and connections: it sets the mode and notes the tick, and moving the load starts a
/// hold, while leaving the network or returning to the usual load ends one. Doing nothing does nothing, and no action
/// changes the score, the finding, the temperature, the failed logins or the last sync.
pub proof fn law_action_sets_mode(action: ProposalAction, state: StateView, cfg: Config, current_tick: u64)
    ensures
        ({
            let after = carried_out(action, state, cfg, current_tick);
            let moves = action == ProposalAction::ReduceLoad || action == ProposalAction::IncreaseLoad;
            &&& after.mode == match action {
                ProposalAction::ReduceLoad => Mode::Throttled,
                ProposalAction::IncreaseLoad => Mode::Boosted,
                ProposalAction::EnterDegraded => Mode::Degraded,
                ProposalAction::ExitDegraded => Mode::Normal,
                ProposalAction::EnterIsolation => Mode::Isolated,
                ProposalAction::ExitIsolation => Mode::Normal,
                ProposalAction::BeginReconnect => Mode::Reconnecting,
                ProposalAction::ExitCalibration => Mode::Normal,
                ProposalAction::DoNothing => state.mode,
            }
            &&& action != ProposalAction::DoNothing ==> after.state_entered_tick == current_tick
            &&& action == ProposalAction::DoNothing ==> after == state
            &&& moves ==> after.load_hold_ticks_left == cfg.load_calibration.hold_ticks
            &&& action == ProposalAction::EnterIsolation || action == ProposalAction::ExitCalibration
                ==> after.load_hold_ticks_left == 0
            &&& !moves ==> after.load == state.load && after.active_connections == state.active_connections
            &&& after.temperature == state.temperature
            &&& after.failed_auth_count == state.failed_auth_count
            &&& after.last_sync_time == state.last_sync_time
            &&& after.ai_state_reason == state.ai_state_reason
            &&& after.last_threat_score == state.last_threat_score
            &&& after.threat_score_history == state.threat_score_history
        }),
{
}

/// Brings a number into the range of a byte.
pub(crate) fn to_byte(n: u64) -> (b: u8)
    ensures
        b == byte(n as nat),
{
    if n > 255 { 255 } else { n as u8 }
}

impl Executor {
    /// Carries out the proposal.
    pub fn apply(&self, proposal: &Proposal, state: &mut NodeState, cfg: &Config, current_tick: u64)
        requires
            proposal.action == ProposalAction::IncreaseLoad ==> cfg.valid(),
        ensures
            final(state)@ == carried_out(proposal.action, old(state)@, *cfg, current_tick),
    {
        match proposal.action {
            ProposalAction::ReduceLoad => {
                self.apply_reduce_load(state, cfg, current_tick);
            },
            ProposalAction::IncreaseLoad => {
                self.apply_increase_load(state, cfg, current_tick);
            },
            ProposalAction::EnterDegraded => {
                state.mode = Mode::Degraded;
                state.state_entered_tick = current_tick;
            },
            ProposalAction::ExitDegraded => {
                state.mode = Mode::Normal;
                state.state_entered_tick = current_tick;
            },
            ProposalAction::EnterIsolation => {
                state.mode = Mode::Isolated;
                state.load_hold_ticks_left = 0;
                state.state_entered_tick = current_tick;
                state.pending_load_signal = Some(SignalType::Isolation);
            },
            ProposalAction::ExitIsolation => {
                state.mode = Mode::Normal;
                state.state_entered_tick = current_tick;
            },
            ProposalAction::BeginReconnect => {
                state.mode = Mode::Reconnecting;
                state.state_entered_tick = current_tick;
            },
            ProposalAction::ExitCalibration => {
                state.mode = Mode::Normal;
                state.state_entered_tick = current_tick;
                state.load_hold_ticks_left = 0;
            },
            ProposalAction::DoNothing => {},
        }
        assert(state@ =~= carried_out(proposal.action, old(state)@, *cfg, current_tick));
    }

    fn ratio(old_load: u8, new_load: u8) -> (r: Single)
        ensures
            r == load_ratio(old_load, new_load),
    {
        if old_load > 0 {
            Single::from_whole(new_load as u64).over(Single::from_whole(old_load as u64))
        } else {
            Single { bits: ONE }
        }
    }

    fn apply_reduce_load(&self, state: &mut NodeState, cfg: &Config, current_tick: u64)
        ensures
            final(state)@ == after_reduction(old(state)@, *cfg, current_tick),
    {
        let lc = &cfg.load_calibration;
        let one = Single { bits: ONE };
        let old_load: u8 = state.load;
        let target: u8 = to_byte(
            Single::from_whole(old_load as u64).times(one.minus(lc.reduce_factor)).max(
                Single::from_whole(lc.reduce_floor as u64),
            ).round(),
        );
        state.load = target;
        state.mode = Mode::Throttled;
        state.state_entered_tick = current_tick;

        let scale = one.minus(one.minus(Self::ratio(old_load, target)).times(lc.conn_scale_factor));
        let followed: u8 = to_byte(Single::from_whole(state.active_connections as u64).times(scale).round());
        let kept: u8 = to_byte(
            Single::from_whole(cfg.node_defaults.active_connections as u64).times(Single { bits: KEPT_SHARE }).ceil(),
        );
        state.active_connections = if followed < kept { kept } else { followed };

        state.load_hold_ticks_left = lc.hold_ticks;
        state.pending_load_signal = Some(SignalType::LoadReduced);
    }

    fn apply_increase_load(&self, state: &mut NodeState, cfg: &Config, current_tick: u64)
        requires
            cfg.valid(),
        ensures
            final(state)@ == after_increase(old(state)@, *cfg, current_tick),
    {
        let lc = &cfg.load_calibration;
        let one = Single { bits: ONE };
        let old_load: u8 = state.load;
        let target: u8 = to_byte(
            Single::from_whole(old_load as u64).times(one.plus(lc.boost_factor)).min(
                Single::from_whole(lc.boost_ceiling as u64),
            ).round(),
        );
        state.load = target;
        state.mode = Mode::Boosted;
        state.state_entered_tick = current_tick;

        let scale = one.plus(Self::ratio(old_load, target).minus(one).times(lc.conn_scale_factor));
        let followed: u8 = to_byte(Single::from_whole(state.active_connections as u64).times(scale).round());
        let most: u8 = cfg.node_defaults.active_connections * 2;
        state.active_connections = if followed > most { most } else { followed };

        state.load_hold_ticks_left = lc.hold_ticks;
        state.pending_load_signal = Some(SignalType::LoadBoosted);
    }
}

} // verus!
