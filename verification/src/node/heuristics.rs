//! Sharing load between neighbours without a model.

use vstd::prelude::*;

use crate::node::signals::{
    add_loads, add_up, all_of, all_signals, count_sources, fresh, fresh_of, fresh_signals, newest, newest_signals, referred,
    running_sum, select, source_ids, sources,
};
use crate::node::{Mode, Node, NodeSignal, NodeView, SignalType, SignalView};
use crate::proposal::{Proposal, ProposalAction, ProposalView};
use crate::single::{Single, ONE};
use crate::text::{decimal, id_list, push_decimal, push_id_list, push_rounded, rounded_text};

verus! {

/// The value of a proposal that may not have been made.
pub open spec fn proposed(p: Option<Proposal>) -> Option<ProposalView> {
    match p {
        Some(p) => Some(p@),
        None => None,
    }
}

/// A fresh signal of the given type that is for every neighbour.
pub open spec fn advises(x: SignalView, advice: SignalType, current_tick: u64, ttl: u64) -> bool {
    &&& x.target_id is None
    &&& x.signal_type == advice
    &&& fresh(x, current_tick, ttl)
}

pub open spec fn load_of(x: SignalView) -> Single {
    Single::whole(x.load as nat)
}

/// A neighbour that has throttled itself and still carries more than `norm`.
pub open spec fn overloaded(x: SignalView, norm: Single, current_tick: u64, ttl: u64) -> bool {
    &&& x.target_id is None
    &&& x.signal_type == SignalType::LoadReduced
    &&& x.mode == Mode::Throttled
    &&& norm.below(load_of(x))
    &&& fresh(x, current_tick, ttl)
}

/// A boosted neighbour that carries less than `norm`.
pub open spec fn underloaded(x: SignalView, norm: Single, current_tick: u64, ttl: u64) -> bool {
    &&& x.target_id is None
    &&& x.mode == Mode::Boosted
    &&& load_of(x).below(norm)
    &&& fresh(x, current_tick, ttl)
}

/// `amount` as a share of itself and `room`, at most one.
pub open spec fn share_with(amount: Single, room: Single) -> Single {
    amount.quotient(amount.sum(room)).smaller(Single { bits: ONE })
}

/// Who sent the signals, in their order.
pub open spec fn senders(s: Seq<SignalView>) -> Seq<u32> {
    s.map_values(|x: SignalView| x.source_id)
}

impl NodeView {
    pub open spec fn ttl(self) -> u64 {
        self.config.security.stale_ttl
    }

    /// How many neighbours give this advice.
    pub open spec fn votes(self, advice: SignalType, current_tick: u64) -> nat {
        sources(all_of(self.neighbor_signals).filter(|x: SignalView| advises(x, advice, current_tick, self.ttl()))).len()
    }

    /// More than half of the neighbours give this advice.
    pub open spec fn majority(self, advice: SignalType, current_tick: u64) -> bool {
        self.neighbor_ids.len() > 0 && self.votes(advice, current_tick) >= self.neighbor_ids.len() / 2 + 1
    }

    /// What the node makes of its neighbours' advice.
    pub open spec fn advisory_proposal(self, current_tick: u64) -> Option<ProposalView> {
        let mode = self.state.mode;
        if self.majority(SignalType::ReduceLoad, current_tick) && (mode == Mode::Normal || mode == Mode::Throttled)
            && self.state.load > self.config.load_calibration.reduce_floor {
            Some(
                ProposalView {
                    action: ProposalAction::ReduceLoad,
                    threat_score: self.state.last_threat_score,
                    predicted_state: "high_load_network_overload"@,
                    event_reason: decimal(self.votes(SignalType::ReduceLoad, current_tick)) + "/"@ + decimal(
                        self.neighbor_ids.len(),
                    ) + " neighbors signalled overload — reducing load further"@,
                    confidence: Single::whole(self.votes(SignalType::ReduceLoad, current_tick)).quotient(
                        Single::whole(self.neighbor_ids.len()),
                    ),
                },
            )
        } else if self.majority(SignalType::BoostLoad, current_tick) && (mode == Mode::Normal || mode == Mode::Boosted)
            && self.state.load < self.config.load_calibration.boost_ceiling {
            Some(
                ProposalView {
                    action: ProposalAction::IncreaseLoad,
                    threat_score: self.state.last_threat_score,
                    predicted_state: "load_on_network_has_increased"@,
                    event_reason: decimal(self.votes(SignalType::BoostLoad, current_tick)) + "/"@ + decimal(
                        self.neighbor_ids.len(),
                    ) + " neighbors signalled spare capacity — boosting load further"@,
                    confidence: Single::whole(self.votes(SignalType::BoostLoad, current_tick)).quotient(
                        Single::whole(self.neighbor_ids.len()),
                    ),
                },
            )
        } else {
            None
        }
    }

    /// The average load of the fresh signals; the usual load where there are none.
    pub open spec fn norm_load(self, current_tick: u64) -> Single {
        let f = fresh_of(all_of(self.neighbor_signals), current_tick, self.ttl());
        if f.len() == 0 {
            Single::whole(self.config.node_defaults.load as nat)
        } else {
            running_sum(f, |x: SignalView| Single::whole(x.load as nat)).quotient(Single::whole(f.len()))
        }
    }

    /// What the node could still take on.
    pub open spec fn headroom(self) -> Single {
        Single::whole(self.config.load_calibration.boost_ceiling as nat).difference(
            Single::whole(self.state.load as nat),
        )
    }

    /// The overloaded neighbours, by their newest signal.
    pub open spec fn overloaded_neighbors(self, current_tick: u64) -> Seq<SignalView> {
        let norm = self.norm_load(current_tick);
        newest(all_of(self.neighbor_signals).filter(|x: SignalView| overloaded(x, norm, current_tick, self.ttl())))
    }

    /// What the overloaded neighbours carry above the norm.
    pub open spec fn excess(self, current_tick: u64) -> Single {
        let norm = self.norm_load(current_tick);
        running_sum(
            self.overloaded_neighbors(current_tick),
            |x: SignalView| load_of(x).difference(norm).larger(Single { bits: 0 }),
        )
    }

    /// Taking load off overloaded neighbours.
    pub open spec fn overload_proposal(self, current_tick: u64) -> Option<ProposalView> {
        let found = self.overloaded_neighbors(current_tick);
        let mode = self.state.mode;
        if (mode == Mode::Normal || mode == Mode::Throttled) && self.state.load
            < self.config.load_calibration.boost_ceiling && found.len() > 0 {
            Some(
                ProposalView {
                    action: ProposalAction::IncreaseLoad,
                    threat_score: self.state.last_threat_score,
                    predicted_state: "high_load_neighbor_failure_relay"@,
                    event_reason: "Neighbor(s) "@ + id_list(senders(found))
                        + " throttled but still overloaded (excess "@ + rounded_text(self.excess(current_tick))
                        + " above norm "@ + rounded_text(self.norm_load(current_tick))
                        + ") — absorbing share within headroom "@ + rounded_text(self.headroom()),
                    confidence: share_with(self.excess(current_tick), self.headroom()),
                },
            )
        } else {
            None
        }
    }

    /// What the node could still shed.
    pub open spec fn reducible(self) -> Single {
        Single::whole(self.state.load as nat).difference(
            Single::whole(self.config.load_calibration.reduce_floor as nat),
        )
    }

    /// The underloaded neighbours, by their newest signal.
    pub open spec fn underloaded_neighbors(self, current_tick: u64) -> Seq<SignalView> {
        let norm = self.norm_load(current_tick);
        newest(all_of(self.neighbor_signals).filter(|x: SignalView| underloaded(x, norm, current_tick, self.ttl())))
    }

    /// What the underloaded neighbours carry below the norm.
    pub open spec fn deficit(self, current_tick: u64) -> Single {
        let norm = self.norm_load(current_tick);
        running_sum(
            self.underloaded_neighbors(current_tick),
            |x: SignalView| norm.difference(load_of(x)).larger(Single { bits: 0 }),
        )
    }

    /// Answering boosted neighbours that carry little.
    pub open spec fn underload_proposal(self, current_tick: u64) -> Option<ProposalView> {
        let found = self.underloaded_neighbors(current_tick);
        let mode = self.state.mode;
        if (mode == Mode::Normal || mode == Mode::Boosted) && self.state.load > self.config.load_calibration.reduce_floor
            && found.len() > 0 {
            Some(
                ProposalView {
                    action: ProposalAction::IncreaseLoad,
                    threat_score: self.state.last_threat_score,
                    predicted_state: "low_load_neighbor_failure_relay"@,
                    event_reason: "Neighbor(s) "@ + id_list(senders(found)) + " Boosted but underloaded (deficit "@
                        + rounded_text(self.deficit(current_tick)) + " below norm "@ + rounded_text(
                        self.norm_load(current_tick),
                    ) + ") — shedding share to balance within floor"@,
                    confidence: share_with(self.deficit(current_tick), self.reducible()),
                },
            )
        } else {
            None
        }
    }

    /// The neighbours that say that they are isolated, by their newest such signal.
    pub open spec fn isolating_neighbors(self, current_tick: u64) -> Seq<SignalView> {
        newest(
            all_of(self.neighbor_signals).filter(
                |x: SignalView| advises(x, SignalType::Isolation, current_tick, self.ttl()),
            ),
        )
    }

    /// The load of the neighbours that are isolated.
    pub open spec fn lost(self, current_tick: u64) -> Single {
        running_sum(self.isolating_neighbors(current_tick), |x: SignalView| Single::whole(x.load as nat))
    }

    /// Taking over the load of isolated neighbours.
    pub open spec fn isolation_proposal(self, current_tick: u64) -> Option<ProposalView> {
        let found = self.isolating_neighbors(current_tick);
        if self.state.mode == Mode::Normal && self.state.load < self.config.load_calibration.boost_ceiling && found.len()
            > 0 {
            Some(
                ProposalView {
                    action: ProposalAction::IncreaseLoad,
                    threat_score: self.state.last_threat_score,
                    predicted_state: "low_load_neighbor_failure_relay"@,
                    event_reason: "Node(s) "@ + id_list(senders(found)) + " entering isolation (total load "@
                        + rounded_text(self.lost(current_tick))
                        + " dropped from network) — absorbing share within headroom "@ + rounded_text(self.headroom()),
                    confidence: share_with(self.lost(current_tick), self.headroom()),
                },
            )
        } else {
            None
        }
    }

    /// A majority still asks for what the node has done.
    pub open spec fn pressure(self, current_tick: u64) -> bool {
        match self.state.mode {
            Mode::Throttled => self.majority(SignalType::ReduceLoad, current_tick),
            Mode::Boosted => self.majority(SignalType::BoostLoad, current_tick),
            _ => false,
        }
    }
}

fn shared(amount: Single, room: Single) -> (s: Single)
    ensures
        s == share_with(amount, room),
{
    amount.over(amount.plus(room)).min(Single { bits: ONE })
}

impl Node {
    fn count_votes(&self, advice: SignalType, current_tick: u64) -> (n: usize)
        ensures
            n == self@.votes(advice, current_tick),
    {
        let ttl: u64 = self.config.security.stale_ttl;
        let all = all_signals(&self.neighbor_signals);
        let given = |x: &NodeSignal| -> (b: bool)
            ensures
                b == advises(x@, advice, current_tick, ttl),
            {
                x.target_id.is_none() && x.signal_type == advice && current_tick.saturating_sub(x.timestamp) <= ttl
            };
        let votes = select(&all, given, Ghost(|x: SignalView| advises(x, advice, current_tick, ttl)));
        count_sources(&votes)
    }

    /// Follows the advice of a majority of the neighbours.
    pub fn process_load_advisories(&self, current_tick: u64) -> (p: Option<Proposal>)
        ensures
            proposed(p) == self@.advisory_proposal(current_tick),
    {
        let neighbor_count: usize = self.neighbor_ids.len();
        if neighbor_count == 0 {
            return None;
        }
        let reduce_votes: usize = self.count_votes(SignalType::ReduceLoad, current_tick);
        let boost_votes: usize = self.count_votes(SignalType::BoostLoad, current_tick);
        let half: usize = neighbor_count / 2;
        let can_reduce = matches!(self.state.mode, Mode::Normal | Mode::Throttled);
        if reduce_votes > half && can_reduce && self.state.load > self.config.load_calibration.reduce_floor {
            let mut event_reason = String::new();
            push_decimal(&mut event_reason, reduce_votes as u128);
            event_reason.append("/");
            push_decimal(&mut event_reason, neighbor_count as u128);
            event_reason.append(" neighbors signalled overload — reducing load further");
            let p = Proposal {
                action: ProposalAction::ReduceLoad,
                threat_score: self.state.last_threat_score,
                predicted_state: "high_load_network_overload".to_string(),
                event_reason,
                confidence: Single::from_whole(reduce_votes as u64).over(Single::from_whole(neighbor_count as u64)),
            };
            assert(p@ =~= self@.advisory_proposal(current_tick).unwrap());
            return Some(p);
        }
        let can_boost = matches!(self.state.mode, Mode::Normal | Mode::Boosted);
        if boost_votes > half && can_boost && self.state.load < self.config.load_calibration.boost_ceiling {
            let mut event_reason = String::new();
            push_decimal(&mut event_reason, boost_votes as u128);
            event_reason.append("/");
            push_decimal(&mut event_reason, neighbor_count as u128);
            event_reason.append(" neighbors signalled spare capacity — boosting load further");
            let p = Proposal {
                action: ProposalAction::IncreaseLoad,
                threat_score: self.state.last_threat_score,
                predicted_state: "load_on_network_has_increased".to_string(),
                event_reason,
                confidence: Single::from_whole(boost_votes as u64).over(Single::from_whole(neighbor_count as u64)),
            };
            assert(p@ =~= self@.advisory_proposal(current_tick).unwrap());
            return Some(p);
        }
        None
    }

    fn neighbors_norm_load(&self, current_tick: u64) -> (norm: Single)
        ensures
            norm == self@.norm_load(current_tick),
    {
        let all = all_signals(&self.neighbor_signals);
        let fresh = fresh_signals(&all, current_tick, self.config.security.stale_ttl);
        assert(referred(fresh@).len() == fresh@.len());
        if fresh.len() == 0 {
            return Single::from_whole(self.config.node_defaults.load as u64);
        }
        add_loads(&fresh).over(Single::from_whole(fresh.len() as u64))
    }

    /// Takes load off neighbours that have throttled themselves and are still overloaded.
    pub fn process_overload_redistribution(&self, current_tick: u64) -> (p: Option<Proposal>)
        ensures
            proposed(p) == self@.overload_proposal(current_tick),
    {
        if !matches!(self.state.mode, Mode::Normal | Mode::Throttled) {
            return None;
        }
        if self.state.load >= self.config.load_calibration.boost_ceiling {
            return None;
        }
        let ttl: u64 = self.config.security.stale_ttl;
        let norm = self.neighbors_norm_load(current_tick);
        let headroom = Single::from_whole(self.config.load_calibration.boost_ceiling as u64).minus(
            Single::from_whole(self.state.load as u64),
        );
        let all = all_signals(&self.neighbor_signals);
        let over = |x: &NodeSignal| -> (b: bool)
            ensures
                b == overloaded(x@, norm, current_tick, ttl),
            {
                x.target_id.is_none() && x.signal_type == SignalType::LoadReduced && x.mode == Mode::Throttled
                    && Single::from_whole(x.load as u64).gt(norm) && current_tick.saturating_sub(x.timestamp) <= ttl
            };
        let reports = select(&all, over, Ghost(|x: SignalView| overloaded(x, norm, current_tick, ttl)));
        let found = newest_signals(&reports);
        let ghost list = self@.overloaded_neighbors(current_tick);
        assert(referred(found@) == list);
        assert(referred(found@).len() == found@.len());
        if found.len() == 0 {
            return None;
        }
        let above = |x: &NodeSignal| -> (y: Single)
            ensures
                y == load_of(x@).difference(norm).larger(Single { bits: 0 }),
            { Single::from_whole(x.load as u64).minus(norm).max(Single { bits: 0 }) };
        let excess = add_up(
            &found,
            above,
            Ghost(|x: SignalView| load_of(x).difference(norm).larger(Single { bits: 0 })),
        );
        let ids = source_ids(&found);
        let mut event_reason = "Neighbor(s) ".to_string();
        push_id_list(&mut event_reason, &ids);
        event_reason.append(" throttled but still overloaded (excess ");
        push_rounded(&mut event_reason, excess);
        event_reason.append(" above norm ");
        push_rounded(&mut event_reason, norm);
        event_reason.append(") — absorbing share within headroom ");
        push_rounded(&mut event_reason, headroom);
        let p = Proposal {
            action: ProposalAction::IncreaseLoad,
            threat_score: self.state.last_threat_score,
            predicted_state: "high_load_neighbor_failure_relay".to_string(),
            event_reason,
            confidence: shared(excess, headroom),
        };
        assert(p@ =~= self@.overload_proposal(current_tick).unwrap());
        Some(p)
    }

    /// Answers boosted neighbours that are underloaded.
    pub fn process_underload_redistribution(&self, current_tick: u64) -> (p: Option<Proposal>)
        ensures
            proposed(p) == self@.underload_proposal(current_tick),
    {
        if !matches!(self.state.mode, Mode::Normal | Mode::Boosted) {
            return None;
        }
        if self.state.load <= self.config.load_calibration.reduce_floor {
            return None;
        }
        let ttl: u64 = self.config.security.stale_ttl;
        let norm = self.neighbors_norm_load(current_tick);
        let reducible = Single::from_whole(self.state.load as u64).minus(
            Single::from_whole(self.config.load_calibration.reduce_floor as u64),
        );
        let all = all_signals(&self.neighbor_signals);
        let under = |x: &NodeSignal| -> (b: bool)
            ensures
                b == underloaded(x@, norm, current_tick, ttl),
            {
                x.target_id.is_none() && x.mode == Mode::Boosted && Single::from_whole(x.load as u64).lt(norm)
                    && current_tick.saturating_sub(x.timestamp) <= ttl
            };
        let reports = select(&all, under, Ghost(|x: SignalView| underloaded(x, norm, current_tick, ttl)));
        let found = newest_signals(&reports);
        assert(referred(found@) == self@.underloaded_neighbors(current_tick));
        assert(referred(found@).len() == found@.len());
        if found.len() == 0 {
            return None;
        }
        let below = |x: &NodeSignal| -> (y: Single)
            ensures
                y == norm.difference(load_of(x@)).larger(Single { bits: 0 }),
            { norm.minus(Single::from_whole(x.load as u64)).max(Single { bits: 0 }) };
        let deficit = add_up(
            &found,
            below,
            Ghost(|x: SignalView| norm.difference(load_of(x)).larger(Single { bits: 0 })),
        );
        let ids = source_ids(&found);
        let mut event_reason = "Neighbor(s) ".to_string();
        push_id_list(&mut event_reason, &ids);
        event_reason.append(" Boosted but underloaded (deficit ");
        push_rounded(&mut event_reason, deficit);
        event_reason.append(" below norm ");
        push_rounded(&mut event_reason, norm);
        event_reason.append(") — shedding share to balance within floor");
        let p = Proposal {
            action: ProposalAction::IncreaseLoad,
            threat_score: self.state.last_threat_score,
            predicted_state: "low_load_neighbor_failure_relay".to_string(),
            event_reason,
            confidence: shared(deficit, reducible),
        };
        assert(p@ =~= self@.underload_proposal(current_tick).unwrap());
        Some(p)
    }

    /// Takes over load of neighbours that have become isolated.
    pub fn process_isolation_redistribution(&self, current_tick: u64) -> (p: Option<Proposal>)
        ensures
            proposed(p) == self@.isolation_proposal(current_tick),
    {
        if self.state.mode != Mode::Normal {
            return None;
        }
        if self.state.load >= self.config.load_calibration.boost_ceiling {
            return None;
        }
        let ttl: u64 = self.config.security.stale_ttl;
        let headroom = Single::from_whole(self.config.load_calibration.boost_ceiling as u64).minus(
            Single::from_whole(self.state.load as u64),
        );
        let all = all_signals(&self.neighbor_signals);
        let leaving = |x: &NodeSignal| -> (b: bool)
            ensures
                b == advises(x@, SignalType::Isolation, current_tick, ttl),
            {
                x.target_id.is_none() && x.signal_type == SignalType::Isolation && current_tick.saturating_sub(
                    x.timestamp,
                ) <= ttl
            };
        let reports = select(
            &all,
            leaving,
            Ghost(|x: SignalView| advises(x, SignalType::Isolation, current_tick, ttl)),
        );
        let found = newest_signals(&reports);
        assert(referred(found@) == self@.isolating_neighbors(current_tick));
        assert(referred(found@).len() == found@.len());
        if found.len() == 0 {
            return None;
        }
        let lost = add_loads(&found);
        let ids = source_ids(&found);
        let mut event_reason = "Node(s) ".to_string();
        push_id_list(&mut event_reason, &ids);
        event_reason.append(" entering isolation (total load ");
        push_rounded(&mut event_reason, lost);
        event_reason.append(" dropped from network) — absorbing share within headroom ");
        push_rounded(&mut event_reason, headroom);
        let p = Proposal {
            action: ProposalAction::IncreaseLoad,
            threat_score: self.state.last_threat_score,
            predicted_state: "low_load_neighbor_failure_relay".to_string(),
            event_reason,
            confidence: shared(lost, headroom),
        };
        assert(p@ =~= self@.isolation_proposal(current_tick).unwrap());
        Some(p)
    }

    /// Whether a majority still asks for what the node has done.
    pub fn load_pressure_still_active(&self, current_tick: u64) -> (b: bool)
        ensures
            b == self@.pressure(current_tick),
    {
        let half: usize = self.neighbor_ids.len() / 2;
        if self.neighbor_ids.len() == 0 {
            return false;
        }
        match self.state.mode {
            Mode::Throttled => self.count_votes(SignalType::ReduceLoad, current_tick) > half,
            Mode::Boosted => self.count_votes(SignalType::BoostLoad, current_tick) > half,
            _ => false,
        }
    }
}

} // verus!
