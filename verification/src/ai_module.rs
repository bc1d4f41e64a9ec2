//! What the prediction models are asked, and what becomes of their answers.

use std::collections::{BTreeMap, VecDeque};

use vstd::prelude::*;

use crate::node::signals::{
    add_loads, add_up, all_of, all_signals, count, fresh, referred, running_sum, select, told,
};
use crate::node::{HistoryView, Mode, NeighborHistory, Node, NodeSignal, NodeView, SignalType, SignalView};
use crate::persistence::{since, RawMetrics};
use crate::single::Single;

verus! {

/// What a node's own model is told.
#[derive(Debug)]
pub struct AIInput {
    pub self_load: u8,
    pub self_temperature: i8,
    pub active_connections: u8,
    pub failed_auth_count: u8,
    pub last_sync_age_sec: u64,
    pub threat_score_history: VecDeque<Single>,
    pub neighbor_count: usize,
    pub neighbors_isolated: usize,
    pub neighbors_degraded: usize,
    pub neighbors_reconnecting: usize,
    pub neighbors_avg_load: Single,
    pub neighbors_max_threat: Single,
    pub neighbors_failed_auth_avg: Single,
    pub neighbors_avg_connections: Single,
    pub peer_suspicion_count: usize,
    pub ai_state_reason: String,
    pub time_in_state_sec: u64,
    pub previous_threat_score: Single,
}

/// The model's input: the measurements, the past scores and the current finding.
#[verifier::ext_equal]
pub struct AIInputView {
    pub metrics: RawMetrics,
    pub threat_score_history: Seq<Single>,
    pub ai_state_reason: Seq<char>,
}

impl AIInput {
    pub open spec fn raw_metrics(&self) -> RawMetrics {
        RawMetrics {
            self_load: self.self_load,
            self_temperature: self.self_temperature,
            active_connections: self.active_connections,
            failed_auth_count: self.failed_auth_count,
            last_sync_age_sec: self.last_sync_age_sec,
            neighbor_count: self.neighbor_count,
            neighbors_isolated: self.neighbors_isolated,
            neighbors_degraded: self.neighbors_degraded,
            neighbors_reconnecting: self.neighbors_reconnecting,
            neighbors_avg_load: self.neighbors_avg_load,
            neighbors_max_threat: self.neighbors_max_threat,
            neighbors_failed_auth_avg: self.neighbors_failed_auth_avg,
            neighbors_avg_connections: self.neighbors_avg_connections,
            peer_suspicion_count: self.peer_suspicion_count,
            time_in_state_sec: self.time_in_state_sec,
            previous_threat_score: self.previous_threat_score,
        }
    }

    /// The measurements, for the log.
    pub fn to_raw_metrics(&self) -> (m: RawMetrics)
        ensures
            m == self.raw_metrics(),
    {
        RawMetrics {
            self_load: self.self_load,
            self_temperature: self.self_temperature,
            active_connections: self.active_connections,
            failed_auth_count: self.failed_auth_count,
            last_sync_age_sec: self.last_sync_age_sec,
            neighbor_count: self.neighbor_count,
            neighbors_isolated: self.neighbors_isolated,
            neighbors_degraded: self.neighbors_degraded,
            neighbors_reconnecting: self.neighbors_reconnecting,
            neighbors_avg_load: self.neighbors_avg_load,
            neighbors_max_threat: self.neighbors_max_threat,
            neighbors_failed_auth_avg: self.neighbors_failed_auth_avg,
            neighbors_avg_connections: self.neighbors_avg_connections,
            peer_suspicion_count: self.peer_suspicion_count,
            time_in_state_sec: self.time_in_state_sec,
            previous_threat_score: self.previous_threat_score,
        }
    }
}

impl View for AIInput {
    type V = AIInputView;

    open spec fn view(&self) -> AIInputView {
        AIInputView {
            metrics: self.raw_metrics(),
            threat_score_history: self.threat_score_history@,
            ai_state_reason: self.ai_state_reason@,
        }
    }
}

/// What a node's own model answers.
#[derive(Debug)]
pub struct AIOutput {
    pub threat_score: Single,
    pub predicted_state: String,
    pub recommended_action: String,
    pub event_reason: String,
    pub confidence: Single,
}

/// What the neighbour model is told of a signal.
#[derive(Debug)]
pub struct NeighborAIInput {
    pub load: u8,
    pub active_connections: u8,
    pub failed_auth_count: u8,
    pub threat_score: Single,
    pub mode: String,
    pub signal_type: String,
    pub ai_state_reason: String,
    pub signal_age_ticks: u64,
    pub time_in_mode_ticks: u64,
    pub load_delta: i16,
    pub failed_auth_delta: i16,
    pub active_connections_delta: i32,
    pub threat_score_delta: Single,
    pub mode_changed: bool,
    pub signals_seen_recent: u32,
    pub prior_suspicion_votes_against: u32,
    pub times_isolated_historically: u32,
    pub network_avg_load: Single,
    pub network_avg_failed_auth: Single,
}

#[verifier::ext_equal]
pub struct NeighborInputView {
    pub load: u8,
    pub active_connections: u8,
    pub failed_auth_count: u8,
    pub threat_score: Single,
    pub mode: Seq<char>,
    pub signal_type: Seq<char>,
    pub ai_state_reason: Seq<char>,
    pub signal_age_ticks: u64,
    pub time_in_mode_ticks: u64,
    pub load_delta: int,
    pub failed_auth_delta: int,
    pub active_connections_delta: int,
    pub threat_score_delta: Single,
    pub mode_changed: bool,
    pub signals_seen_recent: u32,
    pub prior_suspicion_votes_against: u32,
    pub times_isolated_historically: u32,
    pub network_avg_load: Single,
    pub network_avg_failed_auth: Single,
}

impl View for NeighborAIInput {
    type V = NeighborInputView;

    open spec fn view(&self) -> NeighborInputView {
        NeighborInputView {
            load: self.load,
            active_connections: self.active_connections,
            failed_auth_count: self.failed_auth_count,
            threat_score: self.threat_score,
            mode: self.mode@,
            signal_type: self.signal_type@,
            ai_state_reason: self.ai_state_reason@,
            signal_age_ticks: self.signal_age_ticks,
            time_in_mode_ticks: self.time_in_mode_ticks,
            load_delta: self.load_delta as int,
            failed_auth_delta: self.failed_auth_delta as int,
            active_connections_delta: self.active_connections_delta as int,
            threat_score_delta: self.threat_score_delta,
            mode_changed: self.mode_changed,
            signals_seen_recent: self.signals_seen_recent,
            prior_suspicion_votes_against: self.prior_suspicion_votes_against,
            times_isolated_historically: self.times_isolated_historically,
            network_avg_load: self.network_avg_load,
            network_avg_failed_auth: self.network_avg_failed_auth,
        }
    }
}

/// What the neighbour model answers.
#[derive(Debug, Clone, Copy, PartialEq, Eq, Structural)]
pub struct NeighborAIOutput {
    pub threat_score: Single,
}

/// Builds what the models are told.
pub struct AIFeatureBuilder;

pub open spec fn in_mode(s: Seq<SignalView>, mode: Mode) -> nat {
    s.filter(|x: SignalView| x.mode == mode).len()
}

/// A vote of this tick against the node `id`.
pub open spec fn suspects(x: SignalView, id: u32, current_tick: u64) -> bool {
    &&& x.signal_type == SignalType::PeerSuspicion
    &&& x.target_id == Some(id)
    &&& x.timestamp == current_tick
}

/// The largest threat score among the signals, at least zero.
pub open spec fn largest_threat(s: Seq<SignalView>) -> Single
    decreases s.len(),
{
    if s.len() == 0 {
        Single { bits: 0 }
    } else {
        largest_threat(s.drop_last()).larger(s.last().threat_score)
    }
}

/// The sum over all signals, divided by the number of neighbours that sent any.
pub open spec fn per_neighbor(signals: Map<u32, Seq<SignalView>>, f: spec_fn(SignalView) -> Single) -> Single {
    if signals.dom().len() == 0 {
        Single { bits: 0 }
    } else {
        running_sum(all_of(signals), f).quotient(Single::whole(signals.dom().len()))
    }
}

/// What a node's own model is told.
pub open spec fn self_features(node: NodeView, current_tick: u64) -> AIInputView {
    let all = all_of(node.neighbor_signals);
    AIInputView {
        metrics: RawMetrics {
            self_load: node.state.load,
            self_temperature: node.state.temperature,
            active_connections: node.state.active_connections,
            failed_auth_count: node.state.failed_auth_count,
            last_sync_age_sec: since(current_tick, node.state.last_sync_time),
            neighbor_count: node.neighbor_ids.len() as usize,
            neighbors_isolated: in_mode(all, Mode::Isolated) as usize,
            neighbors_degraded: in_mode(all, Mode::Degraded) as usize,
            neighbors_reconnecting: in_mode(all, Mode::Reconnecting) as usize,
            neighbors_avg_load: per_neighbor(node.neighbor_signals, |x: SignalView| Single::whole(x.load as nat)),
            neighbors_max_threat: largest_threat(all),
            neighbors_failed_auth_avg: per_neighbor(
                node.neighbor_signals,
                |x: SignalView| Single::whole(x.failed_auth_count as nat),
            ),
            neighbors_avg_connections: per_neighbor(
                node.neighbor_signals,
                |x: SignalView| Single::whole(x.active_connections as nat),
            ),
            peer_suspicion_count: all.filter(|x: SignalView| suspects(x, node.id, current_tick)).len() as usize,
            time_in_state_sec: since(current_tick, node.state.state_entered_tick),
            previous_threat_score: node.state.last_threat_score,
        },
        threat_score_history: node.state.threat_score_history,
        ai_state_reason: node.state.ai_state_reason,
    }
}

/// The fresh signals of the other neighbours.
pub open spec fn of_others(
    signals: Map<u32, Seq<SignalView>>,
    source_id: u32,
    current_tick: u64,
    ttl: u64,
) -> Seq<SignalView> {
    all_of(signals).filter(|x: SignalView| x.source_id != source_id && fresh(x, current_tick, ttl))
}

/// The average over the signals; `own` where there are none.
pub open spec fn average(s: Seq<SignalView>, f: spec_fn(SignalView) -> Single, own: Single) -> Single {
    if s.len() == 0 {
        own
    } else {
        running_sum(s, f).quotient(Single::whole(s.len()))
    }
}

/// What the neighbour model is told of a signal.
pub open spec fn neighbor_features(
    signal: SignalView,
    current_tick: u64,
    history: HistoryView,
    signals: Map<u32, Seq<SignalView>>,
    stale_ttl: u64,
) -> NeighborInputView {
    let others = of_others(signals, signal.source_id, current_tick, stale_ttl);
    let prev = history.last_signal;
    NeighborInputView {
        load: signal.load,
        active_connections: signal.active_connections,
        failed_auth_count: signal.failed_auth_count,
        threat_score: signal.threat_score,
        mode: signal.mode.text(),
        signal_type: signal.signal_type.text(),
        ai_state_reason: signal.ai_state_reason,
        signal_age_ticks: since(current_tick, signal.timestamp),
        time_in_mode_ticks: since(current_tick, history.mode_entered_tick),
        load_delta: match prev {
            Some(p) => signal.load - p.load,
            None => 0,
        },
        failed_auth_delta: match prev {
            Some(p) => signal.failed_auth_count - p.failed_auth_count,
            None => 0,
        },
        active_connections_delta: match prev {
            Some(p) => signal.active_connections - p.active_connections,
            None => 0,
        },
        threat_score_delta: match prev {
            Some(p) => signal.threat_score.difference(p.threat_score),
            None => Single { bits: 0 },
        },
        mode_changed: match prev {
            Some(p) => p.mode != signal.mode,
            None => false,
        },
        signals_seen_recent: (history.recent_timestamps.len() % 0x1_0000_0000) as u32,
        prior_suspicion_votes_against: history.suspicion_votes_cast,
        times_isolated_historically: history.times_isolated,
        network_avg_load: average(
            others,
            |x: SignalView| Single::whole(x.load as nat),
            Single::whole(signal.load as nat),
        ),
        network_avg_failed_auth: average(
            others,
            |x: SignalView| Single::whole(x.failed_auth_count as nat),
            Single::whole(signal.failed_auth_count as nat),
        ),
    }
}

fn count_mode(all: &Vec<&NodeSignal>, mode: Mode) -> (n: usize)
    ensures
        n == in_mode(referred(all@), mode),
{
    let keep = |x: &NodeSignal| -> (b: bool)
        ensures
            b == (x@.mode == mode),
        { x.mode == mode };
    count(all, keep, Ghost(|x: SignalView| x.mode == mode))
}

fn add_failed_auth(list: &Vec<&NodeSignal>) -> (sum: Single)
    ensures
        sum == running_sum(referred(list@), |x: SignalView| Single::whole(x.failed_auth_count as nat)),
{
    let f = |x: &NodeSignal| -> (y: Single)
        ensures
            y == Single::whole(x@.failed_auth_count as nat),
        { Single::from_whole(x.failed_auth_count as u64) };
    add_up(list, f, Ghost(|x: SignalView| Single::whole(x.failed_auth_count as nat)))
}

fn add_connections(list: &Vec<&NodeSignal>) -> (sum: Single)
    ensures
        sum == running_sum(referred(list@), |x: SignalView| Single::whole(x.active_connections as nat)),
{
    let f = |x: &NodeSignal| -> (y: Single)
        ensures
            y == Single::whole(x@.active_connections as nat),
        { Single::from_whole(x.active_connections as u64) };
    add_up(list, f, Ghost(|x: SignalView| Single::whole(x.active_connections as nat)))
}

fn max_threat(list: &Vec<&NodeSignal>) -> (m: Single)
    ensures
        m == largest_threat(referred(list@)),
{
    let mut m = Single { bits: 0 };
    let mut i: usize = 0;
    let ghost all = referred(list@);
    while i < list.len()
        invariant
            i <= list@.len(),
            all == referred(list@),
            m == largest_threat(all.take(i as int)),
        decreases list@.len() - i,
    {
        m = m.max(list[i].threat_score);
        assert(all.take(i + 1).drop_last() =~= all.take(i as int));
        i = i + 1;
    }
    assert(all.take(i as int) =~= all);
    m
}

/// A sum divided by a count; zero where the count is zero.
fn divided(sum: Single, n: usize) -> (q: Single)
    ensures
        q == if n == 0 { Single { bits: 0 } } else { sum.quotient(Single::whole(n as nat)) },
{
    if n == 0 {
        Single { bits: 0 }
    } else {
        sum.over(Single::from_whole(n as u64))
    }
}

impl AIFeatureBuilder {
    /// What the node's own model is told.
    pub fn build(node: &Node, current_tick: u64) -> (input: AIInput)
        ensures
            input@ == self_features(node@, current_tick),
    {
        let all = all_signals(&node.neighbor_signals);
        let id: u32 = node.id;
        let voted = |x: &NodeSignal| -> (b: bool)
            ensures
                b == suspects(x@, id, current_tick),
            {
                x.signal_type == SignalType::PeerSuspicion && x.target_id == Some(id) && x.timestamp == current_tick
            };
        let votes: usize = count(&all, voted, Ghost(|x: SignalView| suspects(x, id, current_tick)));
        let n: usize = node.neighbor_signals.len();
        assert(told(node.neighbor_signals@).dom() =~= node.neighbor_signals@.dom());
        let history = node.state.threat_score_history.clone();
        assert(history@ =~= node.state.threat_score_history@);
        AIInput {
            self_load: node.state.load,
            self_temperature: node.state.temperature,
            active_connections: node.state.active_connections,
            failed_auth_count: node.state.failed_auth_count,
            last_sync_age_sec: current_tick.saturating_sub(node.state.last_sync_time),
            threat_score_history: history,
            neighbor_count: node.neighbor_ids.len(),
            neighbors_isolated: count_mode(&all, Mode::Isolated),
            neighbors_degraded: count_mode(&all, Mode::Degraded),
            neighbors_reconnecting: count_mode(&all, Mode::Reconnecting),
            neighbors_avg_load: divided(add_loads(&all), n),
            neighbors_max_threat: max_threat(&all),
            neighbors_failed_auth_avg: divided(add_failed_auth(&all), n),
            neighbors_avg_connections: divided(add_connections(&all), n),
            peer_suspicion_count: votes,
            ai_state_reason: node.state.ai_state_reason.clone(),
            time_in_state_sec: current_tick.saturating_sub(node.state.state_entered_tick),
            previous_threat_score: node.state.last_threat_score,
        }
    }

    /// What the neighbour model is told of a signal.
    pub fn build_neighbour_signs(
        signal: &NodeSignal,
        current_tick: u64,
        history: &NeighborHistory,
        neighbor_signals: &BTreeMap<u32, VecDeque<NodeSignal>>,
        stale_ttl: u64,
    ) -> (input: NeighborAIInput)
        ensures
            input@ == neighbor_features(signal@, current_tick, history@, told(neighbor_signals@), stale_ttl),
    {
        let all = all_signals(neighbor_signals);
        let source: u32 = signal.source_id;
        let keep = |x: &NodeSignal| -> (b: bool)
            ensures
                b == (x@.source_id != source && fresh(x@, current_tick, stale_ttl)),
            { x.source_id != source && current_tick.saturating_sub(x.timestamp) <= stale_ttl };
        let others = select(
            &all,
            keep,
            Ghost(|x: SignalView| x.source_id != source && fresh(x, current_tick, stale_ttl)),
        );
        assert(referred(others@).len() == others@.len());
        let (avg_load, avg_auth) = if others.len() == 0 {
            (Single::from_whole(signal.load as u64), Single::from_whole(signal.failed_auth_count as u64))
        } else {
            (divided(add_loads(&others), others.len()), divided(add_failed_auth(&others), others.len()))
        };
        let prev = history.last_signal.as_ref();
        NeighborAIInput {
            load: signal.load,
            active_connections: signal.active_connections,
            failed_auth_count: signal.failed_auth_count,
            threat_score: signal.threat_score,
            mode: signal.mode.name(),
            signal_type: signal.signal_type.name(),
            ai_state_reason: signal.ai_state_reason.clone(),
            signal_age_ticks: current_tick.saturating_sub(signal.timestamp),
            time_in_mode_ticks: current_tick.saturating_sub(history.mode_entered_tick),
            load_delta: match prev {
                Some(p) => signal.load as i16 - p.load as i16,
                None => 0,
            },
            failed_auth_delta: match prev {
                Some(p) => signal.failed_auth_count as i16 - p.failed_auth_count as i16,
                None => 0,
            },
            active_connections_delta: match prev {
                Some(p) => signal.active_connections as i32 - p.active_connections as i32,
                None => 0,
            },
            threat_score_delta: match prev {
                Some(p) => signal.threat_score.minus(p.threat_score),
                None => Single { bits: 0 },
            },
            mode_changed: match prev {
                Some(p) => p.mode != signal.mode,
                None => false,
            },
            signals_seen_recent: (history.recent_timestamps.len() as u64 % 0x1_0000_0000) as u32,
            prior_suspicion_votes_against: history.suspicion_votes_cast,
            times_isolated_historically: history.times_isolated,
            network_avg_load: avg_load,
            network_avg_failed_auth: avg_auth,
        }
    }
}

/// A node's access to its own model.
#[derive(Debug, Clone, Copy, PartialEq, Eq, Structural)]
pub struct AIModel {
    /// A scenario keeps the model from answering.
    pub overridden: bool,
}

impl AIModel {
    /// Access to a model that answers.
    pub fn new() -> (ai: Self)
        ensures
            !ai.overridden,
    {
        AIModel { overridden: false }
    }

    pub fn is_overridden(&self) -> (b: bool)
        ensures
            b == self.overridden,
    {
        self.overridden
    }

    pub fn set_overridden(&mut self, value: bool)
        ensures
            final(self).overridden == value,
    {
        self.overridden = value;
    }

    /// What comes of asking the model: its reply, if there was one, or why there is none.
    pub fn predict(&self, reply: Result<AIOutput, String>) -> (answer: Result<AIOutput, String>)
        ensures
            answer is Ok <==> reply is Ok && !self.overridden,
            answer matches Ok(output) ==> reply == Ok::<AIOutput, String>(output),
            answer matches Err(why) ==> why@ == if self.overridden {
                "AI process unresponsive (scenario override active)"@
            } else {
                reply->Err_0@
            },
    {
        if self.overridden {
            Err("AI process unresponsive (scenario override active)".to_string())
        } else {
            reply
        }
    }
}

/// What is to be done next to get an answer out of a model that runs as a process of its own.
#[derive(Debug, Clone, Copy, PartialEq, Eq, Structural)]
pub enum AskStep {
    /// Write the question.
    Write,
    /// Start the process anew, to write the question once more.
    RestartToWrite,
    WriteAgain,
    /// Read the answer.
    Read,
    /// Start the process anew; this question gets no answer.
    RestartAfterRead,
    /// The answer is there.
    Answered,
    /// The process died over the question, and was started anew.
    Died,
    /// Something failed that is not tried again.
    Failed,
}

/// What came of a step.
#[derive(Debug, Clone, Copy, PartialEq, Eq, Structural)]
pub enum AskOutcome {
    Done,
    /// The process has closed its output.
    Nothing,
    Error,
}

impl AskStep {
    /// A question is written twice at most, with a new process between; a process that closes its
    /// output is started anew.
    pub open spec fn after(self, outcome: AskOutcome) -> AskStep {
        match (self, outcome) {
            (AskStep::Write, AskOutcome::Done) => AskStep::Read,
            (AskStep::Write, _) => AskStep::RestartToWrite,
            (AskStep::RestartToWrite, AskOutcome::Done) => AskStep::WriteAgain,
            (AskStep::WriteAgain, AskOutcome::Done) => AskStep::Read,
            (AskStep::Read, AskOutcome::Done) => AskStep::Answered,
            (AskStep::Read, AskOutcome::Nothing) => AskStep::RestartAfterRead,
            (AskStep::RestartAfterRead, AskOutcome::Done) => AskStep::Died,
            (AskStep::Answered, _) => AskStep::Answered,
            (AskStep::Died, _) => AskStep::Died,
            _ => AskStep::Failed,
        }
    }

    /// Nothing more is to be done.
    pub open spec fn over(self) -> bool {
        self == AskStep::Answered || self == AskStep::Died || self == AskStep::Failed
    }

    /// How many steps there may still be.
    pub open spec fn steps_left(self) -> nat {
        match self {
            AskStep::Write => 5,
            AskStep::RestartToWrite => 4,
            AskStep::WriteAgain => 3,
            AskStep::Read => 2,
            AskStep::RestartAfterRead => 1,
            _ => 0,
        }
    }

    /// The step that follows.
    pub fn next(self, outcome: AskOutcome) -> (step: AskStep)
        ensures
            step == self.after(outcome),
    {
        let done = outcome == AskOutcome::Done;
        match self {
            AskStep::Write => if done { AskStep::Read } else { AskStep::RestartToWrite },
            AskStep::RestartToWrite => if done { AskStep::WriteAgain } else { AskStep::Failed },
            AskStep::WriteAgain => if done { AskStep::Read } else { AskStep::Failed },
            AskStep::Read => match outcome {
                AskOutcome::Done => AskStep::Answered,
                AskOutcome::Nothing => AskStep::RestartAfterRead,
                AskOutcome::Error => AskStep::Failed,
            },
            AskStep::RestartAfterRead => if done { AskStep::Died } else { AskStep::Failed },
            AskStep::Answered => AskStep::Answered,
            AskStep::Died => AskStep::Died,
            AskStep::Failed => AskStep::Failed,
        }
    }

    pub fn is_over(self) -> (b: bool)
        ensures
            b == self.over(),
    {
        matches!(self, AskStep::Answered | AskStep::Died | AskStep::Failed)
    }
}

/// Asking comes to an end, whatever comes of its steps, and what is over stays as it is.
pub proof fn law_asking_ends(step: AskStep, outcome: AskOutcome)
    ensures
        !step.over() ==> step.after(outcome).steps_left() < step.steps_left(),
        step.steps_left() == 0 <==> step.over(),
        step.over() ==> step.after(outcome) == step,
{
}

} // verus!
