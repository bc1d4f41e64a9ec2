//! The records of a simulation and the logs that collect them.

use vstd::prelude::*;

use crate::single::Single;
use crate::text::{trim, trimmed};

verus! {

/// Who asked for a decision.
#[derive(Debug)]
pub enum DecisionSource {
    AiPredict { predicted_state: String, threat_score: Single, confidence: Single },
    AiError { error_reason: String },
    ForcedByPeerConsensus,
    HeuristicLoadAdvisory,
    HeuristicOverloadRedistribution,
    HeuristicIsolationRedistribution,
    DeterministicReconnectComplete,
    DeterministicReconnectTimeout,
    WaitingForReconnectAcks,
    CalibrationHold,
}

#[verifier::ext_equal]
pub enum SourceView {
    AiPredict { predicted_state: Seq<char>, threat_score: Single, confidence: Single },
    AiError { error_reason: Seq<char> },
    ForcedByPeerConsensus,
    HeuristicLoadAdvisory,
    HeuristicOverloadRedistribution,
    HeuristicIsolationRedistribution,
    DeterministicReconnectComplete,
    DeterministicReconnectTimeout,
    WaitingForReconnectAcks,
    CalibrationHold,
}

impl View for DecisionSource {
    type V = SourceView;

    open spec fn view(&self) -> SourceView {
        match *self {
            DecisionSource::AiPredict { predicted_state, threat_score, confidence } => SourceView::AiPredict {
                predicted_state: predicted_state@,
                threat_score,
                confidence,
            },
            DecisionSource::AiError { error_reason } => SourceView::AiError { error_reason: error_reason@ },
            DecisionSource::ForcedByPeerConsensus => SourceView::ForcedByPeerConsensus,
            DecisionSource::HeuristicLoadAdvisory => SourceView::HeuristicLoadAdvisory,
            DecisionSource::HeuristicOverloadRedistribution => SourceView::HeuristicOverloadRedistribution,
            DecisionSource::HeuristicIsolationRedistribution => SourceView::HeuristicIsolationRedistribution,
            DecisionSource::DeterministicReconnectComplete => SourceView::DeterministicReconnectComplete,
            DecisionSource::DeterministicReconnectTimeout => SourceView::DeterministicReconnectTimeout,
            DecisionSource::WaitingForReconnectAcks => SourceView::WaitingForReconnectAcks,
            DecisionSource::CalibrationHold => SourceView::CalibrationHold,
        }
    }
}

impl Clone for DecisionSource {
    fn clone(&self) -> (s: Self)
        ensures
            s == *self,
    {
        match self {
            DecisionSource::AiPredict { predicted_state, threat_score, confidence } => DecisionSource::AiPredict {
                predicted_state: predicted_state.clone(),
                threat_score: *threat_score,
                confidence: *confidence,
            },
            DecisionSource::AiError { error_reason } => DecisionSource::AiError {
                error_reason: error_reason.clone(),
            },
            DecisionSource::ForcedByPeerConsensus => DecisionSource::ForcedByPeerConsensus,
            DecisionSource::HeuristicLoadAdvisory => DecisionSource::HeuristicLoadAdvisory,
            DecisionSource::HeuristicOverloadRedistribution => DecisionSource::HeuristicOverloadRedistribution,
            DecisionSource::HeuristicIsolationRedistribution => DecisionSource::HeuristicIsolationRedistribution,
            DecisionSource::DeterministicReconnectComplete => DecisionSource::DeterministicReconnectComplete,
            DecisionSource::DeterministicReconnectTimeout => DecisionSource::DeterministicReconnectTimeout,
            DecisionSource::WaitingForReconnectAcks => DecisionSource::WaitingForReconnectAcks,
            DecisionSource::CalibrationHold => DecisionSource::CalibrationHold,
        }
    }
}

/// The part of a node's state that the log follows.
#[derive(Debug)]
pub struct StateSnapshot {
    pub mode: String,
    pub load: u8,
    pub active_connections: u8,
    pub failed_auth_count: u8,
}

#[verifier::ext_equal]
pub struct SnapshotView {
    pub mode: Seq<char>,
    pub load: u8,
    pub active_connections: u8,
    pub failed_auth_count: u8,
}

impl View for StateSnapshot {
    type V = SnapshotView;

    open spec fn view(&self) -> SnapshotView {
        SnapshotView {
            mode: self.mode@,
            load: self.load,
            active_connections: self.active_connections,
            failed_auth_count: self.failed_auth_count,
        }
    }
}

/// What changed between two snapshots: before and after, for each part that differs.
#[derive(Debug)]
pub struct StateChange {
    pub mode: Option<(String, String)>,
    pub load: Option<(u8, u8)>,
    pub active_connections: Option<(u8, u8)>,
    pub failed_auth_count: Option<(u8, u8)>,
}

#[verifier::ext_equal]
pub struct ChangeView {
    pub mode: Option<(Seq<char>, Seq<char>)>,
    pub load: Option<(u8, u8)>,
    pub active_connections: Option<(u8, u8)>,
    pub failed_auth_count: Option<(u8, u8)>,
}

impl View for StateChange {
    type V = ChangeView;

    open spec fn view(&self) -> ChangeView {
        ChangeView {
            mode: match self.mode {
                Some((before, after)) => Some((before@, after@)),
                None => None,
            },
            load: self.load,
            active_connections: self.active_connections,
            failed_auth_count: self.failed_auth_count,
        }
    }
}

/// Before and after, where they differ.
pub open spec fn changed<T>(before: T, after: T) -> Option<(T, T)> {
    if before == after { None } else { Some((before, after)) }
}

impl SnapshotView {
    pub open spec fn diff(self, after: SnapshotView) -> ChangeView {
        ChangeView {
            mode: changed(self.mode, after.mode),
            load: changed(self.load, after.load),
            active_connections: changed(self.active_connections, after.active_connections),
            failed_auth_count: changed(self.failed_auth_count, after.failed_auth_count),
        }
    }
}

impl ChangeView {
    pub open spec fn nothing() -> ChangeView {
        ChangeView { mode: None, load: None, active_connections: None, failed_auth_count: None }
    }
}

fn changed_byte(before: u8, after: u8) -> (c: Option<(u8, u8)>)
    ensures
        c == changed(before, after),
{
    if before == after { None } else { Some((before, after)) }
}

impl StateChange {
    /// What differs between `before` and `after`.
    pub fn diff(before: &StateSnapshot, after: &StateSnapshot) -> (c: Self)
        ensures
            c@ == before@.diff(after@),
    {
        StateChange {
            mode: if before.mode == after.mode {
                None
            } else {
                Some((before.mode.clone(), after.mode.clone()))
            },
            load: changed_byte(before.load, after.load),
            active_connections: changed_byte(before.active_connections, after.active_connections),
            failed_auth_count: changed_byte(before.failed_auth_count, after.failed_auth_count),
        }
    }

    pub fn is_empty(&self) -> (b: bool)
        ensures
            b == (self@ == ChangeView::nothing()),
    {
        self.mode.is_none() && self.load.is_none() && self.active_connections.is_none()
            && self.failed_auth_count.is_none()
    }
}

impl Default for StateChange {
    fn default() -> (c: Self)
        ensures
            c@ == ChangeView::nothing(),
    {
        StateChange { mode: None, load: None, active_connections: None, failed_auth_count: None }
    }
}

impl Clone for StateChange {
    fn clone(&self) -> (c: Self)
        ensures
            c == *self,
    {
        StateChange {
            mode: match &self.mode {
                Some((before, after)) => Some((before.clone(), after.clone())),
                None => None,
            },
            load: self.load,
            active_connections: self.active_connections,
            failed_auth_count: self.failed_auth_count,
        }
    }
}

/// A snapshot differs in nothing from itself, and from no other snapshot.
pub proof fn law_empty_change(before: SnapshotView, after: SnapshotView)
    ensures
        before.diff(after) == ChangeView::nothing() <==> before == after,
{
}

/// Putting the noted changes into the earlier snapshot gives the later one.
pub proof fn law_change_leads_on(before: SnapshotView, after: SnapshotView)
    ensures
        ({
            let change = before.diff(after);
            after == SnapshotView {
                mode: match change.mode { Some(c) => c.1, None => before.mode },
                load: match change.load { Some(c) => c.1, None => before.load },
                active_connections: match change.active_connections {
                    Some(c) => c.1,
                    None => before.active_connections,
                },
                failed_auth_count: match change.failed_auth_count {
                    Some(c) => c.1,
                    None => before.failed_auth_count,
                },
            }
        }),
{
}

/// One decision of one node.
#[derive(Debug)]
pub struct LifecycleEntry {
    pub tick: u64,
    pub node_id: u32,
    pub ai_predict: DecisionSource,
    pub proposal_action: String,
    pub proposal_predicted_state: String,
    pub proposal_event_reason: String,
    pub proposal_threat_score: Single,
    pub proposal_confidence: Single,
    pub allowed: bool,
    pub supervisor_reason: String,
    pub change: StateChange,
    pub recorded_at: u64,
}

#[verifier::ext_equal]
pub struct LifecycleView {
    pub tick: u64,
    pub node_id: u32,
    pub ai_predict: SourceView,
    pub proposal_action: Seq<char>,
    pub proposal_predicted_state: Seq<char>,
    pub proposal_event_reason: Seq<char>,
    pub proposal_threat_score: Single,
    pub proposal_confidence: Single,
    pub allowed: bool,
    pub supervisor_reason: Seq<char>,
    pub change: ChangeView,
    pub recorded_at: u64,
}

impl View for LifecycleEntry {
    type V = LifecycleView;

    open spec fn view(&self) -> LifecycleView {
        LifecycleView {
            tick: self.tick,
            node_id: self.node_id,
            ai_predict: self.ai_predict@,
            proposal_action: self.proposal_action@,
            proposal_predicted_state: self.proposal_predicted_state@,
            proposal_event_reason: self.proposal_event_reason@,
            proposal_threat_score: self.proposal_threat_score,
            proposal_confidence: self.proposal_confidence,
            allowed: self.allowed,
            supervisor_reason: self.supervisor_reason@,
            change: self.change@,
            recorded_at: self.recorded_at,
        }
    }
}

impl LifecycleEntry {
    /// The record of a decision, stamped with the time `recorded_at` in seconds.
    pub fn now(
        tick: u64,
        node_id: u32,
        ai_predict: DecisionSource,
        proposal_action: String,
        proposal_predicted_state: String,
        proposal_event_reason: String,
        proposal_threat_score: Single,
        proposal_confidence: Single,
        allowed: bool,
        supervisor_reason: String,
        change: StateChange,
        recorded_at: u64,
    ) -> (e: Self)
        ensures
            e == (LifecycleEntry {
                tick,
                node_id,
                ai_predict,
                proposal_action,
                proposal_predicted_state,
                proposal_event_reason,
                proposal_threat_score,
                proposal_confidence,
                allowed,
                supervisor_reason,
                change,
                recorded_at,
            }),
    {
        LifecycleEntry {
            tick,
            node_id,
            ai_predict,
            proposal_action,
            proposal_predicted_state,
            proposal_event_reason,
            proposal_threat_score,
            proposal_confidence,
            allowed,
            supervisor_reason,
            change,
            recorded_at,
        }
    }
}

impl Clone for LifecycleEntry {
    fn clone(&self) -> (e: Self)
        ensures
            e == *self,
    {
        LifecycleEntry {
            tick: self.tick,
            node_id: self.node_id,
            ai_predict: self.ai_predict.clone(),
            proposal_action: self.proposal_action.clone(),
            proposal_predicted_state: self.proposal_predicted_state.clone(),
            proposal_event_reason: self.proposal_event_reason.clone(),
            proposal_threat_score: self.proposal_threat_score,
            proposal_confidence: self.proposal_confidence,
            allowed: self.allowed,
            supervisor_reason: self.supervisor_reason.clone(),
            change: self.change.clone(),
            recorded_at: self.recorded_at,
        }
    }
}

/// What a signal said.
#[derive(Debug)]
pub struct SignalContent {
    pub mode: String,
    pub load: u8,
    pub active_connections: u8,
    pub failed_auth_count: u8,
    pub ai_state_reason: String,
    pub signal_threat_score: Single,
}

#[verifier::ext_equal]
pub struct ContentView {
    pub mode: Seq<char>,
    pub load: u8,
    pub active_connections: u8,
    pub failed_auth_count: u8,
    pub ai_state_reason: Seq<char>,
    pub signal_threat_score: Single,
}

impl View for SignalContent {
    type V = ContentView;

    open spec fn view(&self) -> ContentView {
        ContentView {
            mode: self.mode@,
            load: self.load,
            active_connections: self.active_connections,
            failed_auth_count: self.failed_auth_count,
            ai_state_reason: self.ai_state_reason@,
            signal_threat_score: self.signal_threat_score,
        }
    }
}

/// One delivered signal.
#[derive(Debug)]
pub struct SignalEntry {
    pub tick: u64,
    pub sender_id: u32,
    pub receiver_id: u32,
    pub signal_type: String,
    pub content: SignalContent,
    pub receiver_threat_level: Single,
    pub recorded_at: u64,
}

#[verifier::ext_equal]
pub struct SignalEntryView {
    pub tick: u64,
    pub sender_id: u32,
    pub receiver_id: u32,
    pub signal_type: Seq<char>,
    pub content: ContentView,
    pub receiver_threat_level: Single,
    pub recorded_at: u64,
}

impl View for SignalEntry {
    type V = SignalEntryView;

    open spec fn view(&self) -> SignalEntryView {
        SignalEntryView {
            tick: self.tick,
            sender_id: self.sender_id,
            receiver_id: self.receiver_id,
            signal_type: self.signal_type@,
            content: self.content@,
            receiver_threat_level: self.receiver_threat_level,
            recorded_at: self.recorded_at,
        }
    }
}

impl Clone for SignalContent {
    fn clone(&self) -> (c: Self)
        ensures
            c == *self,
    {
        SignalContent {
            mode: self.mode.clone(),
            load: self.load,
            active_connections: self.active_connections,
            failed_auth_count: self.failed_auth_count,
            ai_state_reason: self.ai_state_reason.clone(),
            signal_threat_score: self.signal_threat_score,
        }
    }
}

impl Clone for SignalEntry {
    fn clone(&self) -> (e: Self)
        ensures
            e == *self,
    {
        SignalEntry {
            tick: self.tick,
            sender_id: self.sender_id,
            receiver_id: self.receiver_id,
            signal_type: self.signal_type.clone(),
            content: self.content.clone(),
            receiver_threat_level: self.receiver_threat_level,
            recorded_at: self.recorded_at,
        }
    }
}

impl SignalEntry {
    /// The record of a delivery, stamped with the time `recorded_at` in seconds.
    pub fn now(
        tick: u64,
        sender_id: u32,
        receiver_id: u32,
        signal_type: String,
        content: SignalContent,
        receiver_threat_level: Single,
        recorded_at: u64,
    ) -> (e: Self)
        ensures
            e == (SignalEntry {
                tick,
                sender_id,
                receiver_id,
                signal_type,
                content,
                receiver_threat_level,
                recorded_at,
            }),
    {
        SignalEntry { tick, sender_id, receiver_id, signal_type, content, receiver_threat_level, recorded_at }
    }
}

/// The measurements that a model's answer rested on.
#[derive(Debug, Clone, Copy, PartialEq, Eq, Structural)]
pub struct RawMetrics {
    pub self_load: u8,
    pub self_temperature: i8,
    pub active_connections: u8,
    pub failed_auth_count: u8,
    pub last_sync_age_sec: u64,
    pub neighbor_count: usize,
    pub neighbors_isolated: usize,
    pub neighbors_degraded: usize,
    pub neighbors_reconnecting: usize,
    pub neighbors_avg_load: Single,
    pub neighbors_max_threat: Single,
    pub neighbors_failed_auth_avg: Single,
    pub neighbors_avg_connections: Single,
    pub peer_suspicion_count: usize,
    pub time_in_state_sec: u64,
    pub previous_threat_score: Single,
}

/// One answer of the self model.
#[derive(Debug)]
pub struct AiDecisionEntry {
    pub tick: u64,
    pub node_id: u32,
    pub metrics: RawMetrics,
    pub class_name: String,
    pub reason: String,
    pub threat: Single,
    pub confidence: Single,
    pub recorded_at: u64,
}

#[verifier::ext_equal]
pub struct AiDecisionView {
    pub tick: u64,
    pub node_id: u32,
    pub metrics: RawMetrics,
    pub class_name: Seq<char>,
    pub reason: Seq<char>,
    pub threat: Single,
    pub confidence: Single,
    pub recorded_at: u64,
}

impl View for AiDecisionEntry {
    type V = AiDecisionView;

    open spec fn view(&self) -> AiDecisionView {
        AiDecisionView {
            tick: self.tick,
            node_id: self.node_id,
            metrics: self.metrics,
            class_name: self.class_name@,
            reason: self.reason@,
            threat: self.threat,
            confidence: self.confidence,
            recorded_at: self.recorded_at,
        }
    }
}

impl Clone for AiDecisionEntry {
    fn clone(&self) -> (e: Self)
        ensures
            e == *self,
    {
        AiDecisionEntry {
            tick: self.tick,
            node_id: self.node_id,
            metrics: self.metrics,
            class_name: self.class_name.clone(),
            reason: self.reason.clone(),
            threat: self.threat,
            confidence: self.confidence,
            recorded_at: self.recorded_at,
        }
    }
}

impl AiDecisionEntry {
    /// The record of an answer, stamped with the time `recorded_at` in seconds.
    pub fn now(
        tick: u64,
        node_id: u32,
        metrics: RawMetrics,
        class_name: String,
        reason: String,
        threat: Single,
        confidence: Single,
        recorded_at: u64,
    ) -> (e: Self)
        ensures
            e == (AiDecisionEntry {
                tick,
                node_id,
                metrics,
                class_name,
                reason,
                threat,
                confidence,
                recorded_at,
            }),
    {
        AiDecisionEntry { tick, node_id, metrics, class_name, reason, threat, confidence, recorded_at }
    }
}

/// A record that belongs to a tick.
pub trait TickIndexed {
    spec fn stamp(&self) -> u64;

    fn tick(&self) -> (t: u64)
        ensures
            t == self.stamp(),
    ;
}

impl TickIndexed for LifecycleEntry {
    open spec fn stamp(&self) -> u64 {
        self.tick
    }

    fn tick(&self) -> (t: u64) {
        self.tick
    }
}

impl TickIndexed for SignalEntry {
    open spec fn stamp(&self) -> u64 {
        self.tick
    }

    fn tick(&self) -> (t: u64) {
        self.tick
    }
}

impl TickIndexed for AiDecisionEntry {
    open spec fn stamp(&self) -> u64 {
        self.tick
    }

    fn tick(&self) -> (t: u64) {
        self.tick
    }
}

/// A log file's buffer.
///
/// Records gather in `buffer`; a flush hands them over to `outgoing`, from where the owner of the
/// file takes them and writes them down.
#[derive(Debug)]
pub struct JsonlLogger<T> {
    pub file_path: String,
    pub buffer: Vec<T>,
    pub outgoing: Vec<T>,
    pub flush_every: u64,
    pub last_flush: u64,
}

/// What a log holds.
#[verifier::ext_equal]
pub struct LogView<V> {
    pub file_path: Seq<char>,
    pub buffer: Seq<V>,
    pub outgoing: Seq<V>,
    pub flush_every: u64,
    pub last_flush: u64,
}

impl<V> LogView<V> {
    /// The log after its buffer was handed over.
    pub open spec fn flushed(self, current_tick: u64) -> LogView<V> {
        if self.buffer.len() == 0 {
            self
        } else {
            LogView { buffer: seq![], outgoing: self.outgoing + self.buffer, last_flush: current_tick, ..self }
        }
    }

    /// The log after it has taken a record in.
    pub open spec fn pushed(self, entry: V, current_tick: u64) -> LogView<V> {
        let log = LogView { buffer: self.buffer.push(entry), ..self };
        if since(current_tick, self.last_flush) >= self.flush_every { log.flushed(current_tick) } else { log }
    }

    /// The log after the records to be written down were given out.
    pub open spec fn taken(self) -> LogView<V> {
        LogView { outgoing: seq![], ..self }
    }

    /// The log after records that could not be written were given back.
    pub open spec fn returned(self, records: Seq<V>, last_flush: u64) -> LogView<V> {
        LogView { buffer: records + self.buffer, last_flush, ..self }
    }

    /// Everything the log has taken in and not had written down.
    pub open spec fn unwritten(self) -> Seq<V> {
        self.outgoing + self.buffer
    }
}

impl<V> LogView<V> {
    /// The log after it has taken the first `n` records in.
    pub open spec fn pushed_all(self, entries: Seq<V>, current_tick: u64, n: nat) -> LogView<V>
        decreases n,
    {
        if n == 0 {
            self
        } else {
            self.pushed_all(entries, current_tick, (n - 1) as nat).pushed(entries[n - 1], current_tick)
        }
    }
}

impl<T: View> View for JsonlLogger<T> {
    type V = LogView<T::V>;

    open spec fn view(&self) -> LogView<T::V> {
        LogView {
            file_path: self.file_path@,
            buffer: self.buffer@.map_values(|e: T| e@),
            outgoing: self.outgoing@.map_values(|e: T| e@),
            flush_every: self.flush_every,
            last_flush: self.last_flush,
        }
    }
}

/// A log loses nothing and reorders nothing: a record that comes in stands behind all others that
/// were not written down yet, whether or not the buffer is handed over.
pub proof fn law_log_keeps_order<V>(log: LogView<V>, entry: V, current_tick: u64)
    ensures
        log.pushed(entry, current_tick).unwritten() == log.unwritten().push(entry),
        log.flushed(current_tick).unwritten() == log.unwritten(),
{
    assert(log.pushed(entry, current_tick).unwritten() =~= log.unwritten().push(entry));
    assert(log.flushed(current_tick).unwritten() =~= log.unwritten());
}

/// A failed write loses nothing and reorders nothing.
pub proof fn law_failed_write<V>(log: LogView<V>, last_flush: u64)
    ensures
        log.taken().returned(log.outgoing, last_flush).unwritten() == log.unwritten(),
{
    assert(log.taken().returned(log.outgoing, last_flush).unwritten() =~= log.unwritten());
}

/// A log hands its buffer over with a new record exactly where as many ticks have passed since it last did as are set; it
/// notes the tick then. A flush does so in any case, unless there is nothing to hand over.
pub proof fn law_flush_by_interval<V>(log: LogView<V>, entry: V, current_tick: u64)
    ensures
        ({
            let after = log.pushed(entry, current_tick);
            let due = current_tick >= log.last_flush + log.flush_every || log.flush_every == 0;
            &&& due ==> after.buffer.len() == 0 && after.outgoing == log.outgoing + log.buffer.push(entry) && after.last_flush
                == current_tick
            &&& !due ==> after.buffer == log.buffer.push(entry) && after.outgoing == log.outgoing && after.last_flush
                == log.last_flush
            &&& after.file_path == log.file_path
            &&& after.flush_every == log.flush_every
        }),
        log.buffer.len() > 0 ==> log.flushed(current_tick).buffer.len() == 0 && log.flushed(current_tick).outgoing
            == log.outgoing + log.buffer && log.flushed(current_tick).last_flush == current_tick,
        log.buffer.len() == 0 ==> log.flushed(current_tick) == log,
        log.taken().outgoing.len() == 0,
        log.taken().buffer == log.buffer,
        log.taken().last_flush == log.last_flush,
{
}

/// The last tick that records speak of is that of one of them, and no record is later; there is none where there are no
/// records.
pub proof fn law_latest_stamp<T: TickIndexed>(entries: Seq<T>)
    ensures
        latest_stamp(entries) is None <==> entries.len() == 0,
        latest_stamp(entries) matches Some(t) ==> (exists|i: int| 0 <= i < entries.len() && (#[trigger] entries[i]).stamp() == t)
            && forall|i: int| 0 <= i < entries.len() ==> (#[trigger] entries[i]).stamp() <= t,
    decreases entries.len(),
{
    if entries.len() > 0 {
        let rest = entries.drop_last();
        law_latest_stamp(rest);
        let t = latest_stamp(entries)->0;
        let last = entries[entries.len() - 1];
        assert(last == entries.last());
        if rest.len() > 0 {
            let s = latest_stamp(rest)->0;
            let i = choose|i: int| 0 <= i < rest.len() && (#[trigger] rest[i]).stamp() == s;
            assert(entries[i].stamp() == s);
            assert(last.stamp() == t || entries[i].stamp() == t);
        } else {
            assert(last.stamp() == t);
        }
        assert forall|i: int| 0 <= i < entries.len() implies (#[trigger] entries[i]).stamp() <= t by {
            if i < rest.len() {
                assert(rest[i].stamp() <= latest_stamp(rest)->0);
            }
        }
    }
}

/// What differs between two snapshots is noted part by part: nothing where a part is the same, and else what it was and what
/// it is.
pub proof fn law_change_noted(before: SnapshotView, after: SnapshotView)
    ensures
        before.diff(after).load == if before.load == after.load { None } else { Some((before.load, after.load)) },
        before.diff(after).mode == if before.mode == after.mode { None } else { Some((before.mode, after.mode)) },
        before.diff(after).active_connections == if before.active_connections == after.active_connections {
            None
        } else {
            Some((before.active_connections, after.active_connections))
        },
        before.diff(after).failed_auth_count == if before.failed_auth_count == after.failed_auth_count {
            None
        } else {
            Some((before.failed_auth_count, after.failed_auth_count))
        },
{
}

/// Why a log could not be read back.
#[derive(Debug)]
pub enum LoadError {
    /// The file could not be opened or read, with the system's message.
    Io(String),
}

impl LoadError {
    pub open spec fn text(&self) -> Seq<char> {
        match self {
            LoadError::Io(e) => "IO error: "@ + e@,
        }
    }

    pub fn message(&self) -> (s: String)
        ensures
            s@ == self.text(),
    {
        match self {
            LoadError::Io(e) => "IO error: ".to_string().concat(e.as_str()),
        }
    }
}

/// `a - b`, or zero.
pub open spec fn since(a: u64, b: u64) -> u64 {
    if a >= b { (a - b) as u64 } else { 0 }
}

/// The largest stamp of the records, if there are any.
pub open spec fn latest_stamp<T: TickIndexed>(entries: Seq<T>) -> Option<u64>
    decreases entries.len(),
{
    if entries.len() == 0 {
        None
    } else {
        larger_tick(latest_stamp(entries.drop_last()), Some(entries.last().stamp()))
    }
}

pub open spec fn larger_tick(a: Option<u64>, b: Option<u64>) -> Option<u64> {
    match (a, b) {
        (Some(x), Some(y)) => Some(if x > y { x } else { y }),
        (Some(x), None) => Some(x),
        (None, y) => y,
    }
}

pub fn max_tick(a: Option<u64>, b: Option<u64>) -> (m: Option<u64>)
    ensures
        m == larger_tick(a, b),
{
    match (a, b) {
        (Some(x), Some(y)) => Some(if x > y { x } else { y }),
        (Some(x), None) => Some(x),
        (None, y) => y,
    }
}

/// What a line of a log file holds.
#[derive(Debug)]
pub enum LogLine<T> {
    Blank,
    Entry(T),
    /// No record can be made out of it.
    Corrupted,
}

/// The text of a record in a line: what the line holds but for the white space around it. A line that holds
/// nothing else has none.
pub fn record_text<'a>(line: &'a str) -> (text: Option<&'a str>)
    ensures
        text is None <==> trimmed(line@).len() == 0,
        text matches Some(t) ==> t@ == trimmed(line@),
{
    let text = trim(line);
    if text.unicode_len() == 0 {
        None
    } else {
        Some(text)
    }
}

/// What the lines of a log give: the records that could be read, in order.
pub open spec fn readable<T>(lines: Seq<LogLine<T>>) -> Seq<T>
    decreases lines.len(),
{
    if lines.len() == 0 {
        Seq::empty()
    } else {
        match lines.last() {
            LogLine::Entry(entry) => readable(lines.drop_last()).push(entry),
            _ => readable(lines.drop_last()),
        }
    }
}

/// How many lines are corrupted.
pub open spec fn corrupted<T>(lines: Seq<LogLine<T>>) -> nat
    decreases lines.len(),
{
    if lines.len() == 0 {
        0
    } else {
        corrupted(lines.drop_last()) + if lines.last() is Corrupted { 1nat } else { 0 }
    }
}

/// Lines that stand behind others are read back behind them.
pub proof fn law_read_in_order<T>(first: Seq<LogLine<T>>, second: Seq<LogLine<T>>)
    ensures
        readable(first + second) == readable(first) + readable(second),
    decreases second.len(),
{
    if second.len() == 0 {
        assert(first + second =~= first);
        assert(readable(first) + readable(second) =~= readable(first));
    } else {
        assert((first + second).drop_last() =~= first + second.drop_last());
        assert((first + second).last() == second.last());
        law_read_in_order(first, second.drop_last());
        assert(readable(first + second) =~= readable(first) + readable(second));
    }
}

/// What was written down behind older lines is read back behind what these hold, each record once and
/// in order; blank and corrupted lines are left out.
pub proof fn law_written_is_read_back<T>(older: Seq<LogLine<T>>, written: Seq<T>)
    ensures
        readable(older + written.map_values(|e: T| LogLine::Entry(e))) == readable(older) + written,
{
    law_read_in_order(older, written.map_values(|e: T| LogLine::Entry(e)));
    lemma_all_readable(written);
}

proof fn lemma_all_readable<T>(written: Seq<T>)
    ensures
        readable(written.map_values(|e: T| LogLine::Entry(e))) == written,
    decreases written.len(),
{
    let lines = written.map_values(|e: T| LogLine::Entry(e));
    if written.len() > 0 {
        lemma_all_readable(written.drop_last());
        assert(lines.drop_last() =~= written.drop_last().map_values(|e: T| LogLine::Entry(e)));
        assert(readable(lines) =~= written);
    } else {
        assert(readable(lines) =~= written);
    }
}

/// What is pushed to a log is handed over behind what it had, each record once and in the order of the
/// pushes, once the log is flushed.
pub proof fn law_pushed_is_handed_over<V>(log: LogView<V>, entries: Seq<V>, current_tick: u64, n: nat)
    requires
        n <= entries.len(),
    ensures
        log.pushed_all(entries, current_tick, n).unwritten() == log.unwritten() + entries.take(n as int),
        log.pushed_all(entries, current_tick, n).flushed(current_tick).outgoing == log.unwritten() + entries.take(
            n as int,
        ),
        log.pushed_all(entries, current_tick, n).flushed(current_tick).buffer.len() == 0,
    decreases n,
{
    let after = log.pushed_all(entries, current_tick, n);
    if n > 0 {
        law_pushed_is_handed_over(log, entries, current_tick, (n - 1) as nat);
        law_log_keeps_order(log.pushed_all(entries, current_tick, (n - 1) as nat), entries[n - 1], current_tick);
        assert(entries.take(n as int) =~= entries.take(n - 1).push(entries[n - 1]));
        assert(after.unwritten() =~= log.unwritten() + entries.take(n as int));
    } else {
        assert(log.unwritten() + entries.take(0) =~= log.unwritten());
    }
    lemma_flushed(after, current_tick);
}

proof fn lemma_flushed<V>(log: LogView<V>, current_tick: u64)
    ensures
        log.flushed(current_tick).outgoing == log.unwritten(),
        log.flushed(current_tick).buffer.len() == 0,
{
    assert(log.flushed(current_tick).outgoing =~= log.unwritten());
}

impl<T: View> JsonlLogger<T> {
    /// An empty buffer for the log at `file_path`.
    pub fn open(file_path: String, flush_every: u64) -> (l: Self)
        ensures
            l@ == empty_log::<T::V>(file_path@, flush_every),
            l.file_path == file_path,
    {
        let l = JsonlLogger { file_path, buffer: Vec::new(), outgoing: Vec::new(), flush_every, last_flush: 0 };
        assert(l@ =~= empty_log::<T::V>(file_path@, flush_every));
        l
    }

    /// Takes a record in, and flushes when the last flush is `flush_every` ticks back.
    pub fn push(&mut self, entry: T, current_tick: u64)
        ensures
            final(self)@ == old(self)@.pushed(entry@, current_tick),
    {
        let ghost e = entry@;
        let ghost before = self.buffer@;
        self.buffer.push(entry);
        assert(self.buffer@.map_values(|e: T| e@) =~= before.map_values(|e: T| e@).push(e));
        if current_tick.saturating_sub(self.last_flush) >= self.flush_every {
            self.flush(current_tick);
        }
    }

    /// Hands the buffer over to be written down. An empty buffer leaves everything as it is.
    pub fn flush(&mut self, current_tick: u64)
        ensures
            final(self)@ == old(self)@.flushed(current_tick),
    {
        if self.buffer.len() == 0 {
            return;
        }
        let ghost buffer = self.buffer@;
        let ghost outgoing = self.outgoing@;
        self.outgoing.append(&mut self.buffer);
        self.last_flush = current_tick;
        proof {
            assert(self.outgoing@.map_values(|e: T| e@) =~= outgoing.map_values(|e: T| e@) + buffer.map_values(
                |e: T| e@,
            ));
            assert(self.buffer@.map_values(|e: T| e@) =~= seq![]);
            assert(self@ =~= old(self)@.flushed(current_tick));
        }
    }

    /// Gives out the records that are to be written down now.
    pub fn take_outgoing(&mut self) -> (records: Vec<T>)
        ensures
            records@ == old(self).outgoing@,
            final(self)@ == old(self)@.taken(),
    {
        let mut records: Vec<T> = Vec::new();
        std::mem::swap(&mut records, &mut self.outgoing);
        assert(self.outgoing@.map_values(|e: T| e@) =~= seq![]);
        records
    }

    /// Takes back records that could not be written: they stand in front of the buffer again,
    /// and the flush counts as not made since `last_flush`.
    pub fn put_back(&mut self, records: Vec<T>, last_flush: u64)
        ensures
            final(self)@ == old(self)@.returned(records@.map_values(|e: T| e@), last_flush),
    {
        let ghost first = records@;
        let ghost buffer = self.buffer@;
        let mut records: Vec<T> = records;
        records.append(&mut self.buffer);
        assert(records@.map_values(|e: T| e@) =~= first.map_values(|e: T| e@) + buffer.map_values(|e: T| e@));
        self.buffer = records;
        self.last_flush = last_flush;
    }

    /// Collects what the lines of the log hold: the records in order, and the number of lines that are
    /// corrupted. Blank lines are passed over.
    pub fn load_all(&self, lines: Vec<LogLine<T>>) -> (loaded: (Vec<T>, usize))
        ensures
            loaded.0@ == readable(lines@),
            loaded.1 == corrupted(lines@),
    {
        let mut entries: Vec<T> = Vec::new();
        let mut errors: usize = 0;
        let total: usize = lines.len();
        let ghost all = lines@;
        for line in it: lines
            invariant
                it.seq() == all,
                entries@ == readable(all.take(it.index())),
                errors == corrupted(all.take(it.index())),
                errors <= it.index(),
                all.len() == total,
        {
            proof {
                assert(all.take(it.index() + 1).drop_last() =~= all.take(it.index()));
            }
            match line {
                LogLine::Entry(entry) => {
                    entries.push(entry);
                },
                LogLine::Corrupted => {
                    errors = errors + 1;
                },
                LogLine::Blank => {},
            }
        }
        assert(all.take(all.len() as int) =~= all);
        (entries, errors)
    }

    pub fn path(&self) -> (p: &str)
        ensures
            p@ == self.file_path@,
    {
        self.file_path.as_str()
    }
}

impl<T: View + TickIndexed> JsonlLogger<T> {
    /// The last tick that the loaded records speak of; nothing where the log could not be read.
    pub fn last_tick(&self, loaded: Result<Vec<T>, LoadError>) -> (last: Result<Option<u64>, LoadError>)
        ensures
            match loaded {
                Ok(entries) => last == Ok::<Option<u64>, LoadError>(latest_stamp(entries@)),
                Err(e) => last == Err::<Option<u64>, LoadError>(e),
            },
    {
        match loaded {
            Ok(entries) => {
                let mut last: Option<u64> = None;
                let mut i: usize = 0;
                while i < entries.len()
                    invariant
                        i <= entries.len(),
                        last == latest_stamp(entries@.take(i as int)),
                    decreases entries.len() - i,
                {
                    last = max_tick(last, Some(entries[i].tick()));
                    proof {
                        assert(entries@.take(i + 1).drop_last() =~= entries@.take(i as int));
                    }
                    i = i + 1;
                }
                assert(entries@.take(i as int) =~= entries@);
                Ok(last)
            },
            Err(e) => Err(e),
        }
    }
}

/// The three logs of a network.
#[derive(Debug)]
pub struct NetworkLogger {
    pub lifecycle: JsonlLogger<LifecycleEntry>,
    pub signals: JsonlLogger<SignalEntry>,
    pub ai_decisions: JsonlLogger<AiDecisionEntry>,
}

/// What the three logs hold.
#[verifier::ext_equal]
pub struct JournalView {
    pub lifecycle: LogView<LifecycleView>,
    pub signals: LogView<SignalEntryView>,
    pub ai_decisions: LogView<AiDecisionView>,
}

impl View for NetworkLogger {
    type V = JournalView;

    open spec fn view(&self) -> JournalView {
        JournalView {
            lifecycle: self.lifecycle@,
            signals: self.signals@,
            ai_decisions: self.ai_decisions@,
        }
    }
}

impl JournalView {
    /// The logs after all three buffers were handed over.
    pub open spec fn flushed(self, current_tick: u64) -> JournalView {
        JournalView {
            lifecycle: self.lifecycle.flushed(current_tick),
            signals: self.signals.flushed(current_tick),
            ai_decisions: self.ai_decisions.flushed(current_tick),
        }
    }
}

/// An empty log.
pub open spec fn empty_log<V>(file_path: Seq<char>, flush_every: u64) -> LogView<V> {
    LogView { file_path, buffer: seq![], outgoing: seq![], flush_every, last_flush: 0 }
}

impl NetworkLogger {
    /// Empty buffers for the logs at the three paths.
    pub fn open(lifecycle: String, signals: String, ai_decisions: String, flush_every: u64) -> (l: Self)
        ensures
            l@ == (JournalView {
                lifecycle: empty_log(lifecycle@, flush_every),
                signals: empty_log(signals@, flush_every),
                ai_decisions: empty_log(ai_decisions@, flush_every),
            }),
    {
        NetworkLogger {
            lifecycle: JsonlLogger::open(lifecycle, flush_every),
            signals: JsonlLogger::open(signals, flush_every),
            ai_decisions: JsonlLogger::open(ai_decisions, flush_every),
        }
    }

    /// Hands all three buffers over to be written down.
    pub fn flush_all(&mut self, current_tick: u64)
        ensures
            final(self)@ == old(self)@.flushed(current_tick),
    {
        self.lifecycle.flush(current_tick);
        self.signals.flush(current_tick);
        self.ai_decisions.flush(current_tick);
    }

    /// The last tick that any of the logs speaks of; a log that could not be read is passed over.
    pub fn last_tick(
        &self,
        lifecycle: Result<Option<u64>, LoadError>,
        signals: Result<Option<u64>, LoadError>,
        ai_decisions: Result<Option<u64>, LoadError>,
    ) -> (last: Option<u64>)
        ensures
            last == larger_tick(larger_tick(known(lifecycle), known(signals)), known(ai_decisions)),
    {
        let a: Option<u64> = match lifecycle {
            Ok(t) => t,
            Err(_) => None,
        };
        let b: Option<u64> = match signals {
            Ok(t) => t,
            Err(_) => None,
        };
        let c: Option<u64> = match ai_decisions {
            Ok(t) => t,
            Err(_) => None,
        };
        max_tick(max_tick(a, b), c)
    }
}

pub open spec fn known(tick: Result<Option<u64>, LoadError>) -> Option<u64> {
    match tick {
        Ok(t) => t,
        Err(_) => None,
    }
}

} // verus!
