//! What a node proposes to do.

use vstd::prelude::*;

use crate::ai_module::AIOutput;
use crate::single::Single;
use crate::text::is_text;

verus! {

#[derive(Debug)]
pub struct Proposal {
    pub action: ProposalAction,
    pub threat_score: Single,
    pub predicted_state: String,
    pub event_reason: String,
    pub confidence: Single,
}

#[derive(Debug, Clone, Copy, PartialEq, Eq, Structural)]
pub enum ProposalAction {
    ReduceLoad,
    IncreaseLoad,
    EnterIsolation,
    ExitIsolation,
    EnterDegraded,
    ExitDegraded,
    BeginReconnect,
    ExitCalibration,
    DoNothing,
}

/// A proposal, with its texts as characters.
#[verifier::ext_equal]
pub struct ProposalView {
    pub action: ProposalAction,
    pub threat_score: Single,
    pub predicted_state: Seq<char>,
    pub event_reason: Seq<char>,
    pub confidence: Single,
}

impl View for Proposal {
    type V = ProposalView;

    open spec fn view(&self) -> ProposalView {
        ProposalView {
            action: self.action,
            threat_score: self.threat_score,
            predicted_state: self.predicted_state@,
            event_reason: self.event_reason@,
            confidence: self.confidence,
        }
    }
}

impl Clone for Proposal {
    fn clone(&self) -> (p: Self)
        ensures
            p == *self,
    {
        Proposal {
            action: self.action,
            threat_score: self.threat_score,
            predicted_state: self.predicted_state.clone(),
            event_reason: self.event_reason.clone(),
            confidence: self.confidence,
        }
    }
}

impl ProposalAction {
    pub open spec fn text(self) -> Seq<char> {
        match self {
            ProposalAction::ReduceLoad => "ReduceLoad"@,
            ProposalAction::IncreaseLoad => "IncreaseLoad"@,
            ProposalAction::EnterIsolation => "EnterIsolation"@,
            ProposalAction::ExitIsolation => "ExitIsolation"@,
            ProposalAction::EnterDegraded => "EnterDegraded"@,
            ProposalAction::ExitDegraded => "ExitDegraded"@,
            ProposalAction::BeginReconnect => "BeginReconnect"@,
            ProposalAction::ExitCalibration => "ExitCalibration"@,
            ProposalAction::DoNothing => "DoNothing"@,
        }
    }

    /// The action's name.
    pub fn name(self) -> (s: String)
        ensures
            s@ == self.text(),
    {
        match self {
            ProposalAction::ReduceLoad => "ReduceLoad".to_string(),
            ProposalAction::IncreaseLoad => "IncreaseLoad".to_string(),
            ProposalAction::EnterIsolation => "EnterIsolation".to_string(),
            ProposalAction::ExitIsolation => "ExitIsolation".to_string(),
            ProposalAction::EnterDegraded => "EnterDegraded".to_string(),
            ProposalAction::ExitDegraded => "ExitDegraded".to_string(),
            ProposalAction::BeginReconnect => "BeginReconnect".to_string(),
            ProposalAction::ExitCalibration => "ExitCalibration".to_string(),
            ProposalAction::DoNothing => "DoNothing".to_string(),
        }
    }
}

/// The action that a model recommends under this label; no action under any other label.
pub open spec fn recommended(label: Seq<char>) -> ProposalAction {
    if label == "reduce_load"@ {
        ProposalAction::ReduceLoad
    } else if label == "increase_load"@ {
        ProposalAction::IncreaseLoad
    } else if label == "enter_isolation"@ {
        ProposalAction::EnterIsolation
    } else if label == "enter_degraded"@ {
        ProposalAction::EnterDegraded
    } else if label == "exit_degraded"@ {
        ProposalAction::ExitDegraded
    } else if label == "begin_reconnect"@ {
        ProposalAction::BeginReconnect
    } else if label == "exit_isolation"@ {
        ProposalAction::ExitIsolation
    } else {
        ProposalAction::DoNothing
    }
}

impl From<AIOutput> for Proposal {
    fn from(output: AIOutput) -> (p: Self) {
        let label = &output.recommended_action;
        let action = if is_text(label, "reduce_load") {
            ProposalAction::ReduceLoad
        } else if is_text(label, "increase_load") {
            ProposalAction::IncreaseLoad
        } else if is_text(label, "enter_isolation") {
            ProposalAction::EnterIsolation
        } else if is_text(label, "enter_degraded") {
            ProposalAction::EnterDegraded
        } else if is_text(label, "exit_degraded") {
            ProposalAction::ExitDegraded
        } else if is_text(label, "begin_reconnect") {
            ProposalAction::BeginReconnect
        } else if is_text(label, "exit_isolation") {
            ProposalAction::ExitIsolation
        } else {
            ProposalAction::DoNothing
        };
        Proposal {
            action,
            threat_score: output.threat_score,
            predicted_state: output.predicted_state,
            event_reason: output.event_reason,
            confidence: output.confidence,
        }
    }
}

impl vstd::std_specs::convert::FromSpecImpl<AIOutput> for Proposal {
    open spec fn obeys_from_spec() -> bool {
        true
    }

    open spec fn from_spec(output: AIOutput) -> Self {
        Proposal {
            action: recommended(output.recommended_action@),
            threat_score: output.threat_score,
            predicted_state: output.predicted_state,
            event_reason: output.event_reason,
            confidence: output.confidence,
        }
    }
}

} // verus!
