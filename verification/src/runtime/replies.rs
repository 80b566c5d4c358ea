//! What clients are answered.

use vstd::prelude::*;

use crate::kv::state_machine::ApplyResult;
use crate::raft::types::NodeId;
use crate::runtime::actor::{AddLearnerOutcome, ProposeOutcome};
use crate::runtime::dto::apply_result_to_proto;
use crate::runtime::proto;

verus! {

/// A redirect, with the leader's id where it is known.
pub open spec fn redirect(hint: Option<NodeId>) -> proto::NotLeader {
    proto::NotLeader {
        leader_id: match hint {
            Some(id) => Some(id.0),
            None => None,
        },
    }
}

fn not_leader(hint: Option<NodeId>) -> (reply: proto::NotLeader)
    ensures
        reply == redirect(hint),
{
    match hint {
        Some(id) => proto::NotLeader { leader_id: Some(id.0) },
        None => proto::NotLeader { leader_id: None },
    }
}

/// What a proposal is answered: a redirect if this node isn't the leader; the
/// value once the entry is known to be applied; else that its fate is unknown.
/// `applied` is what is known of the entry after waiting for it: nothing if it
/// was not applied in time, or its result is gone.
pub fn propose_reply(outcome: ProposeOutcome, applied: Option<ApplyResult>) -> (reply:
    proto::ProposeReply)
    ensures
        match outcome {
            ProposeOutcome::NotLeader(hint) => reply == proto::ProposeReply::NotLeader(
                redirect(hint),
            ),
            ProposeOutcome::Accepted(index) => match applied {
                Some(result) => reply matches proto::ProposeReply::Applied(answer) && answer.index
                    == index && (answer.result matches Some(written) && written.deep_view() == Some(
                    result.deep_view(),
                )),
                None => reply == proto::ProposeReply::Indeterminate,
            },
        },
{
    match outcome {
        ProposeOutcome::NotLeader(hint) => proto::ProposeReply::NotLeader(not_leader(hint)),
        ProposeOutcome::Accepted(index) => match applied {
            Some(result) => proto::ProposeReply::Applied(
                proto::ProposeApplied { index, result: Some(apply_result_to_proto(result)) },
            ),
            None => proto::ProposeReply::Indeterminate,
        },
    }
}

/// What a change of voters is answered.
pub fn propose_config_change_reply(outcome: ProposeOutcome) -> (reply:
    proto::ProposeConfigChangeReply)
    ensures
        reply == match outcome {
            ProposeOutcome::Accepted(index) => proto::ProposeConfigChangeReply::Accepted { index },
            ProposeOutcome::NotLeader(hint) => proto::ProposeConfigChangeReply::NotLeader(
                redirect(hint),
            ),
        },
{
    match outcome {
        ProposeOutcome::Accepted(index) => proto::ProposeConfigChangeReply::Accepted { index },
        ProposeOutcome::NotLeader(hint) => proto::ProposeConfigChangeReply::NotLeader(
            not_leader(hint),
        ),
    }
}

/// What adding a learner is answered.
pub fn add_learner_reply(outcome: AddLearnerOutcome) -> (reply: proto::AddLearnerReply)
    ensures
        reply == match outcome {
            AddLearnerOutcome::Accepted => proto::AddLearnerReply::Accepted,
            AddLearnerOutcome::NotLeader(hint) => proto::AddLearnerReply::NotLeader(redirect(hint)),
        },
{
    match outcome {
        AddLearnerOutcome::Accepted => proto::AddLearnerReply::Accepted,
        AddLearnerOutcome::NotLeader(hint) => proto::AddLearnerReply::NotLeader(not_leader(hint)),
    }
}

} // verus!
