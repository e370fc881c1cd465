//! The structured protocol that automated clients read: every answer says
//! how the request went, and what input it waits for, if any.
use vstd::prelude::*;
use crate::engine::config::VERSION;
use crate::engine::modules::Module;
use crate::engine::operation::{InputRequest, InputType, Operation, OperationResult, Status};
use crate::system::{new_id, now_rfc3339};

verus! {

/// How a request went.
#[derive(Clone, Copy, Debug, PartialEq, Eq, Structural)]
pub enum AiStatus {
    Success,
    Partial,
    Failed,
    RequiresInput,
}

/// The kind of input asked for.
#[derive(Clone, Copy, Debug, PartialEq, Eq, Structural)]
pub enum ActionType {
    Confirm,
    Input,
    Select,
    Password,
}

/// How the kind of input is written.
pub open spec fn input_kind_text(a: ActionType) -> Seq<char> {
    match a {
        ActionType::Confirm => "confirm"@,
        ActionType::Input => "input"@,
        ActionType::Select => "select"@,
        ActionType::Password => "password"@,
    }
}

impl ActionType {
    /// How the kind of input is written.
    pub fn to_string(&self) -> (r: String)
        ensures
            r@ == input_kind_text(*self),
    {
        let s = match self {
            ActionType::Confirm => "confirm",
            ActionType::Input => "input",
            ActionType::Select => "select",
            ActionType::Password => "password",
        };
        s.to_string()
    }
}

/// The input a client is asked for.
pub struct AiAction {
    pub action_type: ActionType,
    pub message: String,
    pub options: Option<Vec<String>>,
    pub default: Option<String>,
}

/// The payload of an answer.
pub enum AiData {
    Operations(Vec<Operation>),
    Modules(Vec<Module>),
    /// A state, as JSON text.
    State(String),
    Error { code: String, message: String },
}

/// An answer of the protocol.
pub struct AiResponse {
    pub version: String,
    pub timestamp: String,
    pub request_id: String,
    pub status: AiStatus,
    pub data: AiData,
    pub requires_action: Option<AiAction>,
}

/// A request a client sends.
pub struct AiRequest {
    pub command: String,
    pub args: Vec<String>,
    pub context: AiContext,
    pub auto_confirm: bool,
}

/// Where a client's request comes from.
pub struct AiContext {
    pub workspace: String,
    pub os: String,
    pub arch: String,
}

/// Some operation waits for input.
pub open spec fn any_pending(ops: Seq<Operation>) -> bool {
    exists|i: int| 0 <= i < ops.len() && (#[trigger] ops[i]).status == Status::PendingInput
}

/// Some operation failed.
pub open spec fn any_failed(ops: Seq<Operation>) -> bool {
    exists|i: int| 0 <= i < ops.len() && (#[trigger] ops[i]).status == Status::Failed
}

/// Some operation succeeded.
pub open spec fn any_succeeded(ops: Seq<Operation>) -> bool {
    exists|i: int| 0 <= i < ops.len() && (#[trigger] ops[i]).status == Status::Success
}

/// The status of an answer about the operations, read from the operations
/// themselves: waiting for input when one does; success when none failed;
/// partial when some failed and some succeeded; failed when some failed and
/// none succeeded.
pub open spec fn status_of(ops: Seq<Operation>) -> AiStatus {
    if any_pending(ops) {
        AiStatus::RequiresInput
    } else if !any_failed(ops) {
        AiStatus::Success
    } else if any_succeeded(ops) {
        AiStatus::Partial
    } else {
        AiStatus::Failed
    }
}

/// The index of the first operation that waits for input.
pub open spec fn first_pending(ops: Seq<Operation>) -> Option<int>
    decreases ops.len(),
{
    if ops.len() == 0 {
        None
    } else if ops[0].status == Status::PendingInput {
        Some(0)
    } else {
        match first_pending(ops.drop_first()) {
            Some(i) => Some(i + 1),
            None => None,
        }
    }
}

/// The kind of input a question asks for.
pub open spec fn action_kind(t: InputType) -> ActionType {
    match t {
        InputType::Confirm => ActionType::Confirm,
        InputType::Text => ActionType::Input,
        InputType::Password => ActionType::Password,
        InputType::Select => ActionType::Select,
    }
}

/// `a` asks what the question `q` asks, with no options listed.
pub open spec fn asks(a: AiAction, q: InputRequest) -> bool {
    &&& a.action_type == action_kind(q.input_type)
    &&& a.message@ == q.message@
    &&& a.options is None
    &&& match (a.default, q.default) {
        (Some(x), Some(y)) => x@ == y@,
        (None, None) => true,
        _ => false,
    }
}

/// The action an answer asks for: the question of the first operation that
/// waits for input, if that operation has one.
pub open spec fn action_of(ops: Seq<Operation>, a: Option<AiAction>) -> bool {
    match first_pending(ops) {
        Some(i) => match ops[i].requires_input {
            Some(q) => a matches Some(x) && asks(x, q),
            None => a is None,
        },
        None => a is None,
    }
}

proof fn lemma_first_pending(ops: Seq<Operation>)
    ensures
        first_pending(ops) matches Some(i) ==> 0 <= i < ops.len() && ops[i].status == Status::PendingInput
            && forall|k: int| 0 <= k < i ==> (#[trigger] ops[k]).status != Status::PendingInput,
        first_pending(ops) is None ==> !any_pending(ops),
    decreases ops.len(),
{
    if ops.len() > 0 {
        lemma_first_pending(ops.drop_first());
        if ops[0].status != Status::PendingInput {
            assert forall|k: int| 1 <= k < ops.len() implies ops.drop_first()[k - 1] == #[trigger] ops[k] by {}
            if first_pending(ops.drop_first()) is None {
                assert forall|k: int| 0 <= k < ops.len() implies (#[trigger] ops[k]).status != Status::PendingInput by {
                    if k > 0 {
                        assert(ops.drop_first()[k - 1] == ops[k]);
                    }
                }
            }
        }
    }
}

proof fn lemma_first_pending_is(ops: Seq<Operation>, i: int)
    requires
        0 <= i < ops.len(),
        ops[i].status == Status::PendingInput,
        forall|k: int| 0 <= k < i ==> (#[trigger] ops[k]).status != Status::PendingInput,
    ensures
        first_pending(ops) == Some(i),
    decreases i,
{
    if i > 0 {
        assert forall|k: int| 0 <= k < i - 1 implies (#[trigger] ops.drop_first()[k]).status != Status::PendingInput by {
            assert(ops.drop_first()[k] == ops[k + 1]);
        }
        lemma_first_pending_is(ops.drop_first(), i - 1);
    }
}

/// The question as an action for the client.
fn action_from(q: &InputRequest) -> (r: AiAction)
    ensures
        asks(r, *q),
{
    let kind = match q.input_type {
        InputType::Confirm => ActionType::Confirm,
        InputType::Text => ActionType::Input,
        InputType::Password => ActionType::Password,
        InputType::Select => ActionType::Select,
    };
    let default = match &q.default {
        Some(d) => Some(d.clone()),
        None => None,
    };
    AiAction { action_type: kind, message: q.message.clone(), options: None, default }
}

impl AiResponse {
    /// The status of an answer about the result.
    pub fn status_for(result: &OperationResult) -> (r: AiStatus)
        ensures
            r == status_of(result.operations@),
    {
        let ops = &result.operations;
        let mut pending = false;
        let mut failed = false;
        let mut succeeded = false;
        let mut i: usize = 0;
        while i < ops.len()
            invariant
                i <= ops.len(),
                ops@ == result.operations@,
                pending == exists|k: int| 0 <= k < i && (#[trigger] ops@[k]).status == Status::PendingInput,
                failed == exists|k: int| 0 <= k < i && (#[trigger] ops@[k]).status == Status::Failed,
                succeeded == exists|k: int| 0 <= k < i && (#[trigger] ops@[k]).status == Status::Success,
            decreases ops.len() - i,
        {
            let s = ops[i].status;
            if s == Status::PendingInput {
                pending = true;
            }
            if s == Status::Failed {
                failed = true;
            }
            if s == Status::Success {
                succeeded = true;
            }
            i = i + 1;
        }
        if pending {
            AiStatus::RequiresInput
        } else if !failed {
            AiStatus::Success
        } else if succeeded {
            AiStatus::Partial
        } else {
            AiStatus::Failed
        }
    }

    /// The action an answer about the operations asks for.
    pub fn action_for(ops: &Vec<Operation>) -> (r: Option<AiAction>)
        ensures
            action_of(ops@, r),
    {
        let mut i: usize = 0;
        while i < ops.len()
            invariant
                i <= ops.len(),
                forall|k: int| 0 <= k < i ==> (#[trigger] ops@[k]).status != Status::PendingInput,
            decreases ops.len() - i,
        {
            if ops[i].status == Status::PendingInput {
                proof {
                    lemma_first_pending_is(ops@, i as int);
                }
                return match &ops[i].requires_input {
                    Some(q) => Some(action_from(q)),
                    None => None,
                };
            }
            i = i + 1;
        }
        proof {
            lemma_first_pending(ops@);
            if first_pending(ops@) is Some {
                let j = first_pending(ops@).unwrap();
                assert(ops@[j].status != Status::PendingInput);
            }
        }
        None
    }

    /// The answer about a result, with the given time and request id.
    pub fn from_parts(result: OperationResult, timestamp: String, request_id: String) -> (r: AiResponse)
        ensures
            r.version@ == VERSION@,
            r.timestamp == timestamp,
            r.request_id == request_id,
            r.status == status_of(result.operations@),
            action_of(result.operations@, r.requires_action),
            r.data == AiData::Operations(result.operations),
    {
        let status = Self::status_for(&result);
        let requires_action = Self::action_for(&result.operations);
        AiResponse {
            version: VERSION.to_string(),
            timestamp,
            request_id,
            status,
            data: AiData::Operations(result.operations),
            requires_action,
        }
    }

    /// The answer that reports a state (as JSON text), stamped now with a
    /// fresh request id: a success that asks for nothing.
    pub fn from_state(state_json: String) -> (r: AiResponse)
        ensures
            r.version@ == VERSION@,
            r.status == AiStatus::Success,
            r.requires_action is None,
            r.data matches AiData::State(t) && t@ == state_json@,
    {
        AiResponse {
            version: VERSION.to_string(),
            timestamp: now_rfc3339(),
            request_id: new_id(),
            status: AiStatus::Success,
            data: AiData::State(state_json),
            requires_action: None,
        }
    }

    /// The answer about a result, stamped now with a fresh request id.
    pub fn from_result(result: OperationResult) -> (r: AiResponse)
        ensures
            r.version@ == VERSION@,
            r.status == status_of(result.operations@),
            action_of(result.operations@, r.requires_action),
            r.data == AiData::Operations(result.operations),
    {
        let timestamp = now_rfc3339();
        let request_id = new_id();
        Self::from_parts(result, timestamp, request_id)
    }
}

/// An answer asks the user something only while an operation waits for
/// that very question, and its status is then `requires_input`; an answer
/// whose status is `success` is about operations none of which failed, and
/// one whose status is `failed` is about operations some of which failed and
/// none succeeded.
pub proof fn law_question_only_when_waiting(ops: Seq<Operation>, a: Option<AiAction>)
    requires
        action_of(ops, a),
    ensures
        a is Some ==> status_of(ops) == AiStatus::RequiresInput,
        a matches Some(x) ==> exists|i: int| 0 <= i < ops.len() && (#[trigger] ops[i]).status == Status::PendingInput
            && (ops[i].requires_input matches Some(q) && asks(x, q)),
        status_of(ops) == AiStatus::Success ==> forall|i: int| 0 <= i < ops.len() ==> (#[trigger] ops[i]).status != Status::Failed,
        status_of(ops) == AiStatus::Failed ==> any_failed(ops) && !any_succeeded(ops),
        (status_of(ops) == AiStatus::RequiresInput) <==> any_pending(ops),
{
    lemma_first_pending(ops);
    if a is Some {
        let i = first_pending(ops)->Some_0;
        assert(ops[i].status == Status::PendingInput);
    }
}

}
