//! Validation of inbound messages: the payload must fit the schema that the
//! policy declares for the channel, and an allow rule must cover the
//! sender's role.

use vstd::prelude::*;
use crate::message::{
    BroadcastMessage, EnvelopeView, InvalidChannelError, Message, MessageError, MessageErrorView,
    MessageView, RequestMessage, ResponseMessage, UnauthorizedError,
};
use crate::payload::{ParamType, ParamView, Params};
use crate::text::same_text;
use crate::policy::{
    policy_view, params_view, BroadcastStmt, MessageParams, MessageParamsView, MessageStmt, MessageStmtView, MsgType,
    RequestStmt, ResponseStmt, SchemaView, Statement, StatementView,
};

verus! {

/// Whether a value carries the tag that the declared type names. A type
/// name outside the four known ones matches no value.
pub open spec fn tag_matches(declared: Seq<char>, value: ParamView) -> bool {
    match value {
        ParamView::String(_) => declared == "string"@,
        ParamView::Int(_) => declared == "int"@,
        ParamView::Float(_) => declared == "float"@,
        ParamView::Bool(_) => declared == "bool"@,
    }
}

/// Whether some declared parameter has the name `key`.
pub open spec fn declares(params: Seq<MessageParamsView>, key: Seq<char>) -> bool {
    exists|i: int| 0 <= i < params.len() && (#[trigger] params[i]).param_name == key
}

/// Whether a payload has exactly the declared parameters, each with a value
/// of the declared type.
pub open spec fn conforms(params: Seq<MessageParamsView>, payload: Map<Seq<char>, ParamView>) -> bool {
    &&& forall|i: int|
        0 <= i < params.len() ==> payload.contains_key((#[trigger] params[i]).param_name)
            && tag_matches(params[i].param_type, payload[params[i].param_name])
    &&& forall|key: Seq<char>| #[trigger] payload.contains_key(key) ==> declares(params, key)
}

/// The verdict of one schema on a message of its kind: none if the message
/// is in order.
pub open spec fn schema_verdict(schema: SchemaView, message: EnvelopeView) -> Option<
    MessageErrorView,
> {
    if schema.msg_name != message.channel {
        Some(MessageErrorView::InvalidChannel)
    } else if conforms(schema.msg_params, message.payload) {
        None
    } else {
        Some(MessageErrorView::InvalidParameter(message.payload))
    }
}

/// The schema that a statement declares for messages of kind `kind`, if it
/// declares one. A listen subscribes to a broadcast channel and goes by the
/// broadcast schemas.
pub open spec fn schema_for(statement: StatementView, kind: MsgType) -> Option<SchemaView> {
    match (statement, kind) {
        (StatementView::Msg(MessageStmtView::Request(s)), MsgType::Request) => Some(s),
        (StatementView::Msg(MessageStmtView::Response(s)), MsgType::Response) => Some(s),
        (StatementView::Msg(MessageStmtView::Broadcast(s)), MsgType::Broadcast) => Some(s),
        (StatementView::Msg(MessageStmtView::Broadcast(s)), MsgType::Listen) => Some(s),
        _ => None,
    }
}

/// Whether the statement at `index` declares a schema for the kind and the
/// channel.
pub open spec fn declares_channel(
    policy: Seq<StatementView>,
    index: int,
    kind: MsgType,
    channel: Seq<char>,
) -> bool {
    &&& 0 <= index < policy.len()
    &&& schema_for(policy[index], kind) is Some
    &&& schema_for(policy[index], kind)->0.msg_name == channel
}

/// Whether the policy declares a schema for the kind and the channel.
pub open spec fn has_channel(policy: Seq<StatementView>, kind: MsgType, channel: Seq<char>) -> bool {
    exists|i: int| declares_channel(policy, i, kind, channel)
}

/// Whether some schema that the policy declares for the kind and the channel
/// is met by the payload.
pub open spec fn accepts_payload(
    policy: Seq<StatementView>,
    kind: MsgType,
    channel: Seq<char>,
    payload: Map<Seq<char>, ParamView>,
) -> bool {
    exists|i: int| #[trigger]
        declares_channel(policy, i, kind, channel) && conforms(
            schema_for(policy[i], kind)->0.msg_params,
            payload,
        )
}

/// The verdict of the policy's schemas on a message: an unknown channel
/// comes before a payload that is out of shape; a listen has no payload to
/// check.
pub open spec fn schema_check(policy: Seq<StatementView>, message: MessageView) -> Option<
    MessageErrorView,
> {
    if !has_channel(policy, message.kind(), message.channel()) {
        Some(MessageErrorView::InvalidChannel)
    } else {
        match message.payload() {
            None => None,
            Some(payload) => if accepts_payload(
                policy,
                message.kind(),
                message.channel(),
                payload,
            ) {
                None
            } else {
                Some(MessageErrorView::InvalidParameter(payload))
            },
        }
    }
}

/// Whether the statement at `index` declares that `child` extends `parent`.
pub open spec fn extends_at(
    policy: Seq<StatementView>,
    index: int,
    child: Seq<char>,
    parent: Seq<char>,
) -> bool {
    &&& 0 <= index < policy.len()
    &&& policy[index] is Role
    &&& policy[index]->Role_0.role_name == child
    &&& policy[index]->Role_0.extends_role == Some(parent)
}

/// Whether the policy declares that `child` extends `parent`.
pub open spec fn extends(policy: Seq<StatementView>, child: Seq<char>, parent: Seq<char>) -> bool {
    exists|i: int| extends_at(policy, i, child, parent)
}

/// Whether `ancestor` is reached from `role` in at most `steps` steps of
/// `extends`.
pub open spec fn inherits_within(
    policy: Seq<StatementView>,
    role: Seq<char>,
    ancestor: Seq<char>,
    steps: nat,
) -> bool
    decreases steps,
{
    role == ancestor || (steps > 0 && exists|mid: Seq<char>| #[trigger]
        extends(policy, role, mid) && inherits_within(policy, mid, ancestor, (steps - 1) as nat))
}

/// Whether `ancestor` is `role` itself or a role that it extends, directly
/// or through other roles.
pub open spec fn inherits(policy: Seq<StatementView>, role: Seq<char>, ancestor: Seq<char>) -> bool {
    exists|steps: nat| inherits_within(policy, role, ancestor, steps)
}

/// Whether the statement at `index` allows `holder` to send messages of the
/// kind on the channel. A filter expression on the rule changes nothing.
pub open spec fn allows_at(
    policy: Seq<StatementView>,
    index: int,
    holder: Seq<char>,
    kind: MsgType,
    channel: Seq<char>,
) -> bool {
    &&& 0 <= index < policy.len()
    &&& policy[index] is Allow
    &&& policy[index]->Allow_0.role_name == holder
    &&& policy[index]->Allow_0.msg_type == kind
    &&& policy[index]->Allow_0.msg_name == channel
}

/// Whether an allow rule for the kind and the channel names `role` or a
/// role that it inherits from.
pub open spec fn authorized(
    policy: Seq<StatementView>,
    role: Seq<char>,
    kind: MsgType,
    channel: Seq<char>,
) -> bool {
    exists|i: int, holder: Seq<char>| #[trigger]
        allows_at(policy, i, holder, kind, channel) && inherits(policy, role, holder)
}

/// The verdict on a message from a connection of role `role`: the schema
/// check first, then the allow rules.
pub open spec fn verdict(policy: Seq<StatementView>, role: Seq<char>, message: MessageView) -> Option<
    MessageErrorView,
> {
    match schema_check(policy, message) {
        Some(error) => Some(error),
        None => if authorized(policy, role, message.kind(), message.channel()) {
            None
        } else {
            Some(MessageErrorView::Unauthorized)
        },
    }
}

/// The view of an optional error.
pub open spec fn error_view(error: Option<MessageError>) -> Option<MessageErrorView> {
    match error {
        Some(e) => Some(e@),
        None => None,
    }
}

/// Whether a value carries the tag that the declared type names.
fn check_tag(declared: &String, value: &ParamType) -> (r: bool)
    ensures
        r == tag_matches(declared@, value@),
{
    match value {
        ParamType::String(_) => same_text(declared, "string"),
        ParamType::Int(_) => same_text(declared, "int"),
        ParamType::Float(_) => same_text(declared, "float"),
        ParamType::Bool(_) => same_text(declared, "bool"),
    }
}

/// Whether some declared parameter has the name `key`.
fn is_declared(stmt_params: &Vec<MessageParams>, key: &String) -> (r: bool)
    ensures
        r == declares(params_view(stmt_params@), key@),
{
    let mut i: usize = 0;
    while i < stmt_params.len()
        invariant
            i <= stmt_params@.len(),
            forall|j: int|
                0 <= j < i ==> (#[trigger] params_view(stmt_params@)[j]).param_name != key@,
        decreases stmt_params@.len() - i,
    {
        if stmt_params[i].param_name == *key {
            assert(params_view(stmt_params@)[i as int].param_name == key@);
            return true;
        }
        i += 1;
    }
    false
}

/// Checks a payload against the declared parameters of a schema: every
/// declared parameter is there with a value of its type, and nothing else
/// is. The error holds a copy of the payload.
pub fn validate_parameters(stmt_params: &Vec<MessageParams>, message_params: &Params) -> (r: Option<
    MessageError,
>)
    ensures
        error_view(r) == if conforms(params_view(stmt_params@), message_params@) {
            None
        } else {
            Some(MessageErrorView::InvalidParameter(message_params@))
        },
{
    let ghost declared = params_view(stmt_params@);
    let mut i: usize = 0;
    while i < stmt_params.len()
        invariant
            i <= stmt_params@.len(),
            declared == params_view(stmt_params@),
            forall|j: int|
                0 <= j < i ==> message_params@.contains_key((#[trigger] declared[j]).param_name)
                    && tag_matches(declared[j].param_type, message_params@[declared[j].param_name]),
        decreases stmt_params@.len() - i,
    {
        let stmt_param = &stmt_params[i];
        assert(declared[i as int] == stmt_param@);
        match message_params.get(&stmt_param.param_name) {
            Some(value) => {
                if !check_tag(&stmt_param.param_type, value) {
                    return Some(MessageError::InvalidParameterError(message_params.clone()));
                }
            },
            None => {
                return Some(MessageError::InvalidParameterError(message_params.clone()));
            },
        }
        i += 1;
    }
    let count = message_params.len();
    let mut k: usize = 0;
    while k < count
        invariant
            k <= count,
            count == message_params.entries().len(),
            declared == params_view(stmt_params@),
            forall|j: int|
                0 <= j < k ==> declares(declared, (#[trigger] message_params.entries()[j]).name@),
        decreases count - k,
    {
        let entry = message_params.entry(k);
        if !is_declared(stmt_params, &entry.name) {
            return Some(MessageError::InvalidParameterError(message_params.clone()));
        }
        k += 1;
    }
    proof {
        message_params.lemma_entries();
        assert forall|key: Seq<char>| #[trigger]
            message_params@.contains_key(key) implies declares(declared, key) by {
            let j = choose|j: int|
                0 <= j < message_params.entries().len() && (
                #[trigger] message_params.entries()[j]).name@ == key;
            assert(declares(declared, message_params.entries()[j].name@));
        }
    }
    None
}

/// Checks a request against one request schema.
pub fn validate_request(stmt: &RequestStmt, message: &RequestMessage) -> (r: Option<MessageError>)
    ensures
        error_view(r) == schema_verdict(stmt@, message@),
{
    if stmt.msg_name == message.channel {
        validate_parameters(&stmt.msg_params, &message.payload)
    } else {
        Some(MessageError::InvalidChannelError(InvalidChannelError))
    }
}

/// Checks a response against one response schema.
pub fn validate_response(stmt: &ResponseStmt, message: &ResponseMessage) -> (r: Option<
    MessageError,
>)
    ensures
        error_view(r) == schema_verdict(stmt@, message@),
{
    if stmt.msg_name == message.channel {
        validate_parameters(&stmt.msg_params, &message.payload)
    } else {
        Some(MessageError::InvalidChannelError(InvalidChannelError))
    }
}

/// Checks a broadcast against one broadcast schema.
pub fn validate_broadcast(stmt: &BroadcastStmt, message: &BroadcastMessage) -> (r: Option<
    MessageError,
>)
    ensures
        error_view(r) == schema_verdict(stmt@, message@),
{
    if stmt.msg_name == message.channel {
        validate_parameters(&stmt.msg_params, &message.payload)
    } else {
        Some(MessageError::InvalidChannelError(InvalidChannelError))
    }
}

/// The verdict of one statement on a message: none where the statement is a
/// schema for the message's kind and channel that the message meets.
fn statement_verdict(stmt: &Statement, message: &Message) -> (r: Option<MessageError>)
    ensures
        match schema_for(stmt@, message@.kind()) {
            None => error_view(r) == Some(MessageErrorView::InvalidChannel),
            Some(schema) => if schema.msg_name != message@.channel() {
                error_view(r) == Some(MessageErrorView::InvalidChannel)
            } else {
                match message@.payload() {
                    None => r is None,
                    Some(payload) => error_view(r) == if conforms(schema.msg_params, payload) {
                        None
                    } else {
                        Some(MessageErrorView::InvalidParameter(payload))
                    },
                }
            },
        },
{
    match (stmt, message) {
        (Statement::Msg(MessageStmt::Request(req_stmt)), Message::Request(request_message)) => {
            validate_request(req_stmt, request_message)
        },
        (Statement::Msg(MessageStmt::Response(res_stmt)), Message::Response(response_message)) => {
            validate_response(res_stmt, response_message)
        },
        (Statement::Msg(MessageStmt::Broadcast(broadcast_stmt)), Message::Broadcast(broadcast_message)) => {
            validate_broadcast(broadcast_stmt, broadcast_message)
        },
        (Statement::Msg(MessageStmt::Broadcast(broadcast_stmt)), Message::Listen(listen_message)) => {
            if broadcast_stmt.msg_name == listen_message.channel {
                None
            } else {
                Some(MessageError::InvalidChannelError(InvalidChannelError))
            }
        },
        _ => Some(MessageError::InvalidChannelError(InvalidChannelError)),
    }
}

/// Checks a message against the schemas of a policy.
///
/// The message passes if a schema of its kind and channel is met by its
/// payload. Without any schema of that kind and channel the error is the
/// invalid channel; otherwise it is the invalid parameter, with a copy of
/// the payload.
pub fn check_schema(policy: &Vec<Statement>, message: &Message) -> (r: Option<MessageError>)
    ensures
        error_view(r) == schema_check(policy_view(policy@), message@),
{
    let ghost model = policy_view(policy@);
    let ghost kind = message@.kind();
    let ghost channel = message@.channel();
    let mut named = false;
    let mut i: usize = 0;
    while i < policy.len()
        invariant
            i <= policy@.len(),
            model == policy_view(policy@),
            kind == message@.kind(),
            channel == message@.channel(),
            named <==> exists|j: int| 0 <= j < i && declares_channel(model, j, kind, channel),
            named ==> message@.payload() is Some,
            forall|j: int|
                0 <= j < i && #[trigger] declares_channel(model, j, kind, channel) ==> !conforms(
                    schema_for(model[j], kind)->0.msg_params,
                    message@.payload()->0,
                ),
        decreases policy@.len() - i,
    {
        assert(model[i as int] == policy@[i as int]@);
        match statement_verdict(&policy[i], message) {
            None => {
                assert(declares_channel(model, i as int, kind, channel));
                return None;
            },
            Some(MessageError::InvalidParameterError(_)) => {
                assert(declares_channel(model, i as int, kind, channel));
                named = true;
            },
            Some(_) => {
                assert(!declares_channel(model, i as int, kind, channel));
            },
        }
        i += 1;
    }
    if named {
        match message {
            Message::Request(m) => Some(MessageError::InvalidParameterError(m.payload.clone())),
            Message::Response(m) => Some(MessageError::InvalidParameterError(m.payload.clone())),
            Message::Broadcast(m) => Some(MessageError::InvalidParameterError(m.payload.clone())),
            Message::Listen(_) => Some(MessageError::InvalidChannelError(InvalidChannelError)),
        }
    } else {
        Some(MessageError::InvalidChannelError(InvalidChannelError))
    }
}

/// The texts of a list of strings, in order.
pub open spec fn names_view(names: Seq<String>) -> Seq<Seq<char>> {
    names.map_values(|name: String| name@)
}

/// Whether the parent of every role statement whose role is among `names`
/// is among them too.
pub open spec fn closed_under_extends(policy: Seq<StatementView>, names: Seq<Seq<char>>) -> bool {
    forall|i: int, child: Seq<char>, parent: Seq<char>| #[trigger]
        extends_at(policy, i, child, parent) && names.contains(child) ==> names.contains(parent)
}

/// Whether the statement is a role statement whose parent is not among
/// `names`.
pub open spec fn parent_missing(statement: StatementView, names: Seq<Seq<char>>) -> bool {
    &&& statement is Role
    &&& statement->Role_0.extends_role is Some
    &&& !names.contains(statement->Role_0.extends_role->0)
}

/// The number of role statements whose parent is not among `names`.
pub open spec fn missing_parents(policy: Seq<StatementView>, names: Seq<Seq<char>>) -> nat
    decreases policy.len(),
{
    if policy.len() == 0 {
        0
    } else {
        missing_parents(policy.drop_last(), names) + if parent_missing(policy.last(), names) {
            1nat
        } else {
            0nat
        }
    }
}

/// One more name leaves no more parents missing, and fewer if it is the
/// missing parent of some statement.
proof fn lemma_missing_parents_push(
    policy: Seq<StatementView>,
    names: Seq<Seq<char>>,
    name: Seq<char>,
)
    ensures
        missing_parents(policy, names.push(name)) <= missing_parents(policy, names),
        (exists|i: int|
            0 <= i < policy.len() && parent_missing(#[trigger] policy[i], names)
                && policy[i]->Role_0.extends_role == Some(name)) ==> missing_parents(
            policy,
            names.push(name),
        ) < missing_parents(policy, names),
    decreases policy.len(),
{
    if policy.len() > 0 {
        let front = policy.drop_last();
        let more = names.push(name);
        lemma_missing_parents_push(front, names, name);
        assert forall|other: Seq<char>| names.contains(other) implies more.contains(other) by {
            let k = choose|k: int| 0 <= k < names.len() && names[k] == other;
            assert(more[k] == other);
        }
        assert(more[names.len() as int] == name);
        if exists|i: int|
            0 <= i < policy.len() && parent_missing(#[trigger] policy[i], names)
                && policy[i]->Role_0.extends_role == Some(name) {
            let i = choose|i: int|
                0 <= i < policy.len() && parent_missing(#[trigger] policy[i], names)
                    && policy[i]->Role_0.extends_role == Some(name);
            if i < policy.len() - 1 {
                assert(front[i] == policy[i]);
            } else {
                assert(!parent_missing(policy.last(), more));
            }
        }
    }
}

/// A step of `extends` at the far end of a chain gives a chain one step
/// longer.
proof fn lemma_inherits_step(
    policy: Seq<StatementView>,
    role: Seq<char>,
    child: Seq<char>,
    parent: Seq<char>,
    steps: nat,
)
    requires
        inherits_within(policy, role, child, steps),
        extends(policy, child, parent),
    ensures
        inherits_within(policy, role, parent, steps + 1),
    decreases steps,
{
    if role == child {
        assert(inherits_within(policy, parent, parent, 0));
        assert(extends(policy, role, parent) && inherits_within(policy, parent, parent, 0));
        lemma_inherits_more_steps(policy, parent, parent, 0, steps);
        assert(extends(policy, role, parent) && inherits_within(
            policy,
            parent,
            parent,
            (steps + 1 - 1) as nat,
        ));
    } else {
        let mid = choose|mid: Seq<char>| #[trigger]
            extends(policy, role, mid) && inherits_within(policy, mid, child, (steps - 1) as nat);
        lemma_inherits_step(policy, mid, child, parent, (steps - 1) as nat);
        assert(extends(policy, role, mid) && inherits_within(
            policy,
            mid,
            parent,
            (steps + 1 - 1) as nat,
        ));
    }
}

/// A chain of at most `steps` steps is one of at most `more` steps, for
/// every `more` from `steps` on.
proof fn lemma_inherits_more_steps(
    policy: Seq<StatementView>,
    role: Seq<char>,
    ancestor: Seq<char>,
    steps: nat,
    more: nat,
)
    requires
        inherits_within(policy, role, ancestor, steps),
        steps <= more,
    ensures
        inherits_within(policy, role, ancestor, more),
    decreases steps,
{
    if role != ancestor {
        let mid = choose|mid: Seq<char>| #[trigger]
            extends(policy, role, mid) && inherits_within(policy, mid, ancestor, (steps - 1) as nat);
        lemma_inherits_more_steps(policy, mid, ancestor, (steps - 1) as nat, (more - 1) as nat);
        assert(extends(policy, role, mid) && inherits_within(
            policy,
            mid,
            ancestor,
            (more - 1) as nat,
        ));
    }
}

/// A set of names that is closed under `extends` holds every role that one
/// of its members inherits from.
proof fn lemma_closed_holds_ancestors(
    policy: Seq<StatementView>,
    names: Seq<Seq<char>>,
    role: Seq<char>,
    ancestor: Seq<char>,
    steps: nat,
)
    requires
        closed_under_extends(policy, names),
        names.contains(role),
        inherits_within(policy, role, ancestor, steps),
    ensures
        names.contains(ancestor),
    decreases steps,
{
    if role != ancestor {
        let mid = choose|mid: Seq<char>| #[trigger]
            extends(policy, role, mid) && inherits_within(policy, mid, ancestor, (steps - 1) as nat);
        let i = choose|i: int| extends_at(policy, i, role, mid);
        assert(extends_at(policy, i, role, mid));
        lemma_closed_holds_ancestors(policy, names, mid, ancestor, (steps - 1) as nat);
    }
}

/// Whether `name` is among `names`.
fn holds_name(names: &Vec<String>, name: &String) -> (r: bool)
    ensures
        r == names_view(names@).contains(name@),
{
    let mut i: usize = 0;
    while i < names.len()
        invariant
            i <= names@.len(),
            forall|j: int| 0 <= j < i ==> (#[trigger] names_view(names@)[j]) != name@,
        decreases names@.len() - i,
    {
        if names[i] == *name {
            assert(names_view(names@)[i as int] == name@);
            return true;
        }
        i += 1;
    }
    false
}

/// The roles that `role` inherits from, itself first: every role reached
/// from it through `extends`, each once.
pub fn ancestors(policy: &Vec<Statement>, role: &String) -> (r: Vec<String>)
    ensures
        forall|name: Seq<char>| #[trigger]
            names_view(r@).contains(name) <==> inherits(policy_view(policy@), role@, name),
        names_view(r@).no_duplicates(),
        r@.len() > 0,
        r@[0]@ == role@,
{
    let ghost model = policy_view(policy@);
    let mut known: Vec<String> = Vec::new();
    known.push(role.clone());
    proof {
        assert(names_view(known@)[0] == role@);
        assert forall|j: int| 0 <= j < known@.len() implies inherits(
            model,
            role@,
            #[trigger] names_view(known@)[j],
        ) by {
            assert(inherits_within(model, role@, role@, 0));
        }
    }
    let mut changed = true;
    while changed
        invariant
            model == policy_view(policy@),
            known@.len() > 0,
            known@[0]@ == role@,
            names_view(known@).no_duplicates(),
            forall|j: int|
                0 <= j < known@.len() ==> inherits(model, role@, #[trigger] names_view(known@)[j]),
            !changed ==> closed_under_extends(model, names_view(known@)),
        decreases missing_parents(model, names_view(known@)), if changed { 1nat } else { 0nat },
    {
        changed = false;
        let ghost start = names_view(known@);
        let mut i: usize = 0;
        while i < policy.len()
            invariant
                i <= policy@.len(),
                model == policy_view(policy@),
                known@.len() > 0,
                known@[0]@ == role@,
                names_view(known@).no_duplicates(),
                forall|j: int|
                    0 <= j < known@.len() ==> inherits(
                        model,
                        role@,
                        #[trigger] names_view(known@)[j],
                    ),
                missing_parents(model, names_view(known@)) <= missing_parents(model, start),
                changed ==> missing_parents(model, names_view(known@)) < missing_parents(
                    model,
                    start,
                ),
                !changed ==> names_view(known@) == start,
                !changed ==> forall|j: int, child: Seq<char>, parent: Seq<char>|
                    0 <= j < i && #[trigger] extends_at(model, j, child, parent) && start.contains(
                        child,
                    ) ==> start.contains(parent),
            decreases policy@.len() - i,
        {
            assert(model[i as int] == policy@[i as int]@);
            match &policy[i] {
                Statement::Role(role_stmt) => {
                    match role_stmt.extends_role() {
                        Some(parent) => {
                            if holds_name(&known, role_stmt.role_name()) && !holds_name(
                                &known,
                                parent,
                            ) {
                                let ghost before = names_view(known@);
                                known.push(parent.clone());
                                changed = true;
                                proof {
                                    assert(names_view(known@) =~= before.push(parent@));
                                    assert(parent_missing(model[i as int], before));
                                    lemma_missing_parents_push(model, before, parent@);
                                    let k = choose|k: int|
                                        0 <= k < before.len() && before[k] == role_stmt@.role_name;
                                    assert(inherits(model, role@, before[k]));
                                    let steps = choose|steps: nat|
                                        inherits_within(model, role@, before[k], steps);
                                    assert(extends_at(
                                        model,
                                        i as int,
                                        role_stmt@.role_name,
                                        parent@,
                                    ));
                                    lemma_inherits_step(
                                        model,
                                        role@,
                                        role_stmt@.role_name,
                                        parent@,
                                        steps,
                                    );
                                    assert(inherits(model, role@, parent@));
                                    assert forall|j: int|
                                        0 <= j < known@.len() implies inherits(
                                        model,
                                        role@,
                                        #[trigger] names_view(known@)[j],
                                    ) by {
                                        if j < before.len() {
                                            assert(names_view(known@)[j] == before[j]);
                                        }
                                    }
                                }
                            }
                        },
                        None => {},
                    }
                },
                _ => {},
            }
            i += 1;
        }
    }
    proof {
        let names = names_view(known@);
        assert forall|name: Seq<char>| #[trigger] names.contains(name) <==> inherits(
            model,
            role@,
            name,
        ) by {
            if names.contains(name) {
                let j = choose|j: int| 0 <= j < names.len() && names[j] == name;
                assert(inherits(model, role@, names[j]));
            }
            if inherits(model, role@, name) {
                let steps = choose|steps: nat| inherits_within(model, role@, name, steps);
                assert(names[0] == role@);
                lemma_closed_holds_ancestors(model, names, role@, name, steps);
            }
        }
    }
    known
}

/// Whether the policy allows a connection of role `role` to send messages
/// of the kind on the channel: some allow rule for the kind and the channel
/// names the role or a role that it inherits from.
pub fn authorize(policy: &Vec<Statement>, role: &String, kind: MsgType, channel: &String) -> (r:
    bool)
    ensures
        r == authorized(policy_view(policy@), role@, kind, channel@),
{
    let ghost model = policy_view(policy@);
    let known = ancestors(policy, role);
    let mut i: usize = 0;
    while i < policy.len()
        invariant
            i <= policy@.len(),
            model == policy_view(policy@),
            forall|name: Seq<char>| #[trigger]
                names_view(known@).contains(name) <==> inherits(model, role@, name),
            forall|j: int, holder: Seq<char>|
                0 <= j < i && #[trigger] allows_at(model, j, holder, kind, channel@) ==> !inherits(
                    model,
                    role@,
                    holder,
                ),
        decreases policy@.len() - i,
    {
        assert(model[i as int] == policy@[i as int]@);
        match &policy[i] {
            Statement::Allow(rule) => {
                if rule.msg_type() == kind && *rule.msg_name() == *channel && holds_name(
                    &known,
                    rule.role_name(),
                ) {
                    assert(allows_at(model, i as int, rule@.role_name, kind, channel@));
                    return true;
                }
            },
            _ => {},
        }
        i += 1;
    }
    false
}

/// The full check of a message from a connection of role `role`: first the
/// schemas, then the allow rules.
pub fn validate(policy: &Vec<Statement>, role: &String, message: &Message) -> (r: Result<
    (),
    MessageError,
>)
    ensures
        match verdict(policy_view(policy@), role@, message@) {
            None => r is Ok,
            Some(error) => r is Err && r->Err_0@ == error,
        },
{
    match check_schema(policy, message) {
        Some(error) => Err(error),
        None => {
            if authorize(policy, role, message.kind(), message.channel()) {
                Ok(())
            } else {
                Err(MessageError::UnauthorizedError(UnauthorizedError))
            }
        },
    }
}

/// Validates a message from a connection of role `role`, as [`validate`]
/// does: the schemas first, then the allow rules. Nothing comes back where
/// the message passes.
pub fn validate_message(policy: Vec<Statement>, role: &String, message: &Message) -> (r: Option<
    MessageError,
>)
    ensures
        error_view(r) == verdict(policy_view(policy@), role@, message@),
{
    match validate(&policy, role, message) {
        Ok(()) => None,
        Err(error) => Some(error),
    }
}

/// Whether the keys of a payload are exactly the declared parameter names.
pub open spec fn same_keys(params: Seq<MessageParamsView>, payload: Map<Seq<char>, ParamView>) -> bool {
    forall|key: Seq<char>| #[trigger] payload.contains_key(key) <==> declares(params, key)
}

/// A payload that conforms to a schema has exactly the schema's keys.
pub proof fn lemma_conforming_payload_has_same_keys(
    params: Seq<MessageParamsView>,
    payload: Map<Seq<char>, ParamView>,
)
    requires
        conforms(params, payload),
    ensures
        same_keys(params, payload),
{
    assert forall|key: Seq<char>| declares(params, key) implies #[trigger] payload.contains_key(
        key,
    ) by {
        let i = choose|i: int| 0 <= i < params.len() && (#[trigger] params[i]).param_name == key;
        assert(payload.contains_key(params[i].param_name));
    }
}

/// A message that meets a schema which the policy declares for its kind and
/// channel passes, whenever an allow rule for that kind and channel names
/// the sender's role.
pub proof fn law_matching_message_passes(
    policy: Seq<StatementView>,
    role: Seq<char>,
    message: MessageView,
    schema_at: int,
    rule_at: int,
)
    requires
        declares_channel(policy, schema_at, message.kind(), message.channel()),
        message.payload() is Some ==> conforms(
            schema_for(policy[schema_at], message.kind())->0.msg_params,
            message.payload()->0,
        ),
        allows_at(policy, rule_at, role, message.kind(), message.channel()),
    ensures
        verdict(policy, role, message) is None,
{
    assert(inherits_within(policy, role, role, 0));
    assert(inherits(policy, role, role));
    assert(allows_at(policy, rule_at, role, message.kind(), message.channel()) && inherits(
        policy,
        role,
        role,
    ));
}

/// A message whose payload has a key too many or lacks one, against every
/// schema that the policy declares for its kind and channel, is turned away
/// for its parameters, whatever the sender's role.
pub proof fn law_key_mismatch_is_invalid_parameter(
    policy: Seq<StatementView>,
    role: Seq<char>,
    message: MessageView,
)
    requires
        message.payload() is Some,
        has_channel(policy, message.kind(), message.channel()),
        forall|i: int| #[trigger]
            declares_channel(policy, i, message.kind(), message.channel()) ==> !same_keys(
                schema_for(policy[i], message.kind())->0.msg_params,
                message.payload()->0,
            ),
    ensures
        verdict(policy, role, message) == Some(
            MessageErrorView::InvalidParameter(message.payload()->0),
        ),
{
    let kind = message.kind();
    let channel = message.channel();
    let payload = message.payload()->0;
    if accepts_payload(policy, kind, channel, payload) {
        let i = choose|i: int| #[trigger]
            declares_channel(policy, i, kind, channel) && conforms(
                schema_for(policy[i], kind)->0.msg_params,
                payload,
            );
        lemma_conforming_payload_has_same_keys(schema_for(policy[i], kind)->0.msg_params, payload);
    }
}

/// Inheritance is transitive: what an ancestor inherits from, the role
/// inherits from.
pub proof fn law_inheritance_is_transitive(
    policy: Seq<StatementView>,
    role: Seq<char>,
    middle: Seq<char>,
    ancestor: Seq<char>,
)
    requires
        inherits(policy, role, middle),
        inherits(policy, middle, ancestor),
    ensures
        inherits(policy, role, ancestor),
{
    let first = choose|steps: nat| inherits_within(policy, role, middle, steps);
    let second = choose|steps: nat| inherits_within(policy, middle, ancestor, steps);
    lemma_inherits_chain(policy, role, middle, ancestor, first, second);
}

/// Two chains of `extends`, the second starting where the first ends, make
/// one chain.
proof fn lemma_inherits_chain(
    policy: Seq<StatementView>,
    role: Seq<char>,
    middle: Seq<char>,
    ancestor: Seq<char>,
    first: nat,
    second: nat,
)
    requires
        inherits_within(policy, role, middle, first),
        inherits_within(policy, middle, ancestor, second),
    ensures
        inherits_within(policy, role, ancestor, first + second),
    decreases first,
{
    if role == middle {
        lemma_inherits_more_steps(policy, role, ancestor, second, first + second);
    } else {
        let next = choose|next: Seq<char>| #[trigger]
            extends(policy, role, next) && inherits_within(policy, next, middle, (first - 1) as nat);
        lemma_inherits_chain(policy, next, middle, ancestor, (first - 1) as nat, second);
        assert(extends(policy, role, next) && inherits_within(
            policy,
            next,
            ancestor,
            (first + second - 1) as nat,
        ));
    }
}

/// A role may send what a role that it extends is allowed to send.
pub proof fn law_role_inherits_permissions(
    policy: Seq<StatementView>,
    child: Seq<char>,
    parent: Seq<char>,
    kind: MsgType,
    channel: Seq<char>,
    role_at: int,
    rule_at: int,
)
    requires
        extends_at(policy, role_at, child, parent),
        allows_at(policy, rule_at, parent, kind, channel),
    ensures
        authorized(policy, child, kind, channel),
{
    assert(inherits_within(policy, parent, parent, 0));
    assert(extends(policy, child, parent) && inherits_within(policy, parent, parent, 0));
    assert(inherits_within(policy, child, parent, 1));
    assert(allows_at(policy, rule_at, parent, kind, channel) && inherits(policy, child, parent));
}

/// A role may send what any role that it inherits from is allowed to send.
pub proof fn law_ancestor_permissions_apply(
    policy: Seq<StatementView>,
    role: Seq<char>,
    ancestor: Seq<char>,
    kind: MsgType,
    channel: Seq<char>,
    rule_at: int,
)
    requires
        inherits(policy, role, ancestor),
        allows_at(policy, rule_at, ancestor, kind, channel),
    ensures
        authorized(policy, role, kind, channel),
{
    assert(allows_at(policy, rule_at, ancestor, kind, channel) && inherits(policy, role, ancestor));
}

} // verus!
