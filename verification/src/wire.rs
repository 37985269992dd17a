//! The wire format: a JSON object with a `type`, a `channel` and, but for a
//! listen, a `payload` of named scalar values.

use vstd::prelude::*;
use crate::json::{json_of_text, members_view, parse_json, Json, JsonNumber, JsonView};
use crate::message::{
    reason_of, BroadcastMessage, DecodeError, EnvelopeField, EnvelopeView,
    InvalidMessageTypeError, ListenMessage, Message, MessageError, MessageErrorView, MessageView,
    RequestMessage, ResponseMessage,
};
use crate::payload::{entries_map, Param, ParamType, ParamView, Params};
use crate::policy::{policy_view, MsgType, Statement, StatementView};
use crate::text::same_text;
use crate::validator::{validate, verdict};

verus! {

/// The value of the first member named `key`, if there is one.
pub open spec fn member(members: Seq<(Seq<char>, JsonView)>, key: Seq<char>) -> Option<JsonView>
    decreases members.len(),
{
    if members.len() == 0 {
        None
    } else if members[0].0 == key {
        Some(members[0].1)
    } else {
        member(members.drop_first(), key)
    }
}

/// The kind of message that a `type` names.
pub open spec fn kind_of(name: Seq<char>) -> Option<MsgType> {
    if name == "broadcast"@ {
        Some(MsgType::Broadcast)
    } else if name == "listen"@ {
        Some(MsgType::Listen)
    } else if name == "request"@ {
        Some(MsgType::Request)
    } else if name == "response"@ {
        Some(MsgType::Response)
    } else {
        None
    }
}

/// The parameter value that a JSON value stands for: a string, a boolean,
/// or a number, which is an int where it is an integer of 32 bits and a
/// float otherwise. Nothing else is a parameter value.
pub open spec fn param_of(json: JsonView) -> Option<ParamView> {
    match json {
        JsonView::String(s) => Some(ParamView::String(s)),
        JsonView::Bool(b) => Some(ParamView::Bool(b)),
        JsonView::Number(n) => match n.integer {
            Some(i) if i32::MIN <= i <= i32::MAX => Some(ParamView::Int(i as i32)),
            _ => match n.real {
                Some(bits) => Some(ParamView::Float(bits)),
                None => None,
            },
        },
        _ => None,
    }
}

/// The payload that the members of an object stand for, if each of them
/// holds a parameter value; of two members with one name the later counts.
pub open spec fn payload_of(members: Seq<(Seq<char>, JsonView)>) -> Option<
    Map<Seq<char>, ParamView>,
>
    decreases members.len(),
{
    if members.len() == 0 {
        Some(Map::empty())
    } else {
        match (payload_of(members.drop_last()), param_of(members.last().1)) {
            (Some(front), Some(value)) => Some(front.insert(members.last().0, value)),
            _ => None,
        }
    }
}

/// The message of a kind that carries a payload.
pub open spec fn envelope(kind: MsgType, channel: Seq<char>, payload: Map<Seq<char>, ParamView>) -> MessageView {
    let body = EnvelopeView { channel, payload };
    match kind {
        MsgType::Request => MessageView::Request(body),
        MsgType::Response => MessageView::Response(body),
        MsgType::Broadcast => MessageView::Broadcast(body),
        MsgType::Listen => MessageView::Listen(channel),
    }
}

/// The payload of an envelope, read from its members.
pub open spec fn decode_payload(members: Seq<(Seq<char>, JsonView)>) -> Result<
    Map<Seq<char>, ParamView>,
    MessageErrorView,
> {
    match member(members, "payload"@) {
        None => Err(MessageErrorView::Decode(DecodeError::MissingField(EnvelopeField::Payload))),
        Some(JsonView::Object(entries)) => match payload_of(entries) {
            Some(payload) => Ok(payload),
            None => Err(
                MessageErrorView::Decode(DecodeError::InvalidField(EnvelopeField::Payload)),
            ),
        },
        Some(_) => Err(MessageErrorView::Decode(DecodeError::InvalidField(EnvelopeField::Payload))),
    }
}

/// The channel of an envelope, read from its members.
pub open spec fn decode_channel(members: Seq<(Seq<char>, JsonView)>) -> Result<
    Seq<char>,
    MessageErrorView,
> {
    match member(members, "channel"@) {
        None => Err(MessageErrorView::Decode(DecodeError::MissingField(EnvelopeField::Channel))),
        Some(JsonView::String(channel)) => Ok(channel),
        Some(_) => Err(MessageErrorView::Decode(DecodeError::InvalidField(EnvelopeField::Channel))),
    }
}

/// The kind of an envelope, read from its members.
pub open spec fn decode_kind(members: Seq<(Seq<char>, JsonView)>) -> Result<
    MsgType,
    MessageErrorView,
> {
    match member(members, "type"@) {
        None => Err(MessageErrorView::Decode(DecodeError::MissingField(EnvelopeField::Type))),
        Some(JsonView::String(name)) => match kind_of(name) {
            Some(kind) => Ok(kind),
            None => Err(MessageErrorView::InvalidMessageType(name)),
        },
        Some(_) => Err(MessageErrorView::Decode(DecodeError::InvalidField(EnvelopeField::Type))),
    }
}

/// The message that a JSON value stands for. The value must be an object;
/// its `type` is read first, then its `channel`, then, unless it is a
/// listen, its `payload`; the first of them that is absent or out of shape
/// gives the error. Other members are ignored.
pub open spec fn decode(json: JsonView) -> Result<MessageView, MessageErrorView> {
    match json {
        JsonView::Object(members) => match decode_kind(members) {
            Err(error) => Err(error),
            Ok(kind) => match decode_channel(members) {
                Err(error) => Err(error),
                Ok(channel) => if kind == MsgType::Listen {
                    Ok(MessageView::Listen(channel))
                } else {
                    match decode_payload(members) {
                        Err(error) => Err(error),
                        Ok(payload) => Ok(envelope(kind, channel, payload)),
                    }
                },
            },
        },
        _ => Err(MessageErrorView::Decode(DecodeError::NotAnObject)),
    }
}

/// The view of an outcome: that of the message, or that of the error.
pub open spec fn outcome_view(r: Result<Message, MessageError>) -> Result<
    MessageView,
    MessageErrorView,
> {
    match r {
        Ok(message) => Ok(message@),
        Err(error) => Err(error@),
    }
}

impl MsgType {
    /// The kind of message that a `type` names.
    pub fn from_str(s: &String) -> (r: Result<MsgType, ()>)
        ensures
            match kind_of(s@) {
                Some(kind) => r == Ok::<MsgType, ()>(kind),
                None => r is Err,
            },
    {
        if same_text(s, "broadcast") {
            Ok(MsgType::Broadcast)
        } else if same_text(s, "listen") {
            Ok(MsgType::Listen)
        } else if same_text(s, "request") {
            Ok(MsgType::Request)
        } else if same_text(s, "response") {
            Ok(MsgType::Response)
        } else {
            Err(())
        }
    }
}

/// The value of the first member named `key`, if there is one.
pub fn find_member<'a>(members: &'a Vec<(String, Json)>, key: &str) -> (r: Option<&'a Json>)
    ensures
        match member(members_view(members@), key@) {
            Some(value) => r is Some && r->0@ == value,
            None => r is None,
        },
{
    let ghost views = members_view(members@);
    let name = key.to_owned();
    let mut i: usize = 0;
    assert(views.subrange(0, views.len() as int) =~= views);
    while i < members.len()
        invariant
            i <= members@.len(),
            views == members_view(members@),
            name@ == key@,
            member(views, key@) == member(views.subrange(i as int, views.len() as int), key@),
        decreases members@.len() - i,
    {
        let ghost rest = views.subrange(i as int, views.len() as int);
        assert(rest[0] == views[i as int]);
        if members[i].0 == name {
            return Some(&members[i].1);
        }
        assert(rest.drop_first() =~= views.subrange(i + 1, views.len() as int));
        i += 1;
    }
    assert(views.subrange(i as int, views.len() as int).len() == 0);
    None
}

/// The parameter value that a JSON value stands for, if it stands for one.
pub fn param_from_json(json: &Json) -> (r: Option<ParamType>)
    ensures
        match param_of(json@) {
            Some(value) => r is Some && r->0@ == value,
            None => r is None,
        },
{
    match json {
        Json::String(s) => Some(ParamType::String(s.clone())),
        Json::Bool(b) => Some(ParamType::Bool(*b)),
        Json::Number(n) => {
            match n.integer {
                Some(i) => {
                    if -2147483648 <= i && i <= 2147483647 {
                        return Some(ParamType::Int(i as i32));
                    }
                },
                None => {},
            }
            match n.real {
                Some(bits) => Some(ParamType::Float(bits)),
                None => None,
            }
        },
        _ => None,
    }
}

/// The payload that the members of an object stand for, if each of them
/// holds a parameter value.
pub fn payload_from_members(members: &Vec<(String, Json)>) -> (r: Option<Params>)
    ensures
        match payload_of(members_view(members@)) {
            Some(payload) => r is Some && r->0@ == payload,
            None => r is None,
        },
{
    let ghost views = members_view(members@);
    let mut params = Params::new();
    let mut i: usize = 0;
    assert(views.subrange(0, 0) =~= Seq::<(Seq<char>, JsonView)>::empty());
    while i < members.len()
        invariant
            i <= members@.len(),
            views == members_view(members@),
            payload_of(views.subrange(0, i as int)) == Some(params@),
        decreases members@.len() - i,
    {
        let ghost next = views.subrange(0, i + 1);
        assert(next.drop_last() =~= views.subrange(0, i as int));
        assert(next.last() == views[i as int]);
        match param_from_json(&members[i].1) {
            Some(value) => {
                params.insert(members[i].0.clone(), value);
            },
            None => {
                proof {
                    lemma_payload_of_prefix(views, i + 1);
                }
                return None;
            },
        }
        i += 1;
    }
    assert(views.subrange(0, i as int) =~= views);
    Some(params)
}

/// Members of which a prefix stands for no payload stand for none.
proof fn lemma_payload_of_prefix(members: Seq<(Seq<char>, JsonView)>, n: int)
    requires
        0 <= n <= members.len(),
        payload_of(members.subrange(0, n)) is None,
    ensures
        payload_of(members) is None,
    decreases members.len() - n,
{
    if n < members.len() {
        let next = members.subrange(0, n + 1);
        assert(next.drop_last() =~= members.subrange(0, n));
        lemma_payload_of_prefix(members, n + 1);
    } else {
        assert(members.subrange(0, n) =~= members);
    }
}

/// Reads a JSON value as a message.
pub fn decode_message(json: &Json) -> (r: Result<Message, MessageError>)
    ensures
        outcome_view(r) == decode(json@),
{
    let members = match json {
        Json::Object(members) => members,
        _ => {
            return Err(MessageError::DecodeError(DecodeError::NotAnObject));
        },
    };
    let kind = match find_member(members, "type") {
        None => {
            return Err(MessageError::DecodeError(DecodeError::MissingField(EnvelopeField::Type)));
        },
        Some(Json::String(name)) => match MsgType::from_str(name) {
            Ok(kind) => kind,
            Err(_) => {
                return Err(
                    MessageError::InvalidMessageTypeError(
                        InvalidMessageTypeError { given_type: name.clone() },
                    ),
                );
            },
        },
        Some(_) => {
            return Err(MessageError::DecodeError(DecodeError::InvalidField(EnvelopeField::Type)));
        },
    };
    let channel = match find_member(members, "channel") {
        None => {
            return Err(
                MessageError::DecodeError(DecodeError::MissingField(EnvelopeField::Channel)),
            );
        },
        Some(Json::String(channel)) => channel.clone(),
        Some(_) => {
            return Err(
                MessageError::DecodeError(DecodeError::InvalidField(EnvelopeField::Channel)),
            );
        },
    };
    if kind == MsgType::Listen {
        return Ok(Message::Listen(ListenMessage { channel }));
    }
    let payload = match find_member(members, "payload") {
        None => {
            return Err(
                MessageError::DecodeError(DecodeError::MissingField(EnvelopeField::Payload)),
            );
        },
        Some(Json::Object(entries)) => match payload_from_members(entries) {
            Some(payload) => payload,
            None => {
                return Err(
                    MessageError::DecodeError(DecodeError::InvalidField(EnvelopeField::Payload)),
                );
            },
        },
        Some(_) => {
            return Err(
                MessageError::DecodeError(DecodeError::InvalidField(EnvelopeField::Payload)),
            );
        },
    };
    match kind {
        MsgType::Request => Ok(Message::Request(RequestMessage { payload, channel })),
        MsgType::Response => Ok(Message::Response(ResponseMessage { payload, channel })),
        MsgType::Broadcast => Ok(Message::Broadcast(BroadcastMessage { payload, channel })),
        MsgType::Listen => Ok(Message::Listen(ListenMessage { channel })),
    }
}

/// The message that a frame stands for, where its text was read as `json`;
/// none stands for a text that is not JSON.
pub open spec fn decode_read(json: Option<JsonView>) -> Result<MessageView, MessageErrorView> {
    match json {
        None => Err(MessageErrorView::Decode(DecodeError::Syntax)),
        Some(value) => decode(value),
    }
}

/// What the policy makes of a decoded frame for a role: the message, if it
/// decoded and the policy passes it, and otherwise the first error met:
/// decoding, then the channel, then the parameters, then the permission.
pub open spec fn admitted(
    policy: Seq<StatementView>,
    role: Seq<char>,
    decoded: Result<MessageView, MessageErrorView>,
) -> Result<MessageView, MessageErrorView> {
    match decoded {
        Err(error) => Err(error),
        Ok(message) => match verdict(policy, role, message) {
            Some(error) => Err(error),
            None => Ok(message),
        },
    }
}

/// Reads the text of a frame as JSON and decodes it.
pub fn decode_frame(text: &str) -> (r: Result<Message, MessageError>)
    ensures
        outcome_view(r) == decode_read(json_of_text(text@)),
{
    match parse_json(text) {
        None => Err(MessageError::DecodeError(DecodeError::Syntax)),
        Some(json) => decode_message(&json),
    }
}

/// Passes a decoded message on if the policy admits it from a connection
/// of role `role`: the schemas first, then the allow rules.
pub fn check_decoded(
    policy: &Vec<Statement>,
    role: &String,
    decoded: Result<Message, MessageError>,
) -> (r: Result<Message, MessageError>)
    ensures
        outcome_view(r) == admitted(policy_view(policy@), role@, outcome_view(decoded)),
{
    match decoded {
        Err(error) => Err(error),
        Ok(message) => match validate(policy, role, &message) {
            Err(error) => Err(error),
            Ok(()) => Ok(message),
        },
    }
}

/// Decodes a JSON value and validates the message for a connection of role
/// `role`.
pub fn message_from_json(policy: &Vec<Statement>, role: &String, json: &Json) -> (r: Result<
    Message,
    MessageError,
>)
    ensures
        outcome_view(r) == admitted(policy_view(policy@), role@, decode(json@)),
{
    check_decoded(policy, role, decode_message(json))
}

/// Reads the text of a frame as JSON, decodes it and validates the message
/// for a connection of role `role`.
pub fn message_from_str(policy: Vec<Statement>, role: &String, message: &str) -> (r: Result<
    Message,
    MessageError,
>)
    ensures
        outcome_view(r) == admitted(
            policy_view(policy@),
            role@,
            decode_read(json_of_text(message@)),
        ),
{
    check_decoded(&policy, role, decode_frame(message))
}

/// The JSON value that stands for a parameter value: a string, a boolean,
/// or a number, which has the integer alone for an int and the bits alone
/// for a float.
pub fn encode_param(value: &ParamType) -> (r: Json)
    ensures
        param_of(r@) == Some(value@),
{
    match value {
        ParamType::String(s) => Json::String(s.clone()),
        ParamType::Int(i) => Json::Number(JsonNumber { integer: Some(*i as i64), real: None }),
        ParamType::Float(bits) => Json::Number(JsonNumber { integer: None, real: Some(*bits) }),
        ParamType::Bool(b) => Json::Bool(*b),
    }
}

/// The payload of the entries, where each holds the member of its index.
proof fn lemma_payload_of_entries(members: Seq<(Seq<char>, JsonView)>, entries: Seq<Param>)
    requires
        members.len() == entries.len(),
        forall|k: int|
            0 <= k < members.len() ==> (#[trigger] members[k]).0 == entries[k].name@ && param_of(
                members[k].1,
            ) == Some(entries[k].value@),
    ensures
        payload_of(members) == Some(entries_map(entries)),
    decreases members.len(),
{
    if members.len() > 0 {
        let last = members.len() - 1;
        assert(members[last].0 == entries[last].name@);
        assert forall|k: int| 0 <= k < members.drop_last().len() implies (
        #[trigger] members.drop_last()[k]).0 == entries.drop_last()[k].name@ && param_of(
            members.drop_last()[k].1,
        ) == Some(entries.drop_last()[k].value@) by {
            assert(members.drop_last()[k] == members[k]);
        }
        lemma_payload_of_entries(members.drop_last(), entries.drop_last());
    }
}

/// The members of the object that stands for a payload: one for each
/// entry, in the order of the entries.
pub fn encode_payload(payload: &Params) -> (r: Vec<(String, Json)>)
    ensures
        payload_of(members_view(r@)) == Some(payload@),
{
    let count = payload.len();
    let mut members: Vec<(String, Json)> = Vec::new();
    let mut i: usize = 0;
    while i < count
        invariant
            i <= count,
            count == payload.entries().len(),
            members@.len() == i,
            forall|k: int|
                0 <= k < i ==> (#[trigger] members_view(members@)[k]).0
                    == payload.entries()[k].name@ && param_of(members_view(members@)[k].1)
                    == Some(payload.entries()[k].value@),
        decreases count - i,
    {
        let entry = payload.entry(i);
        let ghost before = members_view(members@);
        members.push((entry.name.clone(), encode_param(&entry.value)));
        proof {
            assert forall|k: int| 0 <= k < i + 1 implies (#[trigger] members_view(members@)[k]).0
                == payload.entries()[k].name@ && param_of(members_view(members@)[k].1) == Some(
                payload.entries()[k].value@,
            ) by {
                if k < i {
                    assert(members_view(members@)[k] == before[k]);
                }
            }
        }
        i += 1;
    }
    proof {
        payload.lemma_entries();
        lemma_payload_of_entries(members_view(members@), payload.entries());
    }
    members
}

/// The member at an index is the member of its name, unless one before it
/// has the name; and a name that no member has gives none.
pub proof fn lemma_member(members: Seq<(Seq<char>, JsonView)>, key: Seq<char>, at: int)
    requires
        0 <= at <= members.len(),
        forall|k: int| 0 <= k < at ==> (#[trigger] members[k]).0 != key,
        at < members.len() ==> members[at].0 == key,
    ensures
        member(members, key) == if at < members.len() {
            Some(members[at].1)
        } else {
            None
        },
    decreases members.len(),
{
    if members.len() > 0 && at > 0 {
        let rest = members.drop_first();
        assert(members[0].0 != key);
        assert forall|k: int| 0 <= k < at - 1 implies (#[trigger] rest[k]).0 != key by {
            assert(rest[k] == members[k + 1]);
        }
        if at < members.len() {
            assert(rest[at - 1] == members[at]);
        }
        lemma_member(rest, key, at - 1);
    }
}

/// The `type` that names a kind of message.
pub open spec fn kind_text(kind: MsgType) -> Seq<char> {
    match kind {
        MsgType::Broadcast => "broadcast"@,
        MsgType::Listen => "listen"@,
        MsgType::Request => "request"@,
        MsgType::Response => "response"@,
    }
}

/// Each kind is the kind that its `type` names, and the names of the
/// three fields of an envelope differ.
pub proof fn lemma_envelope_words()
    ensures
        forall|kind: MsgType| #[trigger] kind_of(kind_text(kind)) == Some(kind),
        kind_of("error"@) is None,
        "type"@ != "channel"@,
        "type"@ != "payload"@,
        "channel"@ != "payload"@,
        "type"@ != "reason"@,
        "type"@ != "message"@,
        "reason"@ != "message"@,
{
    reveal_strlit("broadcast");
    reveal_strlit("listen");
    reveal_strlit("request");
    reveal_strlit("response");
    reveal_strlit("error");
    reveal_strlit("type");
    reveal_strlit("channel");
    reveal_strlit("payload");
    reveal_strlit("reason");
    reveal_strlit("message");
    assert("broadcast"@.len() == 9 && "listen"@.len() == 6 && "request"@.len() == 7
        && "response"@.len() == 8 && "error"@.len() == 5);
    assert("type"@.len() == 4 && "channel"@.len() == 7 && "payload"@.len() == 7 && "reason"@.len()
        == 6 && "message"@.len() == 7);
    assert("channel"@[0] == 'c' && "payload"@[0] == 'p');
    assert forall|kind: MsgType| #[trigger] kind_of(kind_text(kind)) == Some(kind) by {
        match kind {
            MsgType::Broadcast => {},
            MsgType::Listen => {},
            MsgType::Request => {},
            MsgType::Response => {},
        }
    }
}

impl MsgType {
    /// The `type` that names the kind.
    pub fn to_string(&self) -> (r: String)
        ensures
            r@ == kind_text(*self),
    {
        match self {
            MsgType::Broadcast => "broadcast".to_owned(),
            MsgType::Listen => "listen".to_owned(),
            MsgType::Request => "request".to_owned(),
            MsgType::Response => "response".to_owned(),
        }
    }
}

/// The envelope of a message of a kind that carries a payload.
fn encode_envelope(kind: MsgType, channel: &String, payload: &Params) -> (r: Json)
    requires
        kind != MsgType::Listen,
    ensures
        decode(r@) == Ok::<MessageView, MessageErrorView>(envelope(kind, channel@, payload@)),
{
    let entries = encode_payload(payload);
    let mut members: Vec<(String, Json)> = Vec::new();
    members.push(("type".to_owned(), Json::String(kind.to_string())));
    members.push(("channel".to_owned(), Json::String(channel.clone())));
    members.push(("payload".to_owned(), Json::Object(entries)));
    proof {
        lemma_envelope_words();
        let views = members_view(members@);
        lemma_member(views, "type"@, 0);
        lemma_member(views, "channel"@, 1);
        lemma_member(views, "payload"@, 2);
    }
    Json::Object(members)
}

/// The JSON value that stands for a message: an object with the `type`,
/// the `channel` and, but for a listen, the `payload`. It decodes to the
/// message.
pub fn encode_message(message: &Message) -> (r: Json)
    ensures
        decode(r@) == Ok::<MessageView, MessageErrorView>(message@),
{
    match message {
        Message::Request(m) => encode_envelope(MsgType::Request, &m.channel, &m.payload),
        Message::Response(m) => encode_envelope(MsgType::Response, &m.channel, &m.payload),
        Message::Broadcast(m) => encode_envelope(MsgType::Broadcast, &m.channel, &m.payload),
        Message::Listen(m) => {
            let mut members: Vec<(String, Json)> = Vec::new();
            members.push(("type".to_owned(), Json::String(MsgType::Listen.to_string())));
            members.push(("channel".to_owned(), Json::String(m.channel.clone())));
            proof {
                lemma_envelope_words();
                let views = members_view(members@);
                lemma_member(views, "type"@, 0);
                lemma_member(views, "channel"@, 1);
            }
            Json::Object(members)
        },
    }
}

/// What an error says to a reader, where it says more than its reason.
pub open spec fn explanation_of(error: MessageErrorView) -> Option<Seq<char>> {
    match error {
        MessageErrorView::InvalidChannel => Some("Invalid channel"@),
        MessageErrorView::InvalidMessageType(_) => Some("Invalid message type"@),
        MessageErrorView::InvalidParameter(_) => None,
        MessageErrorView::Unauthorized => None,
        MessageErrorView::Decode(_) => None,
    }
}

/// The member of a frame that holds a text, if `text` is one.
pub open spec fn text_member(text: Option<Seq<char>>) -> Option<JsonView> {
    match text {
        Some(t) => Some(JsonView::String(t)),
        None => None,
    }
}

/// The frame that tells a sender why its frame was dropped: an object with
/// the `type` `error`, the symbolic `reason`, and a `message` where the
/// error has more to say. It is no message.
pub fn encode_error(error: &MessageError) -> (r: Json)
    ensures
        r@ is Object,
        member(r@->Object_0, "type"@) == Some(JsonView::String("error"@)),
        member(r@->Object_0, "reason"@) == Some(JsonView::String(reason_of(error@))),
        member(r@->Object_0, "message"@) == text_member(explanation_of(error@)),
        decode(r@) == Err::<MessageView, MessageErrorView>(
            MessageErrorView::InvalidMessageType("error"@),
        ),
{
    let mut members: Vec<(String, Json)> = Vec::new();
    members.push(("type".to_owned(), Json::String("error".to_owned())));
    members.push(("reason".to_owned(), Json::String(error.reason())));
    let explanation = match error {
        MessageError::InvalidChannelError(e) => Some(e.to_string()),
        MessageError::InvalidMessageTypeError(e) => Some(e.to_string()),
        _ => None,
    };
    match explanation {
        Some(text) => {
            members.push(("message".to_owned(), Json::String(text)));
        },
        None => {},
    }
    proof {
        lemma_envelope_words();
        let views = members_view(members@);
        lemma_member(views, "type"@, 0);
        lemma_member(views, "reason"@, 1);
        lemma_member(views, "message"@, 2);
    }
    Json::Object(members)
}

} // verus!
