use policy_broker::message::Message;
use policy_broker::policy::{MessageParams, MessageStmt, RequestStmt, Statement};
use policy_broker::validator::{validate_message, validate_request};
use policy_broker::wire::decode_frame;
use policy_broker::message::{
    BroadcastMessage, DecodeError, InvalidChannelError, InvalidMessageTypeError, ListenMessage,
    MessageError, RequestMessage, ResponseMessage, UnauthorizedError,
};
use policy_broker::payload::{ParamType, Params};
use policy_broker::policy::{parse, BroadcastStmt, MsgType, ResponseStmt};
use policy_broker::validator::{
    ancestors, authorize, check_schema, validate, validate_broadcast, validate_parameters,
    validate_response,
};

fn validate_request_io(stmt: RequestStmt, message: &str, expected_error: bool) {
    let message = decode_frame(message).unwrap();
    let req_message = match message {
        Message::Request(req) => req,
        _ => panic!("Invalid message type"),
    };
    let result = validate_request(&stmt, &req_message);
    assert_eq!(!expected_error, result.is_none());
}

#[test]
fn test_validate_request_valid() {
    validate_request_io(
        RequestStmt {
            msg_name: "test".to_string(),
            msg_params: vec![
                MessageParams { param_name: "a".to_string(), param_type: "string".to_string() },
                MessageParams { param_name: "b".to_string(), param_type: "int".to_string() },
            ],
        },
        r#"{
                "type": "request",
                "payload": {
                    "a": "1",
                    "b": 2
                },
                "channel": "test"
            }"#,
        false,
    );
}

#[test]
fn test_validate_request_missing_message_param() {
    validate_request_io(
        RequestStmt {
            msg_name: "test".to_string(),
            msg_params: vec![
                MessageParams { param_name: "a".to_string(), param_type: "string".to_string() },
                MessageParams { param_name: "b".to_string(), param_type: "int".to_string() },
            ],
        },
        r#"{
                "type": "request",
                "payload": {
                    "a": "1"
                },
                "channel": "test"
            }"#,
        true,
    );
}

#[test]
fn test_validate_request_missing_policy_param() {
    validate_request_io(
        RequestStmt {
            msg_name: "test".to_string(),
            msg_params: vec![
                MessageParams { param_name: "a".to_string(), param_type: "string".to_string() },
            ],
        },
        r#"{
                "type": "request",
                "payload": {
                    "a": "1",
                    "b": 2
                },
                "channel": "test"
            }"#,
        true,
    );
}

#[test]
fn test_validate_request_wrong_parameter_type() {
    validate_request_io(
        RequestStmt {
            msg_name: "test".to_string(),
            msg_params: vec![
                MessageParams { param_name: "a".to_string(), param_type: "string".to_string() },
                MessageParams { param_name: "b".to_string(), param_type: "int".to_string() },
            ],
        },
        r#"{
                "type": "request",
                "payload": {
                    "a": "1",
                    "b": "2"
                },
                "channel": "test"
            }"#,
        true,
    );
}

#[test]
fn test_validate_message() {
    let policy = vec![Statement::Msg(MessageStmt::Request(RequestStmt {
        msg_name: "test".to_string(),
        msg_params: vec![],
    }))];
    let message = r#"{
            "type": "request",
            "payload": {},
            "channel": "test"
        }"#;
    let message = decode_frame(message).unwrap();
    // The schema is met; the policy has no allow rule, so no role may send.
    let result = validate_message(policy, &"user".to_string(), &message);
    assert!(matches!(result, Some(MessageError::UnauthorizedError(_))));
}


fn param(name: &str, ty: &str) -> MessageParams {
    MessageParams { param_name: name.to_string(), param_type: ty.to_string() }
}

fn payload(entries: Vec<(&str, ParamType)>) -> Params {
    let mut params = Params::new();
    for (name, value) in entries {
        params.insert(name.to_string(), value);
    }
    params
}

fn request(channel: &str, entries: Vec<(&str, ParamType)>) -> Message {
    Message::Request(RequestMessage { payload: payload(entries), channel: channel.to_string() })
}

fn response(channel: &str, entries: Vec<(&str, ParamType)>) -> Message {
    Message::Response(ResponseMessage { payload: payload(entries), channel: channel.to_string() })
}

fn broadcast(channel: &str, entries: Vec<(&str, ParamType)>) -> Message {
    Message::Broadcast(BroadcastMessage { payload: payload(entries), channel: channel.to_string() })
}

fn listen(channel: &str) -> Message {
    Message::Listen(ListenMessage { channel: channel.to_string() })
}

const TICK: &str = "role user\n\
    role admin extends user\n\
    role root extends admin\n\
    role guest\n\
    broadcast tick {n:int}\n\
    request ping {}\n\
    response ping {ok:bool}\n\
    allow user broadcast tick\n\
    allow user listen tick\n\
    allow admin request ping\n\
    allow root response ping when trusted\n";

#[test]
fn parameters_of_each_type_are_told_apart() {
    let declared = vec![
        param("s", "string"),
        param("i", "int"),
        param("f", "float"),
        param("b", "bool"),
    ];
    let good = payload(vec![
        ("s", ParamType::String("x".to_string())),
        ("i", ParamType::Int(-7)),
        ("f", ParamType::Float(1.5f64.to_bits())),
        ("b", ParamType::Bool(false)),
    ]);
    assert!(validate_parameters(&declared, &good).is_none());
    let order_does_not_matter = payload(vec![
        ("b", ParamType::Bool(true)),
        ("f", ParamType::Float(0)),
        ("i", ParamType::Int(0)),
        ("s", ParamType::String(String::new())),
    ]);
    assert!(validate_parameters(&declared, &order_does_not_matter).is_none());
    for wrong in ["s", "i", "f", "b"] {
        let mut entries = vec![
            ("s", ParamType::String("x".to_string())),
            ("i", ParamType::Int(1)),
            ("f", ParamType::Float(0)),
            ("b", ParamType::Bool(true)),
        ];
        for entry in entries.iter_mut() {
            if entry.0 == wrong {
                entry.1 = if wrong == "b" { ParamType::Int(1) } else { ParamType::Bool(true) };
            }
        }
        let bad = payload(entries);
        match validate_parameters(&declared, &bad) {
            Some(MessageError::InvalidParameterError(copy)) => assert_eq!(copy.len(), 4),
            other => panic!("expected an invalid parameter, got {:?}", other),
        }
    }
}

#[test]
fn int_is_no_float_and_float_is_no_int() {
    let wants_float = vec![param("x", "float")];
    let wants_int = vec![param("x", "int")];
    let int = payload(vec![("x", ParamType::Int(1))]);
    let float = payload(vec![("x", ParamType::Float(1.0f64.to_bits()))]);
    assert!(validate_parameters(&wants_float, &int).is_some());
    assert!(validate_parameters(&wants_int, &float).is_some());
    assert!(validate_parameters(&wants_float, &float).is_none());
    assert!(validate_parameters(&wants_int, &int).is_none());
}

#[test]
fn unknown_declared_type_matches_nothing() {
    let declared = vec![param("x", "integer")];
    assert!(validate_parameters(&declared, &payload(vec![("x", ParamType::Int(1))])).is_some());
}

#[test]
fn empty_schema_takes_only_the_empty_payload() {
    assert!(validate_parameters(&vec![], &Params::new()).is_none());
    assert!(validate_parameters(&vec![], &payload(vec![("x", ParamType::Int(1))])).is_some());
}

#[test]
fn error_holds_a_copy_of_the_payload() {
    let bad = payload(vec![("n", ParamType::String("hello".to_string()))]);
    match validate_parameters(&vec![param("n", "int")], &bad) {
        Some(MessageError::InvalidParameterError(copy)) => {
            assert_eq!(copy.len(), 1);
            assert_eq!(copy.get(&"n".to_string()), Some(&ParamType::String("hello".to_string())));
        }
        other => panic!("expected an invalid parameter, got {:?}", other),
    }
}

#[test]
fn schema_of_another_name_is_the_invalid_channel() {
    let stmt = RequestStmt { msg_name: "ping".to_string(), msg_params: vec![] };
    let message = RequestMessage { payload: Params::new(), channel: "pong".to_string() };
    assert!(matches!(
        validate_request(&stmt, &message),
        Some(MessageError::InvalidChannelError(_))
    ));
    let stmt = ResponseStmt { msg_name: "ping".to_string(), msg_params: vec![] };
    let message = ResponseMessage { payload: Params::new(), channel: "pong".to_string() };
    assert!(matches!(
        validate_response(&stmt, &message),
        Some(MessageError::InvalidChannelError(_))
    ));
    let stmt = BroadcastStmt { msg_name: "tick".to_string(), msg_params: vec![param("n", "int")] };
    let message = BroadcastMessage {
        payload: payload(vec![("n", ParamType::Int(1))]),
        channel: "tock".to_string(),
    };
    assert!(matches!(
        validate_broadcast(&stmt, &message),
        Some(MessageError::InvalidChannelError(_))
    ));
    let message = BroadcastMessage {
        payload: payload(vec![("n", ParamType::Int(1))]),
        channel: "tick".to_string(),
    };
    assert!(validate_broadcast(&stmt, &message).is_none());
}

#[test]
fn schema_is_looked_up_by_kind_and_name() {
    let policy = parse(TICK).unwrap();
    assert!(check_schema(&policy, &broadcast("tick", vec![("n", ParamType::Int(1))])).is_none());
    assert!(check_schema(&policy, &request("ping", vec![])).is_none());
    assert!(check_schema(&policy, &response("ping", vec![("ok", ParamType::Bool(true))])).is_none());
    // `tick` is a broadcast, not a request; `ping` is no broadcast.
    assert!(matches!(
        check_schema(&policy, &request("tick", vec![("n", ParamType::Int(1))])),
        Some(MessageError::InvalidChannelError(_))
    ));
    assert!(matches!(
        check_schema(&policy, &broadcast("ping", vec![])),
        Some(MessageError::InvalidChannelError(_))
    ));
    assert!(matches!(
        check_schema(&policy, &request("nowhere", vec![])),
        Some(MessageError::InvalidChannelError(_))
    ));
    assert!(matches!(
        check_schema(&Vec::new(), &request("ping", vec![])),
        Some(MessageError::InvalidChannelError(_))
    ));
}

#[test]
fn listen_goes_by_the_broadcast_schemas() {
    let policy = parse(TICK).unwrap();
    assert!(check_schema(&policy, &listen("tick")).is_none());
    assert!(matches!(
        check_schema(&policy, &listen("ping")),
        Some(MessageError::InvalidChannelError(_))
    ));
}

#[test]
fn extra_or_missing_keys_are_invalid_parameters() {
    let policy = parse(TICK).unwrap();
    for role in ["user", "guest", "nobody"] {
        let extra = broadcast("tick", vec![("n", ParamType::Int(1)), ("m", ParamType::Int(2))]);
        assert!(matches!(
            validate(&policy, &role.to_string(), &extra),
            Err(MessageError::InvalidParameterError(_))
        ));
        let missing = broadcast("tick", vec![]);
        assert!(matches!(
            validate(&policy, &role.to_string(), &missing),
            Err(MessageError::InvalidParameterError(_))
        ));
        let renamed = broadcast("tick", vec![("m", ParamType::Int(1))]);
        assert!(matches!(
            validate(&policy, &role.to_string(), &renamed),
            Err(MessageError::InvalidParameterError(_))
        ));
    }
}

#[test]
fn matching_message_of_an_allowed_role_passes() {
    let policy = parse(TICK).unwrap();
    let user = "user".to_string();
    assert!(validate(&policy, &user, &broadcast("tick", vec![("n", ParamType::Int(1))])).is_ok());
    assert!(validate(&policy, &user, &listen("tick")).is_ok());
    let admin = "admin".to_string();
    assert!(validate(&policy, &admin, &request("ping", vec![])).is_ok());
}

#[test]
fn role_without_a_rule_is_unauthorized() {
    let policy = parse(TICK).unwrap();
    let guest = "guest".to_string();
    assert!(matches!(
        validate(&policy, &guest, &broadcast("tick", vec![("n", ParamType::Int(1))])),
        Err(MessageError::UnauthorizedError(_))
    ));
    assert!(matches!(
        validate(&policy, &guest, &listen("tick")),
        Err(MessageError::UnauthorizedError(_))
    ));
    let user = "user".to_string();
    assert!(matches!(
        validate(&policy, &user, &request("ping", vec![])),
        Err(MessageError::UnauthorizedError(_))
    ));
    let undeclared = "stranger".to_string();
    assert!(matches!(
        validate(&policy, &undeclared, &listen("tick")),
        Err(MessageError::UnauthorizedError(_))
    ));
}

#[test]
fn shape_errors_come_before_permission_errors() {
    let policy = parse(TICK).unwrap();
    let guest = "guest".to_string();
    assert!(matches!(
        validate(&policy, &guest, &broadcast("tick", vec![("n", ParamType::Bool(true))])),
        Err(MessageError::InvalidParameterError(_))
    ));
    assert!(matches!(
        validate(&policy, &guest, &broadcast("nowhere", vec![])),
        Err(MessageError::InvalidChannelError(_))
    ));
}

#[test]
fn role_inherits_what_its_parent_may_send() {
    let policy = parse("role A\nrole B extends A\nbroadcast x {}\nallow A broadcast x\n").unwrap();
    assert!(validate(&policy, &"B".to_string(), &broadcast("x", vec![])).is_ok());
    assert!(validate(&policy, &"A".to_string(), &broadcast("x", vec![])).is_ok());
    assert!(authorize(&policy, &"B".to_string(), MsgType::Broadcast, &"x".to_string()));
    assert!(!authorize(&policy, &"B".to_string(), MsgType::Listen, &"x".to_string()));
    assert!(!authorize(&policy, &"B".to_string(), MsgType::Broadcast, &"y".to_string()));
}

#[test]
fn inheritance_is_transitive_and_goes_one_way() {
    let policy = parse(TICK).unwrap();
    let tick = "tick".to_string();
    let ping = "ping".to_string();
    assert!(authorize(&policy, &"root".to_string(), MsgType::Broadcast, &tick));
    assert!(authorize(&policy, &"root".to_string(), MsgType::Request, &ping));
    assert!(authorize(&policy, &"admin".to_string(), MsgType::Broadcast, &tick));
    assert!(!authorize(&policy, &"admin".to_string(), MsgType::Response, &ping));
    assert!(!authorize(&policy, &"user".to_string(), MsgType::Request, &ping));
}

#[test]
fn filter_on_a_rule_does_not_block_it() {
    let policy = parse(TICK).unwrap();
    let root = "root".to_string();
    assert!(validate(&policy, &root, &response("ping", vec![("ok", ParamType::Bool(true))])).is_ok());
}

#[test]
fn ancestors_are_the_role_and_all_it_extends() {
    let policy = parse(TICK).unwrap();
    let mut found = ancestors(&policy, &"root".to_string());
    assert_eq!(found[0], "root");
    found.sort();
    assert_eq!(found, vec!["admin".to_string(), "root".to_string(), "user".to_string()]);
    assert_eq!(ancestors(&policy, &"guest".to_string()), vec!["guest".to_string()]);
    assert_eq!(ancestors(&policy, &"stranger".to_string()), vec!["stranger".to_string()]);
}

#[test]
fn ancestors_end_on_a_cycle_of_roles() {
    let policy = parse("role a extends b role b extends c role c extends a role d extends a")
        .unwrap();
    let mut found = ancestors(&policy, &"d".to_string());
    found.sort();
    assert_eq!(
        found,
        vec!["a".to_string(), "b".to_string(), "c".to_string(), "d".to_string()]
    );
    let mut found = ancestors(&policy, &"b".to_string());
    found.sort();
    assert_eq!(found, vec!["a".to_string(), "b".to_string(), "c".to_string()]);
}

#[test]
fn ancestors_follow_every_declaration_of_a_role() {
    let policy = parse("role a extends b role a extends c role c extends d").unwrap();
    let mut found = ancestors(&policy, &"a".to_string());
    found.sort();
    assert_eq!(
        found,
        vec!["a".to_string(), "b".to_string(), "c".to_string(), "d".to_string()]
    );
}

#[test]
fn message_that_meets_any_schema_of_its_channel_passes() {
    let policy = parse("request p {a:int} request p {a:string} request p {}").unwrap();
    assert!(check_schema(&policy, &request("p", vec![("a", ParamType::Int(1))])).is_none());
    assert!(
        check_schema(&policy, &request("p", vec![("a", ParamType::String("x".to_string()))]))
            .is_none()
    );
    assert!(check_schema(&policy, &request("p", vec![])).is_none());
    assert!(matches!(
        check_schema(&policy, &request("p", vec![("a", ParamType::Bool(true))])),
        Some(MessageError::InvalidParameterError(_))
    ));
}

#[test]
fn payload_keeps_one_value_for_each_name() {
    let mut params = Params::new();
    assert_eq!(params.len(), 0);
    params.insert("a".to_string(), ParamType::Int(1));
    params.insert("b".to_string(), ParamType::Int(2));
    params.insert("a".to_string(), ParamType::Bool(true));
    assert_eq!(params.len(), 2);
    assert_eq!(params.get(&"a".to_string()), Some(&ParamType::Bool(true)));
    assert_eq!(params.get(&"b".to_string()), Some(&ParamType::Int(2)));
    assert_eq!(params.get(&"c".to_string()), None);
    assert!(params.contains_key(&"b".to_string()));
    assert!(!params.contains_key(&"c".to_string()));
    assert_eq!(params.position(&"b".to_string()), Some(1));
    assert_eq!(params.entry(0).name, "a");
    let copy = params.clone();
    assert_eq!(copy.len(), 2);
    assert_eq!(copy.get(&"a".to_string()), Some(&ParamType::Bool(true)));
}

#[test]
fn errors_describe_themselves() {
    assert_eq!(InvalidChannelError.to_string(), "Invalid channel");
    assert_eq!(
        InvalidMessageTypeError { given_type: "x".to_string() }.to_string(),
        "Invalid message type"
    );
    assert_eq!(UnauthorizedError.to_string(), "Unauthorized");
    assert_eq!(MessageError::InvalidChannelError(InvalidChannelError).reason(), "InvalidChannel");
    assert_eq!(MessageError::InvalidParameterError(Params::new()).reason(), "InvalidParameter");
    assert_eq!(MessageError::UnauthorizedError(UnauthorizedError).reason(), "Unauthorized");
    assert_eq!(
        MessageError::InvalidMessageTypeError(InvalidMessageTypeError {
            given_type: "x".to_string()
        })
        .reason(),
        "InvalidMessageType"
    );
    assert_eq!(MessageError::DecodeError(DecodeError::Syntax).reason(), "DecodeError");
}

#[test]
fn validate_message_goes_by_schema_and_role() {
    let source = "role user request test {} allow user request test";
    let message = decode_frame(r#"{"type":"request","payload":{},"channel":"test"}"#).unwrap();
    assert!(validate_message(parse(source).unwrap(), &"user".to_string(), &message).is_none());
    assert!(matches!(
        validate_message(parse(source).unwrap(), &"guest".to_string(), &message),
        Some(MessageError::UnauthorizedError(_))
    ));
    let other = decode_frame(r#"{"type":"request","payload":{},"channel":"nowhere"}"#).unwrap();
    assert!(matches!(
        validate_message(parse(source).unwrap(), &"user".to_string(), &other),
        Some(MessageError::InvalidChannelError(_))
    ));
    let extra = decode_frame(r#"{"type":"request","payload":{"x":1},"channel":"test"}"#).unwrap();
    assert!(matches!(
        validate_message(parse(source).unwrap(), &"guest".to_string(), &extra),
        Some(MessageError::InvalidParameterError(_))
    ));
}

#[test]
fn validate_message_turns_away_a_role_without_the_rule() {
    let source = "role user broadcast tick {n:int} allow user listen tick";
    let message = broadcast("tick", vec![("n", ParamType::Int(1))]);
    assert!(matches!(
        validate_message(parse(source).unwrap(), &"user".to_string(), &message),
        Some(MessageError::UnauthorizedError(_))
    ));
    assert!(validate_message(parse(source).unwrap(), &"user".to_string(), &listen("tick")).is_none());
}
