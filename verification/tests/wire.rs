use policy_broker::json::{Json, JsonNumber};
use policy_broker::message::{
    BroadcastMessage, DecodeError, EnvelopeField, InvalidChannelError, InvalidMessageTypeError,
    ListenMessage, Message, MessageError, RequestMessage, ResponseMessage, UnauthorizedError,
};
use policy_broker::payload::{ParamType, Params};
use policy_broker::policy::{parse, MsgType};
use policy_broker::wire::{
    decode_frame, decode_message, encode_error, encode_message, encode_param, encode_payload,
    find_member, message_from_json, message_from_str, param_from_json, payload_from_members,
};

fn text(s: &str) -> Json {
    Json::String(s.to_string())
}

fn whole(i: i64) -> Json {
    Json::Number(JsonNumber { integer: Some(i), real: Some((i as f64).to_bits()) })
}

fn fraction(x: f64) -> Json {
    Json::Number(JsonNumber { integer: None, real: Some(x.to_bits()) })
}

fn object(members: Vec<(&str, Json)>) -> Json {
    Json::Object(members.into_iter().map(|(k, v)| (k.to_string(), v)).collect())
}

fn decode_error(json: &Json) -> DecodeError {
    match decode_message(json) {
        Err(MessageError::DecodeError(error)) => error,
        other => panic!("expected a decode error, got {:?}", other),
    }
}

#[test]
fn frame_decodes_to_a_broadcast() {
    let message =
        decode_frame(r#"{"type":"broadcast","channel":"tick","payload":{"n":1}}"#).unwrap();
    match message {
        Message::Broadcast(m) => {
            assert_eq!(m.channel, "tick");
            assert_eq!(m.payload.len(), 1);
            assert_eq!(m.payload.get(&"n".to_string()), Some(&ParamType::Int(1)));
        }
        other => panic!("expected a broadcast, got {:?}", other),
    }
}

#[test]
fn frame_decodes_to_each_kind() {
    assert!(matches!(
        decode_frame(r#"{"type":"request","channel":"c","payload":{}}"#),
        Ok(Message::Request(_))
    ));
    assert!(matches!(
        decode_frame(r#"{"type":"response","channel":"c","payload":{}}"#),
        Ok(Message::Response(_))
    ));
    assert!(matches!(
        decode_frame(r#"{"type":"broadcast","channel":"c","payload":{}}"#),
        Ok(Message::Broadcast(_))
    ));
    assert!(matches!(
        decode_frame(r#"{"type":"listen","channel":"c"}"#),
        Ok(Message::Listen(_))
    ));
}

#[test]
fn listen_needs_no_payload_and_ignores_one() {
    match decode_frame(r#"{"type":"listen","channel":"tick"}"#).unwrap() {
        Message::Listen(m) => assert_eq!(m.channel, "tick"),
        other => panic!("expected a listen, got {:?}", other),
    }
    assert!(matches!(
        decode_frame(r#"{"type":"listen","channel":"tick","payload":[1,2]}"#),
        Ok(Message::Listen(_))
    ));
}

#[test]
fn unknown_top_level_keys_are_ignored() {
    let message = decode_frame(
        r#"{"id":7,"type":"request","trace":{"a":[1,null]},"channel":"ping","payload":{}}"#,
    )
    .unwrap();
    assert!(matches!(message, Message::Request(_)));
}

#[test]
fn payload_values_keep_their_tags() {
    let message = decode_frame(
        r#"{"type":"request","channel":"c","payload":
            {"s":"hello","i":-3,"f":2.5,"t":true,"big":3000000000,"one":1.0,"e":1e2}}"#,
    )
    .unwrap();
    let payload = match message {
        Message::Request(m) => m.payload,
        other => panic!("expected a request, got {:?}", other),
    };
    assert_eq!(payload.len(), 7);
    assert_eq!(payload.get(&"s".to_string()), Some(&ParamType::String("hello".to_string())));
    assert_eq!(payload.get(&"i".to_string()), Some(&ParamType::Int(-3)));
    assert_eq!(payload.get(&"f".to_string()), Some(&ParamType::Float(2.5f64.to_bits())));
    assert_eq!(payload.get(&"t".to_string()), Some(&ParamType::Bool(true)));
    // An integer that does not fit 32 bits is a float, and so is every
    // number written with a fraction or an exponent.
    assert_eq!(payload.get(&"big".to_string()), Some(&ParamType::Float(3.0e9f64.to_bits())));
    assert_eq!(payload.get(&"one".to_string()), Some(&ParamType::Float(1.0f64.to_bits())));
    assert_eq!(payload.get(&"e".to_string()), Some(&ParamType::Float(100.0f64.to_bits())));
}

#[test]
fn int_covers_exactly_the_32_bit_range() {
    assert_eq!(param_from_json(&whole(2147483647)), Some(ParamType::Int(i32::MAX)));
    assert_eq!(param_from_json(&whole(-2147483648)), Some(ParamType::Int(i32::MIN)));
    assert_eq!(
        param_from_json(&whole(2147483648)),
        Some(ParamType::Float(2147483648.0f64.to_bits()))
    );
    assert_eq!(
        param_from_json(&whole(-2147483649)),
        Some(ParamType::Float((-2147483649.0f64).to_bits()))
    );
    assert_eq!(param_from_json(&fraction(0.5)), Some(ParamType::Float(0.5f64.to_bits())));
    assert_eq!(
        param_from_json(&Json::Number(JsonNumber { integer: None, real: None })),
        None
    );
    assert_eq!(
        param_from_json(&Json::Number(JsonNumber { integer: Some(1 << 40), real: None })),
        None
    );
}

#[test]
fn only_scalars_are_parameter_values() {
    assert_eq!(param_from_json(&text("a")), Some(ParamType::String("a".to_string())));
    assert_eq!(param_from_json(&Json::Bool(true)), Some(ParamType::Bool(true)));
    assert_eq!(param_from_json(&Json::Null), None);
    assert_eq!(param_from_json(&Json::Array(vec![])), None);
    assert_eq!(param_from_json(&object(vec![])), None);
}

#[test]
fn text_that_is_no_json_is_a_syntax_error() {
    for frame in ["", "{", "{\"type\":}", "type: request", "{} {}", "{'type':'listen'}"] {
        assert!(matches!(
            decode_frame(frame),
            Err(MessageError::DecodeError(DecodeError::Syntax))
        ));
    }
}

#[test]
fn json_that_is_no_object_is_refused() {
    for frame in ["null", "true", "1", "\"listen\"", "[]", "[{\"type\":\"listen\"}]"] {
        assert!(matches!(
            decode_frame(frame),
            Err(MessageError::DecodeError(DecodeError::NotAnObject))
        ));
    }
    assert_eq!(decode_error(&Json::Null), DecodeError::NotAnObject);
    assert_eq!(decode_error(&whole(1)), DecodeError::NotAnObject);
}

#[test]
fn missing_fields_are_named() {
    assert_eq!(decode_error(&object(vec![])), DecodeError::MissingField(EnvelopeField::Type));
    assert_eq!(
        decode_error(&object(vec![("channel", text("c")), ("payload", object(vec![]))])),
        DecodeError::MissingField(EnvelopeField::Type)
    );
    assert_eq!(
        decode_error(&object(vec![("type", text("request")), ("payload", object(vec![]))])),
        DecodeError::MissingField(EnvelopeField::Channel)
    );
    assert_eq!(
        decode_error(&object(vec![("type", text("listen"))])),
        DecodeError::MissingField(EnvelopeField::Channel)
    );
    for kind in ["request", "response", "broadcast"] {
        assert_eq!(
            decode_error(&object(vec![("type", text(kind)), ("channel", text("c"))])),
            DecodeError::MissingField(EnvelopeField::Payload)
        );
    }
}

#[test]
fn fields_of_the_wrong_shape_are_named() {
    assert_eq!(
        decode_error(&object(vec![("type", whole(1)), ("channel", text("c"))])),
        DecodeError::InvalidField(EnvelopeField::Type)
    );
    assert_eq!(
        decode_error(&object(vec![("type", text("listen")), ("channel", Json::Null)])),
        DecodeError::InvalidField(EnvelopeField::Channel)
    );
    assert_eq!(
        decode_error(&object(vec![
            ("type", text("request")),
            ("channel", text("c")),
            ("payload", Json::Array(vec![])),
        ])),
        DecodeError::InvalidField(EnvelopeField::Payload)
    );
    assert_eq!(
        decode_error(&object(vec![
            ("type", text("request")),
            ("channel", text("c")),
            ("payload", object(vec![("a", whole(1)), ("b", Json::Null)])),
        ])),
        DecodeError::InvalidField(EnvelopeField::Payload)
    );
    assert_eq!(
        decode_error(&object(vec![
            ("type", text("broadcast")),
            ("channel", text("c")),
            ("payload", object(vec![("nested", object(vec![]))])),
        ])),
        DecodeError::InvalidField(EnvelopeField::Payload)
    );
}

#[test]
fn unknown_type_is_given_back() {
    match decode_frame(r#"{"type":"shout","channel":"c","payload":{}}"#) {
        Err(MessageError::InvalidMessageTypeError(error)) => assert_eq!(error.given_type, "shout"),
        other => panic!("expected an invalid message type, got {:?}", other),
    }
    assert!(matches!(
        decode_frame(r#"{"type":"Listen","channel":"c"}"#),
        Err(MessageError::InvalidMessageTypeError(_))
    ));
    assert!(matches!(
        decode_frame(r#"{"type":"error","reason":"Unauthorized"}"#),
        Err(MessageError::InvalidMessageTypeError(_))
    ));
}

#[test]
fn type_is_read_before_channel_and_channel_before_payload() {
    assert!(matches!(
        decode_message(&object(vec![("type", text("shout"))])),
        Err(MessageError::InvalidMessageTypeError(_))
    ));
    assert_eq!(
        decode_error(&object(vec![("type", text("request")), ("payload", whole(1))])),
        DecodeError::MissingField(EnvelopeField::Channel)
    );
}

#[test]
fn msg_type_from_str_knows_the_four_kinds() {
    assert_eq!(MsgType::from_str(&"broadcast".to_string()), Ok(MsgType::Broadcast));
    assert_eq!(MsgType::from_str(&"listen".to_string()), Ok(MsgType::Listen));
    assert_eq!(MsgType::from_str(&"request".to_string()), Ok(MsgType::Request));
    assert_eq!(MsgType::from_str(&"response".to_string()), Ok(MsgType::Response));
    assert_eq!(MsgType::from_str(&"".to_string()), Err(()));
    assert_eq!(MsgType::from_str(&"requests".to_string()), Err(()));
}

#[test]
fn find_member_takes_the_first_of_a_name() {
    let members = vec![
        ("a".to_string(), whole(1)),
        ("b".to_string(), whole(2)),
        ("a".to_string(), whole(3)),
    ];
    assert_eq!(find_member(&members, "a"), Some(&whole(1)));
    assert_eq!(find_member(&members, "b"), Some(&whole(2)));
    assert_eq!(find_member(&members, "c"), None);
    assert_eq!(find_member(&Vec::new(), "a"), None);
}

#[test]
fn payload_from_members_lets_the_later_member_count() {
    let members = vec![
        ("a".to_string(), whole(1)),
        ("b".to_string(), text("x")),
        ("a".to_string(), Json::Bool(true)),
    ];
    let payload = payload_from_members(&members).unwrap();
    assert_eq!(payload.len(), 2);
    assert_eq!(payload.get(&"a".to_string()), Some(&ParamType::Bool(true)));
    assert_eq!(payload.get(&"b".to_string()), Some(&ParamType::String("x".to_string())));
    assert!(payload_from_members(&vec![("a".to_string(), Json::Null)]).is_none());
    assert_eq!(payload_from_members(&Vec::new()).unwrap().len(), 0);
}

#[test]
fn repeated_key_in_a_frame_counts_once() {
    let message =
        decode_frame(r#"{"type":"request","channel":"c","payload":{"a":1,"a":"x"}}"#).unwrap();
    match message {
        Message::Request(m) => {
            assert_eq!(m.payload.len(), 1);
            assert_eq!(m.payload.get(&"a".to_string()), Some(&ParamType::String("x".to_string())));
        }
        other => panic!("expected a request, got {:?}", other),
    }
}

#[test]
fn message_from_str_decodes_and_validates() {
    let source = "role user broadcast tick {n:int} allow user broadcast tick";
    let user = "user".to_string();
    let good = message_from_str(
        parse(source).unwrap(),
        &user,
        r#"{"type":"broadcast","channel":"tick","payload":{"n":1}}"#,
    );
    match good {
        Ok(Message::Broadcast(m)) => {
            assert_eq!(m.channel, "tick");
            assert_eq!(m.payload.get(&"n".to_string()), Some(&ParamType::Int(1)));
        }
        other => panic!("expected a broadcast, got {:?}", other),
    }
    let wrong_type = message_from_str(
        parse(source).unwrap(),
        &user,
        r#"{"type":"broadcast","channel":"tick","payload":{"n":"hello"}}"#,
    );
    assert!(matches!(wrong_type, Err(MessageError::InvalidParameterError(_))));
    let unknown = message_from_str(
        parse(source).unwrap(),
        &user,
        r#"{"type":"broadcast","channel":"tock","payload":{"n":1}}"#,
    );
    assert!(matches!(unknown, Err(MessageError::InvalidChannelError(_))));
    let broken = message_from_str(parse(source).unwrap(), &user, r#"{"type":"broadcast""#);
    assert!(matches!(broken, Err(MessageError::DecodeError(DecodeError::Syntax))));
}

#[test]
fn message_from_str_asks_the_allow_rules() {
    let source = "role user role guest broadcast tick {n:int} allow user broadcast tick";
    let frame = r#"{"type":"broadcast","channel":"tick","payload":{"n":1}}"#;
    assert!(matches!(
        message_from_str(parse(source).unwrap(), &"guest".to_string(), frame),
        Err(MessageError::UnauthorizedError(_))
    ));
    // The rule allows the broadcast, not the listen.
    let listen = r#"{"type":"listen","channel":"tick"}"#;
    assert!(matches!(
        message_from_str(parse(source).unwrap(), &"user".to_string(), listen),
        Err(MessageError::UnauthorizedError(_))
    ));
    // A payload out of shape comes before the missing permission.
    let bad = r#"{"type":"broadcast","channel":"tick","payload":{}}"#;
    assert!(matches!(
        message_from_str(parse(source).unwrap(), &"guest".to_string(), bad),
        Err(MessageError::InvalidParameterError(_))
    ));
}

#[test]
fn message_from_json_decodes_and_validates() {
    let policy =
        parse("request ping {} response ping {ok:bool} allow u request ping allow u response ping")
            .unwrap();
    let u = "u".to_string();
    let request = object(vec![
        ("type", text("request")),
        ("channel", text("ping")),
        ("payload", object(vec![])),
    ]);
    assert!(matches!(message_from_json(&policy, &u, &request), Ok(Message::Request(_))));
    assert!(matches!(
        message_from_json(&policy, &"v".to_string(), &request),
        Err(MessageError::UnauthorizedError(_))
    ));
    let response = object(vec![
        ("type", text("response")),
        ("channel", text("ping")),
        ("payload", object(vec![])),
    ]);
    assert!(matches!(
        message_from_json(&policy, &u, &response),
        Err(MessageError::InvalidParameterError(_))
    ));
    assert!(matches!(
        message_from_json(&policy, &u, &Json::Null),
        Err(MessageError::DecodeError(DecodeError::NotAnObject))
    ));
}

fn rendered(json: &Json) -> String {
    fn value(json: &Json) -> serde_json::Value {
        match json {
            Json::Null => serde_json::Value::Null,
            Json::Bool(b) => serde_json::Value::Bool(*b),
            Json::Number(n) => match (n.integer, n.real) {
                (Some(i), _) => serde_json::Value::from(i),
                (None, Some(bits)) => serde_json::Value::from(f64::from_bits(bits)),
                (None, None) => serde_json::Value::Null,
            },
            Json::String(s) => serde_json::Value::String(s.clone()),
            Json::Array(items) => serde_json::Value::Array(items.iter().map(value).collect()),
            Json::Object(members) => serde_json::Value::Object(
                members.iter().map(|(k, v)| (k.clone(), value(v))).collect(),
            ),
        }
    }
    value(json).to_string()
}

fn sample_payload() -> Params {
    let mut payload = Params::new();
    payload.insert("s".to_string(), ParamType::String("a \"b\"".to_string()));
    payload.insert("i".to_string(), ParamType::Int(-5));
    payload.insert("f".to_string(), ParamType::Float(0.25f64.to_bits()));
    payload.insert("b".to_string(), ParamType::Bool(true));
    payload
}

fn same_payload(a: &Params, b: &Params) -> bool {
    a.len() == b.len() && (0..a.len()).all(|i| b.get(&a.entry(i).name) == Some(&a.entry(i).value))
}

#[test]
fn encoded_message_has_the_three_fields() {
    let message = Message::Broadcast(BroadcastMessage {
        payload: sample_payload(),
        channel: "tick".to_string(),
    });
    match encode_message(&message) {
        Json::Object(members) => {
            assert_eq!(members.len(), 3);
            assert_eq!(find_member(&members, "type"), Some(&text("broadcast")));
            assert_eq!(find_member(&members, "channel"), Some(&text("tick")));
            match find_member(&members, "payload") {
                Some(Json::Object(entries)) => {
                    assert_eq!(entries.len(), 4);
                    assert_eq!(find_member(entries, "s"), Some(&text("a \"b\"")));
                    assert_eq!(
                        find_member(entries, "i"),
                        Some(&Json::Number(JsonNumber { integer: Some(-5), real: None }))
                    );
                    assert_eq!(
                        find_member(entries, "f"),
                        Some(&Json::Number(JsonNumber {
                            integer: None,
                            real: Some(0.25f64.to_bits())
                        }))
                    );
                    assert_eq!(find_member(entries, "b"), Some(&Json::Bool(true)));
                }
                other => panic!("expected an object, got {:?}", other),
            }
        }
        other => panic!("expected an object, got {:?}", other),
    }
}

#[test]
fn encoded_listen_has_no_payload() {
    let message = Message::Listen(ListenMessage { channel: "tick".to_string() });
    match encode_message(&message) {
        Json::Object(members) => {
            assert_eq!(members.len(), 2);
            assert_eq!(find_member(&members, "type"), Some(&text("listen")));
            assert_eq!(find_member(&members, "channel"), Some(&text("tick")));
        }
        other => panic!("expected an object, got {:?}", other),
    }
}

#[test]
fn encoded_message_decodes_to_itself() {
    let request = Message::Request(RequestMessage {
        payload: sample_payload(),
        channel: "ping".to_string(),
    });
    match decode_message(&encode_message(&request)) {
        Ok(Message::Request(m)) => {
            assert_eq!(m.channel, "ping");
            assert!(same_payload(&m.payload, &sample_payload()));
        }
        other => panic!("expected a request, got {:?}", other),
    }
    let response = Message::Response(ResponseMessage {
        payload: Params::new(),
        channel: "ping".to_string(),
    });
    assert!(matches!(
        decode_message(&encode_message(&response)),
        Ok(Message::Response(m)) if m.channel == "ping" && m.payload.len() == 0
    ));
    let listen = Message::Listen(ListenMessage { channel: "tick".to_string() });
    assert!(matches!(
        decode_message(&encode_message(&listen)),
        Ok(Message::Listen(m)) if m.channel == "tick"
    ));
}

#[test]
fn encoded_message_survives_the_text() {
    let broadcast = Message::Broadcast(BroadcastMessage {
        payload: sample_payload(),
        channel: "tick".to_string(),
    });
    let frame = rendered(&encode_message(&broadcast));
    match decode_frame(&frame) {
        Ok(Message::Broadcast(m)) => {
            assert_eq!(m.channel, "tick");
            assert!(same_payload(&m.payload, &sample_payload()));
        }
        other => panic!("expected a broadcast, got {:?}", other),
    }
}

#[test]
fn msg_type_names_itself() {
    assert_eq!(MsgType::Broadcast.to_string(), "broadcast");
    assert_eq!(MsgType::Listen.to_string(), "listen");
    assert_eq!(MsgType::Request.to_string(), "request");
    assert_eq!(MsgType::Response.to_string(), "response");
    for kind in [MsgType::Broadcast, MsgType::Listen, MsgType::Request, MsgType::Response] {
        assert_eq!(MsgType::from_str(&kind.to_string()), Ok(kind));
    }
}

#[test]
fn encoded_param_keeps_its_tag() {
    for value in [
        ParamType::String("x".to_string()),
        ParamType::Int(i32::MIN),
        ParamType::Int(i32::MAX),
        ParamType::Float(f64::MAX.to_bits()),
        ParamType::Float(0),
        ParamType::Bool(false),
    ] {
        assert_eq!(param_from_json(&encode_param(&value)), Some(value));
    }
}

#[test]
fn encoded_payload_has_one_member_for_each_entry() {
    let members = encode_payload(&sample_payload());
    assert_eq!(members.len(), 4);
    assert!(same_payload(&payload_from_members(&members).unwrap(), &sample_payload()));
    assert_eq!(encode_payload(&Params::new()).len(), 0);
}

#[test]
fn error_frame_names_the_reason() {
    let frame = encode_error(&MessageError::UnauthorizedError(UnauthorizedError));
    assert_eq!(rendered(&frame), r#"{"reason":"Unauthorized","type":"error"}"#);
    let frame = encode_error(&MessageError::InvalidParameterError(sample_payload()));
    assert_eq!(rendered(&frame), r#"{"reason":"InvalidParameter","type":"error"}"#);
    let frame = encode_error(&MessageError::InvalidChannelError(InvalidChannelError));
    assert_eq!(
        rendered(&frame),
        r#"{"message":"Invalid channel","reason":"InvalidChannel","type":"error"}"#
    );
    let frame = encode_error(&MessageError::InvalidMessageTypeError(InvalidMessageTypeError {
        given_type: "yell".to_string(),
    }));
    assert_eq!(
        rendered(&frame),
        r#"{"message":"Invalid message type","reason":"InvalidMessageType","type":"error"}"#
    );
    let frame = encode_error(&MessageError::DecodeError(DecodeError::NotAnObject));
    assert_eq!(rendered(&frame), r#"{"reason":"DecodeError","type":"error"}"#);
}

#[test]
fn error_frame_is_no_message() {
    let frame = encode_error(&MessageError::UnauthorizedError(UnauthorizedError));
    match decode_message(&frame) {
        Err(MessageError::InvalidMessageTypeError(e)) => assert_eq!(e.given_type, "error"),
        other => panic!("expected an invalid message type, got {:?}", other),
    }
}
