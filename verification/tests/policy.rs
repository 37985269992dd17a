use policy_broker::lexer::{lex, recognize_reserved_word, Diagnostic, Expected, Lexeme, Token};
use policy_broker::parser::{parse_body, same_token, Parser, SyntaxError};
use policy_broker::policy::{
    parse, AllowStmt, MessageParams, MessageStmt, MsgType, RoleStmt, Statement,
};

fn tokens(input: &str) -> Vec<Lexeme> {
    lex(input).unwrap()
}

fn is(token: &Token, other: Token) -> bool {
    same_token(token, &other)
}

#[test]
fn lex_empty_text_has_no_tokens() {
    assert_eq!(tokens("").len(), 0);
    assert_eq!(tokens(" \t\r\n ").len(), 0);
}

#[test]
fn lex_reserved_words_and_signs() {
    let found = tokens("allow broadcast listen request response role extends when { } :");
    assert_eq!(found.len(), 11);
    assert!(is(&found[0].token, Token::Allow));
    assert!(is(&found[1].token, Token::Broadcast));
    assert!(is(&found[2].token, Token::Listen));
    assert!(is(&found[3].token, Token::Request));
    assert!(is(&found[4].token, Token::Response));
    assert!(is(&found[5].token, Token::Role));
    assert!(is(&found[6].token, Token::Extends));
    assert!(is(&found[7].token, Token::When));
    assert!(is(&found[8].token, Token::LBrace));
    assert!(is(&found[9].token, Token::RBrace));
    assert!(is(&found[10].token, Token::Colon));
}

#[test]
fn lex_offsets_count_characters() {
    let found = tokens("role  user\n{x:y}");
    let offsets: Vec<usize> = found.iter().map(|l| l.offset).collect();
    assert_eq!(offsets, vec![0, 6, 11, 12, 13, 14, 15]);
}

#[test]
fn lex_offsets_count_characters_not_bytes() {
    // Only white space and token characters are known, so a wide character
    // can only stand where the lexing fails; the place counts characters.
    assert_eq!(
        lex("a é"),
        Err(Diagnostic { line: 0, column: 2, expected: Expected::Character })
    );
}

#[test]
fn lex_identifier_takes_the_longest_run() {
    let found = tokens("roleuser tick-2_b A9");
    assert_eq!(found.len(), 3);
    assert!(is(&found[0].token, Token::Identifier("roleuser".to_string())));
    assert!(is(&found[1].token, Token::Identifier("tick-2_b".to_string())));
    assert!(is(&found[2].token, Token::Identifier("A9".to_string())));
}

#[test]
fn lex_signs_need_no_white_space() {
    let found = tokens("tick{n:int}");
    assert_eq!(found.len(), 6);
    assert!(is(&found[0].token, Token::Identifier("tick".to_string())));
    assert!(is(&found[1].token, Token::LBrace));
    assert!(is(&found[2].token, Token::Identifier("n".to_string())));
    assert!(is(&found[3].token, Token::Colon));
    assert!(is(&found[4].token, Token::Identifier("int".to_string())));
    assert!(is(&found[5].token, Token::RBrace));
}

#[test]
fn lex_reserved_word_inside_identifier_is_no_keyword() {
    let found = tokens("roles allowed _when");
    assert!(is(&found[0].token, Token::Identifier("roles".to_string())));
    assert!(is(&found[1].token, Token::Identifier("allowed".to_string())));
    assert!(is(&found[2].token, Token::Identifier("_when".to_string())));
}

#[test]
fn lex_unknown_character_gives_its_place() {
    assert_eq!(
        lex("role user;\n"),
        Err(Diagnostic { line: 0, column: 9, expected: Expected::Character })
    );
    assert_eq!(
        lex("role a\nrole b\n  role $c"),
        Err(Diagnostic { line: 2, column: 7, expected: Expected::Character })
    );
}

#[test]
fn lex_digit_or_hyphen_cannot_start_an_identifier() {
    assert_eq!(lex("9a"), Err(Diagnostic { line: 0, column: 0, expected: Expected::Character }));
    assert_eq!(
        lex("role -a"),
        Err(Diagnostic { line: 0, column: 5, expected: Expected::Character })
    );
}

#[test]
fn recognize_reserved_word_knows_the_eight_words() {
    assert!(is(&recognize_reserved_word("allow".to_string()), Token::Allow));
    assert!(is(&recognize_reserved_word("broadcast".to_string()), Token::Broadcast));
    assert!(is(&recognize_reserved_word("listen".to_string()), Token::Listen));
    assert!(is(&recognize_reserved_word("request".to_string()), Token::Request));
    assert!(is(&recognize_reserved_word("response".to_string()), Token::Response));
    assert!(is(&recognize_reserved_word("role".to_string()), Token::Role));
    assert!(is(&recognize_reserved_word("extends".to_string()), Token::Extends));
    assert!(is(&recognize_reserved_word("when".to_string()), Token::When));
    assert!(is(
        &recognize_reserved_word("Allow".to_string()),
        Token::Identifier("Allow".to_string())
    ));
}

#[test]
fn parse_empty_body_is_valid() {
    assert_eq!(parse("").unwrap().len(), 0);
    assert_eq!(parse("\n\n  \t").unwrap().len(), 0);
}

#[test]
fn parse_role_without_extends() {
    let policy = parse("role user").unwrap();
    assert_eq!(policy.len(), 1);
    match &policy[0] {
        Statement::Role(role) => {
            assert_eq!(role.role_name(), "user");
            assert_eq!(role.extends_role(), &None);
        }
        _ => panic!("expected a role statement"),
    }
}

#[test]
fn parse_role_with_extends() {
    let policy = parse("role admin extends user").unwrap();
    match &policy[0] {
        Statement::Role(role) => {
            assert_eq!(role.role_name(), "admin");
            assert_eq!(role.extends_role(), &Some("user".to_string()));
        }
        _ => panic!("expected a role statement"),
    }
}

#[test]
fn parse_schema_with_zero_parameters() {
    let policy = parse("request ping{}").unwrap();
    match &policy[0] {
        Statement::Msg(MessageStmt::Request(stmt)) => {
            assert_eq!(stmt.msg_name, "ping");
            assert_eq!(stmt.msg_params.len(), 0);
        }
        _ => panic!("expected a request schema"),
    }
}

#[test]
fn parse_schema_with_parameters_in_order() {
    let policy = parse("broadcast tick { n : int label:string ok:bool x:float }").unwrap();
    match &policy[0] {
        Statement::Msg(MessageStmt::Broadcast(stmt)) => {
            assert_eq!(stmt.msg_name, "tick");
            let pairs: Vec<(String, String)> = stmt
                .msg_params
                .iter()
                .map(|p| (p.param_name.clone(), p.param_type.clone()))
                .collect();
            assert_eq!(
                pairs,
                vec![
                    ("n".to_string(), "int".to_string()),
                    ("label".to_string(), "string".to_string()),
                    ("ok".to_string(), "bool".to_string()),
                    ("x".to_string(), "float".to_string()),
                ]
            );
        }
        _ => panic!("expected a broadcast schema"),
    }
}

#[test]
fn parse_response_schema() {
    let policy = parse("response ping{ok:bool}").unwrap();
    match &policy[0] {
        Statement::Msg(MessageStmt::Response(stmt)) => {
            assert_eq!(stmt.msg_name, "ping");
            assert_eq!(stmt.msg_params.len(), 1);
        }
        _ => panic!("expected a response schema"),
    }
}

#[test]
fn parse_allow_of_each_kind() {
    let policy = parse(
        "allow u broadcast a allow u listen b allow u request c allow u response d",
    )
    .unwrap();
    let kinds: Vec<MsgType> = policy
        .iter()
        .map(|s| match s {
            Statement::Allow(rule) => rule.msg_type(),
            _ => panic!("expected an allow rule"),
        })
        .collect();
    assert_eq!(
        kinds,
        vec![MsgType::Broadcast, MsgType::Listen, MsgType::Request, MsgType::Response]
    );
}

#[test]
fn parse_allow_with_filter() {
    let policy = parse("allow user broadcast tick when is_owner").unwrap();
    match &policy[0] {
        Statement::Allow(rule) => {
            assert_eq!(rule.role_name(), "user");
            assert_eq!(rule.msg_type(), MsgType::Broadcast);
            assert_eq!(rule.msg_name(), "tick");
            assert_eq!(rule.filter_exp(), &Some("is_owner".to_string()));
        }
        _ => panic!("expected an allow rule"),
    }
}

#[test]
fn parse_allow_without_filter() {
    let policy = parse("allow user listen tick").unwrap();
    match &policy[0] {
        Statement::Allow(rule) => assert_eq!(rule.filter_exp(), &None),
        _ => panic!("expected an allow rule"),
    }
}

#[test]
fn parse_keeps_the_order_of_statements() {
    let policy = parse(
        "role user\nbroadcast tick {n:int}\nallow user broadcast tick\nallow user listen tick\n",
    )
    .unwrap();
    assert_eq!(policy.len(), 4);
    assert!(matches!(policy[0], Statement::Role(_)));
    assert!(matches!(policy[1], Statement::Msg(MessageStmt::Broadcast(_))));
    assert!(matches!(policy[2], Statement::Allow(_)));
    assert!(matches!(policy[3], Statement::Allow(_)));
}

#[test]
fn parse_does_not_look_for_duplicates() {
    let policy = parse("role a role a request p{} request p{x:int}").unwrap();
    assert_eq!(policy.len(), 4);
}

#[test]
fn parse_statement_must_start_with_a_keyword() {
    assert_eq!(
        parse("user role").unwrap_err(),
        Diagnostic { line: 0, column: 0, expected: Expected::Statement }
    );
    assert_eq!(
        parse("role a\n  { }").unwrap_err(),
        Diagnostic { line: 1, column: 2, expected: Expected::Statement }
    );
    assert_eq!(
        parse("role a listen").unwrap_err(),
        Diagnostic { line: 0, column: 7, expected: Expected::Statement }
    );
}

#[test]
fn parse_truncated_constructs_are_reported_at_the_end() {
    assert_eq!(
        parse("role").unwrap_err(),
        Diagnostic { line: 0, column: 4, expected: Expected::RoleName }
    );
    assert_eq!(
        parse("role a extends").unwrap_err(),
        Diagnostic { line: 0, column: 14, expected: Expected::RoleName }
    );
    assert_eq!(
        parse("request ping").unwrap_err(),
        Diagnostic { line: 0, column: 12, expected: Expected::LBrace }
    );
    assert_eq!(
        parse("request ping {\n a: int").unwrap_err(),
        Diagnostic { line: 1, column: 7, expected: Expected::ParameterName }
    );
    assert_eq!(
        parse("allow u").unwrap_err(),
        Diagnostic { line: 0, column: 7, expected: Expected::MessageType }
    );
    assert_eq!(
        parse("allow u request").unwrap_err(),
        Diagnostic { line: 0, column: 15, expected: Expected::MessageName }
    );
    assert_eq!(
        parse("allow u request p when").unwrap_err(),
        Diagnostic { line: 0, column: 22, expected: Expected::FilterExpression }
    );
}

#[test]
fn parse_unexpected_tokens_give_what_was_expected() {
    assert_eq!(
        parse("role role").unwrap_err(),
        Diagnostic { line: 0, column: 5, expected: Expected::RoleName }
    );
    assert_eq!(
        parse("broadcast {").unwrap_err(),
        Diagnostic { line: 0, column: 10, expected: Expected::MessageName }
    );
    assert_eq!(
        parse("broadcast tick n").unwrap_err(),
        Diagnostic { line: 0, column: 15, expected: Expected::LBrace }
    );
    assert_eq!(
        parse("broadcast tick {n int}").unwrap_err(),
        Diagnostic { line: 0, column: 18, expected: Expected::Colon }
    );
    assert_eq!(
        parse("broadcast tick {n:}").unwrap_err(),
        Diagnostic { line: 0, column: 18, expected: Expected::ParameterType }
    );
    assert_eq!(
        parse("broadcast tick {:int}").unwrap_err(),
        Diagnostic { line: 0, column: 16, expected: Expected::ParameterName }
    );
    assert_eq!(
        parse("allow u tick").unwrap_err(),
        Diagnostic { line: 0, column: 8, expected: Expected::MessageType }
    );
    assert_eq!(
        parse("allow u extends tick").unwrap_err(),
        Diagnostic { line: 0, column: 8, expected: Expected::MessageType }
    );
}

#[test]
fn parse_unknown_character_comes_before_unexpected_token() {
    assert_eq!(
        parse("user role\n#").unwrap_err(),
        Diagnostic { line: 1, column: 0, expected: Expected::Character }
    );
}

#[test]
fn parse_body_compiles_the_text() {
    assert_eq!(parse_body("role a role b").unwrap().len(), 2);
    assert_eq!(parse_body("").unwrap().len(), 0);
    assert_eq!(parse_body("role a\nallow a listen t"), parse("role a\nallow a listen t"));
    assert_eq!(
        parse_body("role a extends {").unwrap_err(),
        Diagnostic { line: 0, column: 15, expected: Expected::RoleName }
    );
    assert_eq!(
        parse_body("role a\nallow").unwrap_err(),
        Diagnostic { line: 1, column: 5, expected: Expected::RoleName }
    );
    assert_eq!(
        parse_body("role a ;").unwrap_err(),
        Diagnostic { line: 0, column: 7, expected: Expected::Character }
    );
}

#[test]
fn parser_gives_the_index_of_the_token() {
    assert_eq!(
        Parser::new(tokens("role a extends {")).parse().unwrap_err(),
        SyntaxError { at: 3, expected: Expected::RoleName }
    );
    assert_eq!(
        Parser::new(tokens("role a allow")).parse().unwrap_err(),
        SyntaxError { at: 3, expected: Expected::RoleName }
    );
}

#[test]
fn parser_steps_through_the_tokens() {
    let mut parser = Parser::new(tokens("role a extends b allow a listen t"));
    assert_eq!(parser.index, 0);
    let first = parser.parse_statement().unwrap();
    assert!(matches!(first, Statement::Role(_)));
    assert_eq!(parser.index, 4);
    assert!(!parser.maybe_expect(Token::Role));
    assert_eq!(parser.index, 4);
    assert!(parser.maybe_expect(Token::Allow));
    assert_eq!(parser.index, 5);
    assert_eq!(parser.parse_role_name().unwrap(), "a");
    assert_eq!(parser.parse_msg_type().unwrap(), MsgType::Listen);
    assert_eq!(
        parser.expect(Token::Colon, Expected::Colon),
        Err(SyntaxError { at: 7, expected: Expected::Colon })
    );
    assert_eq!(parser.parse_msg_name().unwrap(), "t");
    assert_eq!(parser.index, 8);
    assert_eq!(
        parser.parse_filter_exp(),
        Err(SyntaxError { at: 8, expected: Expected::FilterExpression })
    );
    assert_eq!(parser.parse().unwrap().len(), 0);
}

#[test]
fn parse_gives_the_statements_themselves() {
    let policy = parse("role b extends a allow b request p when f request p {x:int}").unwrap();
    assert_eq!(
        policy,
        vec![
            Statement::Role(RoleStmt::Role {
                role_name: "b".to_string(),
                extends_role: Some("a".to_string()),
            }),
            Statement::Allow(AllowStmt::Allow {
                role_name: "b".to_string(),
                msg_type: MsgType::Request,
                msg_name: "p".to_string(),
                filter_exp: Some("f".to_string()),
            }),
            Statement::Msg(MessageStmt::Request(policy_broker::policy::RequestStmt {
                msg_name: "p".to_string(),
                msg_params: vec![MessageParams {
                    param_name: "x".to_string(),
                    param_type: "int".to_string(),
                }],
            })),
        ]
    );
    assert_eq!(policy[0].clone(), policy[0]);
    assert_eq!(policy[1].clone(), policy[1]);
    assert_eq!(policy[2].clone(), policy[2]);
}
