//! The parser of the policy language: recursive descent over the tokens.
//!
//! ```text
//! body        := statement*
//! statement   := role_stmt | msg_stmt | allow_stmt
//! role_stmt   := 'role' IDENT ('extends' IDENT)?
//! msg_stmt    := ('broadcast'|'request'|'response') IDENT '{' param* '}'
//! param       := IDENT ':' IDENT
//! allow_stmt  := 'allow' IDENT msg_kind IDENT ('when' IDENT)?
//! msg_kind    := 'broadcast' | 'listen' | 'request' | 'response'
//! ```

use vstd::prelude::*;
use crate::lexer::{
    lemma_lexeme_offsets, lex, lexemes_view, locate, Diagnostic, Expected, Lexeme, LexemeView, Token,
    TokenView,
};
use crate::text::chars_of;
use crate::policy::{
    compile, params_view, policy_view, AllowStmt, AllowStmtView, BroadcastStmt, MessageParams, MessageParamsView,
    MessageStmt, MessageStmtView, MsgType, RequestStmt, ResponseStmt, RoleStmt, RoleStmtView, SchemaView,
    Statement, StatementView,
};

verus! {

/// Where the parser gave up: the index of the token at which it did, which
/// is the number of tokens if they ran out, and what it expected there.
#[derive(Debug, Clone, Copy, PartialEq, Eq, Structural)]
pub struct SyntaxError {
    pub at: usize,
    pub expected: Expected,
}

/// The tokens of a list of lexemes, in order.
pub open spec fn tokens_of(lexemes: Seq<LexemeView>) -> Seq<TokenView> {
    lexemes.map_values(|l: LexemeView| l.token)
}

/// The error at token `at`.
pub open spec fn error_at(at: int, expected: Expected) -> SyntaxError {
    SyntaxError { at: at as usize, expected }
}

/// Whether the token at index `at` is `token`.
pub open spec fn token_is(tokens: Seq<TokenView>, at: int, token: TokenView) -> bool {
    0 <= at < tokens.len() && tokens[at] == token
}

/// The identifier at index `at` and the index behind it.
pub open spec fn identifier_at(tokens: Seq<TokenView>, at: int, expected: Expected) -> Result<
    (Seq<char>, int),
    SyntaxError,
> {
    if 0 <= at < tokens.len() && tokens[at] is Identifier {
        Ok((tokens[at]->Identifier_0, at + 1))
    } else {
        Err(error_at(at, expected))
    }
}

/// The role statement whose `role` stands at index `at`, and the index
/// behind it.
pub open spec fn role_stmt_at(tokens: Seq<TokenView>, at: int) -> Result<
    (RoleStmtView, int),
    SyntaxError,
> {
    match identifier_at(tokens, at + 1, Expected::RoleName) {
        Err(error) => Err(error),
        Ok((role_name, next)) => if token_is(tokens, next, TokenView::Extends) {
            match identifier_at(tokens, next + 1, Expected::RoleName) {
                Err(error) => Err(error),
                Ok((parent, end)) => Ok(
                    (RoleStmtView { role_name, extends_role: Some(parent) }, end),
                ),
            }
        } else {
            Ok((RoleStmtView { role_name, extends_role: None }, next))
        },
    }
}

/// The parameter at index `at`, and the index behind it.
pub open spec fn msg_param_at(tokens: Seq<TokenView>, at: int) -> Result<
    (MessageParamsView, int),
    SyntaxError,
> {
    match identifier_at(tokens, at, Expected::ParameterName) {
        Err(error) => Err(error),
        Ok((param_name, colon)) => if token_is(tokens, colon, TokenView::Colon) {
            match identifier_at(tokens, colon + 1, Expected::ParameterType) {
                Err(error) => Err(error),
                Ok((param_type, end)) => Ok((MessageParamsView { param_name, param_type }, end)),
            }
        } else {
            Err(error_at(colon, Expected::Colon))
        },
    }
}

/// The parameters from index `at` up to the closing brace, and the index
/// behind the brace.
pub open spec fn msg_params_from(tokens: Seq<TokenView>, at: int) -> Result<
    (Seq<MessageParamsView>, int),
    SyntaxError,
>
    decreases tokens.len() - at,
{
    if token_is(tokens, at, TokenView::RBrace) {
        Ok((Seq::empty(), at + 1))
    } else {
        match msg_param_at(tokens, at) {
            Err(error) => Err(error),
            Ok((param, next)) => match msg_params_from(tokens, next) {
                Err(error) => Err(error),
                Ok((rest, end)) => Ok((seq![param] + rest, end)),
            },
        }
    }
}

/// The parameters in braces whose opening brace is expected at index `at`,
/// and the index behind the closing brace.
pub open spec fn msg_params_at(tokens: Seq<TokenView>, at: int) -> Result<
    (Seq<MessageParamsView>, int),
    SyntaxError,
> {
    if token_is(tokens, at, TokenView::LBrace) {
        msg_params_from(tokens, at + 1)
    } else {
        Err(error_at(at, Expected::LBrace))
    }
}

/// The schema whose kind stands at index `at`: a name and parameters in
/// braces.
pub open spec fn schema_at(tokens: Seq<TokenView>, at: int) -> Result<(SchemaView, int), SyntaxError> {
    match identifier_at(tokens, at + 1, Expected::MessageName) {
        Err(error) => Err(error),
        Ok((msg_name, brace)) => match msg_params_at(tokens, brace) {
            Err(error) => Err(error),
            Ok((msg_params, end)) => Ok((SchemaView { msg_name, msg_params }, end)),
        },
    }
}

/// The message statement whose kind stands at index `at`.
pub open spec fn msg_stmt_at(tokens: Seq<TokenView>, at: int) -> Result<
    (MessageStmtView, int),
    SyntaxError,
> {
    match schema_at(tokens, at) {
        Err(error) => Err(error),
        Ok((schema, end)) => if token_is(tokens, at, TokenView::Broadcast) {
            Ok((MessageStmtView::Broadcast(schema), end))
        } else if token_is(tokens, at, TokenView::Request) {
            Ok((MessageStmtView::Request(schema), end))
        } else {
            Ok((MessageStmtView::Response(schema), end))
        },
    }
}

/// The kind of message at index `at`.
pub open spec fn msg_type_at(tokens: Seq<TokenView>, at: int) -> Result<(MsgType, int), SyntaxError> {
    if token_is(tokens, at, TokenView::Broadcast) {
        Ok((MsgType::Broadcast, at + 1))
    } else if token_is(tokens, at, TokenView::Listen) {
        Ok((MsgType::Listen, at + 1))
    } else if token_is(tokens, at, TokenView::Request) {
        Ok((MsgType::Request, at + 1))
    } else if token_is(tokens, at, TokenView::Response) {
        Ok((MsgType::Response, at + 1))
    } else {
        Err(error_at(at, Expected::MessageType))
    }
}

/// The allow rule whose `allow` stands at index `at`.
pub open spec fn allow_stmt_at(tokens: Seq<TokenView>, at: int) -> Result<
    (AllowStmtView, int),
    SyntaxError,
> {
    match identifier_at(tokens, at + 1, Expected::RoleName) {
        Err(error) => Err(error),
        Ok((role_name, kind_at)) => match msg_type_at(tokens, kind_at) {
            Err(error) => Err(error),
            Ok((msg_type, name_at)) => match identifier_at(
                tokens,
                name_at,
                Expected::MessageName,
            ) {
                Err(error) => Err(error),
                Ok((msg_name, next)) => if token_is(tokens, next, TokenView::When) {
                    match identifier_at(tokens, next + 1, Expected::FilterExpression) {
                        Err(error) => Err(error),
                        Ok((filter, end)) => Ok(
                            (
                                AllowStmtView {
                                    role_name,
                                    msg_type,
                                    msg_name,
                                    filter_exp: Some(filter),
                                },
                                end,
                            ),
                        ),
                    }
                } else {
                    Ok((AllowStmtView { role_name, msg_type, msg_name, filter_exp: None }, next))
                },
            },
        },
    }
}

/// Whether the token starts a message statement.
pub open spec fn starts_msg_stmt(token: TokenView) -> bool {
    token is Broadcast || token is Request || token is Response
}

/// The statement at index `at`, chosen by its first token, and the index
/// behind it.
pub open spec fn statement_at(tokens: Seq<TokenView>, at: int) -> Result<
    (StatementView, int),
    SyntaxError,
> {
    if token_is(tokens, at, TokenView::Allow) {
        match allow_stmt_at(tokens, at) {
            Err(error) => Err(error),
            Ok((stmt, end)) => Ok((StatementView::Allow(stmt), end)),
        }
    } else if 0 <= at < tokens.len() && starts_msg_stmt(tokens[at]) {
        match msg_stmt_at(tokens, at) {
            Err(error) => Err(error),
            Ok((stmt, end)) => Ok((StatementView::Msg(stmt), end)),
        }
    } else if token_is(tokens, at, TokenView::Role) {
        match role_stmt_at(tokens, at) {
            Err(error) => Err(error),
            Ok((stmt, end)) => Ok((StatementView::Role(stmt), end)),
        }
    } else {
        Err(error_at(at, Expected::Statement))
    }
}

/// A list of parameters ends behind its start, within the tokens.
pub proof fn lemma_msg_params_advance(tokens: Seq<TokenView>, at: int)
    requires
        0 <= at,
        msg_params_from(tokens, at) is Ok,
    ensures
        at < msg_params_from(tokens, at)->Ok_0.1 <= tokens.len(),
    decreases tokens.len() - at,
{
    if !token_is(tokens, at, TokenView::RBrace) {
        lemma_msg_params_advance(tokens, msg_param_at(tokens, at)->Ok_0.1);
    }
}

/// A statement ends behind its start, within the tokens.
pub proof fn lemma_statement_advances(tokens: Seq<TokenView>, at: int)
    requires
        0 <= at,
        statement_at(tokens, at) is Ok,
    ensures
        at < statement_at(tokens, at)->Ok_0.1 <= tokens.len(),
{
    if 0 <= at < tokens.len() && starts_msg_stmt(tokens[at]) && !token_is(
        tokens,
        at,
        TokenView::Allow,
    ) {
        lemma_msg_params_advance(tokens, at + 3);
    }
}

/// The statements from index `at` to the end of the tokens.
pub open spec fn statements_from(tokens: Seq<TokenView>, at: int) -> Result<
    Seq<StatementView>,
    SyntaxError,
>
    decreases tokens.len() - at,
{
    if at < 0 || at >= tokens.len() {
        Ok(Seq::empty())
    } else {
        match statement_at(tokens, at) {
            Err(error) => Err(error),
            Ok((stmt, next)) => {
                proof {
                    lemma_statement_advances(tokens, at);
                }
                match statements_from(tokens, next) {
                    Err(error) => Err(error),
                    Ok(rest) => Ok(seq![stmt] + rest),
                }
            },
        }
    }
}

/// The body that the tokens spell: all their statements.
pub open spec fn body_of(tokens: Seq<TokenView>) -> Result<Seq<StatementView>, SyntaxError> {
    statements_from(tokens, 0)
}

/// Whether two tokens are the same: the same word or sign, or identifiers
/// with the same text.
pub fn same_token(a: &Token, b: &Token) -> (r: bool)
    ensures
        r == (a@ == b@),
{
    match (a, b) {
        (Token::Allow, Token::Allow) => true,
        (Token::Broadcast, Token::Broadcast) => true,
        (Token::Listen, Token::Listen) => true,
        (Token::Request, Token::Request) => true,
        (Token::Response, Token::Response) => true,
        (Token::Role, Token::Role) => true,
        (Token::Extends, Token::Extends) => true,
        (Token::When, Token::When) => true,
        (Token::LBrace, Token::LBrace) => true,
        (Token::RBrace, Token::RBrace) => true,
        (Token::Colon, Token::Colon) => true,
        (Token::Identifier(x), Token::Identifier(y)) => *x == *y,
        _ => false,
    }
}

/// The views of a list of parameters with one more in front.
proof fn lemma_params_view_push(params: Seq<MessageParams>, param: MessageParams)
    ensures
        params_view(params.push(param)) == params_view(params).push(param@),
{
    assert(params_view(params.push(param)) =~= params_view(params).push(param@));
}

/// The views of a list of statements with one more at the end.
proof fn lemma_policy_view_push(policy: Seq<Statement>, stmt: Statement)
    ensures
        policy_view(policy.push(stmt)) == policy_view(policy).push(stmt@),
{
    assert(policy_view(policy.push(stmt)) =~= policy_view(policy).push(stmt@));
}

/// The state of a parse: the tokens and the index of the next one.
pub struct Parser {
    pub tokens: Vec<Lexeme>,
    pub index: usize,
}

impl Parser {
    /// The tokens that the parser reads.
    pub open spec fn token_views(&self) -> Seq<TokenView> {
        self.tokens@.map_values(|l: Lexeme| l.token@)
    }

    /// The index is within the tokens or just behind them.
    pub open spec fn well_formed(&self) -> bool {
        self.index <= self.tokens@.len() <= usize::MAX
    }

    /// A parser at the first of the tokens.
    pub fn new(tokens: Vec<Lexeme>) -> (r: Parser)
        ensures
            r.tokens == tokens,
            r.index == 0,
            r.well_formed(),
    {
        let _ = tokens.len();
        Parser { tokens, index: 0 }
    }

    /// Parses statements up to the end of the tokens.
    pub fn parse(&mut self) -> (r: Result<Vec<Statement>, SyntaxError>)
        requires
            old(self).well_formed(),
        ensures
            final(self).tokens == old(self).tokens,
            final(self).well_formed(),
            match statements_from(old(self).token_views(), old(self).index as int) {
                Ok(statements) => r is Ok && policy_view(r->Ok_0@) == statements,
                Err(error) => r == Err::<Vec<Statement>, SyntaxError>(error),
            },
    {
        let ghost tokens = self.token_views();
        let ghost start = self.index as int;
        assert(tokens.len() == self.tokens@.len());
        let mut statements: Vec<Statement> = Vec::new();
        assert(policy_view(statements@) =~= Seq::<StatementView>::empty());
        assert(statements_from(tokens, start) == prepend_statements(
            policy_view(statements@),
            statements_from(tokens, start),
        )) by {
            if statements_from(tokens, start) is Ok {
                assert(Seq::<StatementView>::empty() + statements_from(tokens, start)->Ok_0
                    =~= statements_from(tokens, start)->Ok_0);
            }
        }
        while self.index < self.tokens.len()
            invariant
                self.tokens == old(self).tokens,
                self.well_formed(),
                tokens == self.token_views(),
                tokens.len() == self.tokens@.len(),
                start == old(self).index,
                statements_from(tokens, start) == prepend_statements(
                    policy_view(statements@),
                    statements_from(tokens, self.index as int),
                ),
            decreases self.tokens@.len() - self.index,
        {
            let ghost at = self.index as int;
            let ghost before = policy_view(statements@);
            match self.parse_statement() {
                Err(error) => {
                    return Err(error);
                },
                Ok(statement) => {
                    proof {
                        lemma_statement_advances(tokens, at);
                        lemma_policy_view_push(statements@, statement);
                        let rest = statements_from(tokens, self.index as int);
                        if rest is Ok {
                            assert(before + (seq![statement@] + rest->Ok_0) =~= before.push(
                                statement@,
                            ) + rest->Ok_0);
                        }
                    }
                    statements.push(statement);
                },
            }
        }
        proof {
            assert(policy_view(statements@) + Seq::<StatementView>::empty() =~= policy_view(
                statements@,
            ));
        }
        Ok(statements)
    }

    /// Parses one statement, chosen by the token at the index.
    pub fn parse_statement(&mut self) -> (r: Result<Statement, SyntaxError>)
        requires
            old(self).well_formed(),
        ensures
            final(self).tokens == old(self).tokens,
            final(self).well_formed(),
            match statement_at(old(self).token_views(), old(self).index as int) {
                Ok((statement, end)) => r is Ok && r->Ok_0@ == statement && final(self).index
                    == end,
                Err(error) => r == Err::<Statement, SyntaxError>(error),
            },
    {
        if self.index >= self.tokens.len() {
            return Err(SyntaxError { at: self.index, expected: Expected::Statement });
        }
        match &self.tokens[self.index].token {
            Token::Allow => match self.parse_allow_stmt() {
                Ok(stmt) => Ok(Statement::Allow(stmt)),
                Err(error) => Err(error),
            },
            Token::Broadcast | Token::Request | Token::Response => match self.parse_msg_stmt() {
                Ok(stmt) => Ok(Statement::Msg(stmt)),
                Err(error) => Err(error),
            },
            Token::Role => match self.parse_role_stmt() {
                Ok(stmt) => Ok(Statement::Role(stmt)),
                Err(error) => Err(error),
            },
            _ => Err(SyntaxError { at: self.index, expected: Expected::Statement }),
        }
    }

    /// Parses a role statement; the token at the index is `role`.
    pub fn parse_role_stmt(&mut self) -> (r: Result<RoleStmt, SyntaxError>)
        requires
            old(self).well_formed(),
            token_is(old(self).token_views(), old(self).index as int, TokenView::Role),
        ensures
            final(self).tokens == old(self).tokens,
            final(self).well_formed(),
            match role_stmt_at(old(self).token_views(), old(self).index as int) {
                Ok((stmt, end)) => r is Ok && r->Ok_0@ == stmt && final(self).index == end,
                Err(error) => r == Err::<RoleStmt, SyntaxError>(error),
            },
    {
        assert(self.token_views().len() == self.tokens@.len());
        self.index += 1;
        let role_name = match self.parse_role_name() {
            Ok(name) => name,
            Err(error) => {
                return Err(error);
            },
        };
        let extends_role = if self.maybe_expect(Token::Extends) {
            match self.parse_role_name() {
                Ok(name) => Some(name),
                Err(error) => {
                    return Err(error);
                },
            }
        } else {
            None
        };
        Ok(RoleStmt::Role { role_name, extends_role })
    }

    /// Parses a message statement; the token at the index is `broadcast`,
    /// `request` or `response`.
    pub fn parse_msg_stmt(&mut self) -> (r: Result<MessageStmt, SyntaxError>)
        requires
            old(self).well_formed(),
            old(self).index < old(self).tokens@.len(),
            starts_msg_stmt(old(self).token_views()[old(self).index as int]),
        ensures
            final(self).tokens == old(self).tokens,
            final(self).well_formed(),
            match msg_stmt_at(old(self).token_views(), old(self).index as int) {
                Ok((stmt, end)) => r is Ok && r->Ok_0@ == stmt && final(self).index == end,
                Err(error) => r == Err::<MessageStmt, SyntaxError>(error),
            },
    {
        match &self.tokens[self.index].token {
            Token::Broadcast => match self.parse_broadcast_stmt() {
                Ok(stmt) => Ok(MessageStmt::Broadcast(stmt)),
                Err(error) => Err(error),
            },
            Token::Request => match self.parse_request_stmt() {
                Ok(stmt) => Ok(MessageStmt::Request(stmt)),
                Err(error) => Err(error),
            },
            _ => match self.parse_response_stmt() {
                Ok(stmt) => Ok(MessageStmt::Response(stmt)),
                Err(error) => Err(error),
            },
        }
    }

    /// Parses the name and the parameters of a schema; the token at the
    /// index is its kind.
    fn parse_schema(&mut self) -> (r: Result<(String, Vec<MessageParams>), SyntaxError>)
        requires
            old(self).well_formed(),
            old(self).index < old(self).tokens@.len(),
        ensures
            final(self).tokens == old(self).tokens,
            final(self).well_formed(),
            match schema_at(old(self).token_views(), old(self).index as int) {
                Ok((schema, end)) => r is Ok && r->Ok_0.0@ == schema.msg_name && params_view(
                    r->Ok_0.1@,
                ) == schema.msg_params && final(self).index == end,
                Err(error) => r == Err::<(String, Vec<MessageParams>), SyntaxError>(error),
            },
    {
        assert(self.token_views().len() == self.tokens@.len());
        self.index += 1;
        let msg_name = match self.parse_msg_name() {
            Ok(name) => name,
            Err(error) => {
                return Err(error);
            },
        };
        match self.parse_msg_params() {
            Ok(msg_params) => Ok((msg_name, msg_params)),
            Err(error) => Err(error),
        }
    }

    /// Parses a broadcast schema; the token at the index is `broadcast`.
    pub fn parse_broadcast_stmt(&mut self) -> (r: Result<BroadcastStmt, SyntaxError>)
        requires
            old(self).well_formed(),
            token_is(old(self).token_views(), old(self).index as int, TokenView::Broadcast),
        ensures
            final(self).tokens == old(self).tokens,
            final(self).well_formed(),
            match schema_at(old(self).token_views(), old(self).index as int) {
                Ok((schema, end)) => r is Ok && r->Ok_0@ == schema && final(self).index == end,
                Err(error) => r == Err::<BroadcastStmt, SyntaxError>(error),
            },
    {
        match self.parse_schema() {
            Ok((msg_name, msg_params)) => Ok(BroadcastStmt { msg_name, msg_params }),
            Err(error) => Err(error),
        }
    }

    /// Parses a request schema; the token at the index is `request`.
    pub fn parse_request_stmt(&mut self) -> (r: Result<RequestStmt, SyntaxError>)
        requires
            old(self).well_formed(),
            token_is(old(self).token_views(), old(self).index as int, TokenView::Request),
        ensures
            final(self).tokens == old(self).tokens,
            final(self).well_formed(),
            match schema_at(old(self).token_views(), old(self).index as int) {
                Ok((schema, end)) => r is Ok && r->Ok_0@ == schema && final(self).index == end,
                Err(error) => r == Err::<RequestStmt, SyntaxError>(error),
            },
    {
        match self.parse_schema() {
            Ok((msg_name, msg_params)) => Ok(RequestStmt { msg_name, msg_params }),
            Err(error) => Err(error),
        }
    }

    /// Parses a response schema; the token at the index is `response`.
    pub fn parse_response_stmt(&mut self) -> (r: Result<ResponseStmt, SyntaxError>)
        requires
            old(self).well_formed(),
            token_is(old(self).token_views(), old(self).index as int, TokenView::Response),
        ensures
            final(self).tokens == old(self).tokens,
            final(self).well_formed(),
            match schema_at(old(self).token_views(), old(self).index as int) {
                Ok((schema, end)) => r is Ok && r->Ok_0@ == schema && final(self).index == end,
                Err(error) => r == Err::<ResponseStmt, SyntaxError>(error),
            },
    {
        match self.parse_schema() {
            Ok((msg_name, msg_params)) => Ok(ResponseStmt { msg_name, msg_params }),
            Err(error) => Err(error),
        }
    }

    /// Parses parameters in braces.
    pub fn parse_msg_params(&mut self) -> (r: Result<Vec<MessageParams>, SyntaxError>)
        requires
            old(self).well_formed(),
        ensures
            final(self).tokens == old(self).tokens,
            final(self).well_formed(),
            match msg_params_at(old(self).token_views(), old(self).index as int) {
                Ok((params, end)) => r is Ok && params_view(r->Ok_0@) == params && final(self).index == end,
                Err(error) => r == Err::<Vec<MessageParams>, SyntaxError>(error),
            },
    {
        let ghost tokens = self.token_views();
        assert(tokens.len() == self.tokens@.len());
        match self.expect(Token::LBrace, Expected::LBrace) {
            Ok(()) => {},
            Err(error) => {
                return Err(error);
            },
        }
        let ghost start = self.index as int;
        let mut msg_params: Vec<MessageParams> = Vec::new();
        assert(params_view(msg_params@) =~= Seq::<MessageParamsView>::empty());
        assert(msg_params_from(tokens, start) == prepend_params(
            params_view(msg_params@),
            msg_params_from(tokens, start),
        )) by {
            if msg_params_from(tokens, start) is Ok {
                assert(Seq::<MessageParamsView>::empty() + msg_params_from(tokens, start)->Ok_0.0
                    =~= msg_params_from(tokens, start)->Ok_0.0);
            }
        }
        loop
            invariant_except_break
                msg_params_from(tokens, start) == prepend_params(
                    params_view(msg_params@),
                    msg_params_from(tokens, self.index as int),
                ),
            invariant
                self.tokens == old(self).tokens,
                self.well_formed(),
                tokens == self.token_views(),
                tokens.len() == self.tokens@.len(),
                msg_params_at(tokens, old(self).index as int) == msg_params_from(tokens, start),
            ensures
                msg_params_from(tokens, start) == Ok::<(Seq<MessageParamsView>, int), SyntaxError>(
                    (params_view(msg_params@), self.index as int),
                ),
            decreases self.tokens@.len() - self.index,
        {
            if self.maybe_expect(Token::RBrace) {
                proof {
                    assert(params_view(msg_params@) + Seq::<MessageParamsView>::empty() =~= params_view(
                        msg_params@,
                    ));
                }
                break;
            }
            let ghost before = params_view(msg_params@);
            match self.parse_msg_param() {
                Err(error) => {
                    return Err(error);
                },
                Ok(param) => {
                    proof {
                        lemma_params_view_push(msg_params@, param);
                        let rest = msg_params_from(tokens, self.index as int);
                        if rest is Ok {
                            assert(before + (seq![param@] + rest->Ok_0.0) =~= before.push(param@)
                                + rest->Ok_0.0);
                        }
                    }
                    msg_params.push(param);
                },
            }
        }
        Ok(msg_params)
    }

    /// Parses one parameter: a name, a colon and a type.
    pub fn parse_msg_param(&mut self) -> (r: Result<MessageParams, SyntaxError>)
        requires
            old(self).well_formed(),
        ensures
            final(self).tokens == old(self).tokens,
            final(self).well_formed(),
            match msg_param_at(old(self).token_views(), old(self).index as int) {
                Ok((param, end)) => r is Ok && r->Ok_0@ == param && final(self).index == end,
                Err(error) => r == Err::<MessageParams, SyntaxError>(error),
            },
    {
        let param_name = match self.parse_param_name() {
            Ok(name) => name,
            Err(error) => {
                return Err(error);
            },
        };
        match self.expect(Token::Colon, Expected::Colon) {
            Ok(()) => {},
            Err(error) => {
                return Err(error);
            },
        }
        match self.parse_param_type() {
            Ok(param_type) => Ok(MessageParams { param_name, param_type }),
            Err(error) => Err(error),
        }
    }

    /// Parses the name of a parameter.
    pub fn parse_param_name(&mut self) -> (r: Result<String, SyntaxError>)
        requires
            old(self).well_formed(),
        ensures
            final(self).tokens == old(self).tokens,
            final(self).well_formed(),
            match identifier_at(
                old(self).token_views(),
                old(self).index as int,
                Expected::ParameterName,
            ) {
                Ok((name, end)) => r is Ok && r->Ok_0@ == name && final(self).index == end,
                Err(error) => r == Err::<String, SyntaxError>(error),
            },
    {
        self.parse_identifier(Expected::ParameterName)
    }

    /// Parses the type of a parameter.
    pub fn parse_param_type(&mut self) -> (r: Result<String, SyntaxError>)
        requires
            old(self).well_formed(),
        ensures
            final(self).tokens == old(self).tokens,
            final(self).well_formed(),
            match identifier_at(
                old(self).token_views(),
                old(self).index as int,
                Expected::ParameterType,
            ) {
                Ok((name, end)) => r is Ok && r->Ok_0@ == name && final(self).index == end,
                Err(error) => r == Err::<String, SyntaxError>(error),
            },
    {
        self.parse_identifier(Expected::ParameterType)
    }

    /// Parses an allow rule; the token at the index is `allow`.
    pub fn parse_allow_stmt(&mut self) -> (r: Result<AllowStmt, SyntaxError>)
        requires
            old(self).well_formed(),
            token_is(old(self).token_views(), old(self).index as int, TokenView::Allow),
        ensures
            final(self).tokens == old(self).tokens,
            final(self).well_formed(),
            match allow_stmt_at(old(self).token_views(), old(self).index as int) {
                Ok((stmt, end)) => r is Ok && r->Ok_0@ == stmt && final(self).index == end,
                Err(error) => r == Err::<AllowStmt, SyntaxError>(error),
            },
    {
        assert(self.token_views().len() == self.tokens@.len());
        self.index += 1;
        let role_name = match self.parse_role_name() {
            Ok(name) => name,
            Err(error) => {
                return Err(error);
            },
        };
        let msg_type = match self.parse_msg_type() {
            Ok(kind) => kind,
            Err(error) => {
                return Err(error);
            },
        };
        let msg_name = match self.parse_msg_name() {
            Ok(name) => name,
            Err(error) => {
                return Err(error);
            },
        };
        let filter_exp = if self.maybe_expect(Token::When) {
            match self.parse_filter_exp() {
                Ok(filter) => Some(filter),
                Err(error) => {
                    return Err(error);
                },
            }
        } else {
            None
        };
        Ok(AllowStmt::Allow { role_name, msg_type, msg_name, filter_exp })
    }

    /// Steps over the token at the index if it is `expected`, and fails
    /// otherwise, saying that `what` was expected.
    pub fn expect(&mut self, expected: Token, what: Expected) -> (r: Result<(), SyntaxError>)
        requires
            old(self).well_formed(),
        ensures
            final(self).tokens == old(self).tokens,
            final(self).well_formed(),
            if token_is(old(self).token_views(), old(self).index as int, expected@) {
                r is Ok && final(self).index == old(self).index + 1
            } else {
                r == Err::<(), SyntaxError>(error_at(old(self).index as int, what))
                    && final(self).index == old(self).index
            },
    {
        if self.index >= self.tokens.len() || !same_token(
            &self.tokens[self.index].token,
            &expected,
        ) {
            return Err(SyntaxError { at: self.index, expected: what });
        }
        self.index += 1;
        Ok(())
    }

    /// Steps over the token at the index if it is `expected`, and says
    /// whether it did.
    pub fn maybe_expect(&mut self, expected: Token) -> (r: bool)
        requires
            old(self).well_formed(),
        ensures
            final(self).tokens == old(self).tokens,
            final(self).well_formed(),
            r == token_is(old(self).token_views(), old(self).index as int, expected@),
            final(self).index == if r {
                old(self).index + 1
            } else {
                old(self).index as int
            },
    {
        if self.index < self.tokens.len() && same_token(&self.tokens[self.index].token, &expected) {
            self.index += 1;
            true
        } else {
            false
        }
    }

    /// Steps over the identifier at the index and hands out its text, or
    /// fails, saying that `what` was expected.
    pub fn parse_identifier(&mut self, what: Expected) -> (r: Result<String, SyntaxError>)
        requires
            old(self).well_formed(),
        ensures
            final(self).tokens == old(self).tokens,
            final(self).well_formed(),
            match identifier_at(old(self).token_views(), old(self).index as int, what) {
                Ok((name, end)) => r is Ok && r->Ok_0@ == name && final(self).index == end,
                Err(error) => r == Err::<String, SyntaxError>(error),
            },
    {
        if self.index < self.tokens.len() {
            if let Token::Identifier(name) = &self.tokens[self.index].token {
                let text = name.clone();
                self.index += 1;
                return Ok(text);
            }
        }
        Err(SyntaxError { at: self.index, expected: what })
    }

    /// Parses the name of a role.
    pub fn parse_role_name(&mut self) -> (r: Result<String, SyntaxError>)
        requires
            old(self).well_formed(),
        ensures
            final(self).tokens == old(self).tokens,
            final(self).well_formed(),
            match identifier_at(old(self).token_views(), old(self).index as int, Expected::RoleName) {
                Ok((name, end)) => r is Ok && r->Ok_0@ == name && final(self).index == end,
                Err(error) => r == Err::<String, SyntaxError>(error),
            },
    {
        self.parse_identifier(Expected::RoleName)
    }

    /// Parses the kind of message of an allow rule.
    pub fn parse_msg_type(&mut self) -> (r: Result<MsgType, SyntaxError>)
        requires
            old(self).well_formed(),
        ensures
            final(self).tokens == old(self).tokens,
            final(self).well_formed(),
            match msg_type_at(old(self).token_views(), old(self).index as int) {
                Ok((kind, end)) => r == Ok::<MsgType, SyntaxError>(kind) && final(self).index
                    == end,
                Err(error) => r == Err::<MsgType, SyntaxError>(error),
            },
    {
        if self.index >= self.tokens.len() {
            return Err(SyntaxError { at: self.index, expected: Expected::MessageType });
        }
        let kind = match &self.tokens[self.index].token {
            Token::Broadcast => MsgType::Broadcast,
            Token::Listen => MsgType::Listen,
            Token::Request => MsgType::Request,
            Token::Response => MsgType::Response,
            _ => {
                return Err(SyntaxError { at: self.index, expected: Expected::MessageType });
            },
        };
        self.index += 1;
        Ok(kind)
    }

    /// Parses the name of a message.
    pub fn parse_msg_name(&mut self) -> (r: Result<String, SyntaxError>)
        requires
            old(self).well_formed(),
        ensures
            final(self).tokens == old(self).tokens,
            final(self).well_formed(),
            match identifier_at(
                old(self).token_views(),
                old(self).index as int,
                Expected::MessageName,
            ) {
                Ok((name, end)) => r is Ok && r->Ok_0@ == name && final(self).index == end,
                Err(error) => r == Err::<String, SyntaxError>(error),
            },
    {
        self.parse_identifier(Expected::MessageName)
    }

    /// Parses the filter expression of an allow rule.
    pub fn parse_filter_exp(&mut self) -> (r: Result<String, SyntaxError>)
        requires
            old(self).well_formed(),
        ensures
            final(self).tokens == old(self).tokens,
            final(self).well_formed(),
            match identifier_at(
                old(self).token_views(),
                old(self).index as int,
                Expected::FilterExpression,
            ) {
                Ok((name, end)) => r is Ok && r->Ok_0@ == name && final(self).index == end,
                Err(error) => r == Err::<String, SyntaxError>(error),
            },
    {
        self.parse_identifier(Expected::FilterExpression)
    }
}

/// An outcome of parsing statements with a list of statements in front.
pub open spec fn prepend_statements(
    front: Seq<StatementView>,
    rest: Result<Seq<StatementView>, SyntaxError>,
) -> Result<Seq<StatementView>, SyntaxError> {
    match rest {
        Ok(statements) => Ok(front + statements),
        Err(error) => Err(error),
    }
}

/// An outcome of parsing parameters with a list of parameters in front.
pub open spec fn prepend_params(
    front: Seq<MessageParamsView>,
    rest: Result<(Seq<MessageParamsView>, int), SyntaxError>,
) -> Result<(Seq<MessageParamsView>, int), SyntaxError> {
    match rest {
        Ok((params, end)) => Ok((front + params, end)),
        Err(error) => Err(error),
    }
}

/// Compiles the body of a policy: the text is split into tokens and the
/// tokens are parsed to the end. An error of the parser is placed at the
/// token where it arose, or at the end of the text where the tokens ran
/// out.
pub fn parse_body(input: &str) -> (r: Result<Vec<Statement>, Diagnostic>)
    ensures
        match compile(input@) {
            Ok(statements) => r is Ok && policy_view(r->Ok_0@) == statements,
            Err(diagnostic) => r == Err::<Vec<Statement>, Diagnostic>(diagnostic),
        },
{
    let tokens = match lex(input) {
        Ok(tokens) => tokens,
        Err(diagnostic) => {
            return Err(diagnostic);
        },
    };
    let ghost lexemes = lexemes_view(tokens@);
    let mut parser = Parser::new(tokens);
    assert(parser.token_views() =~= tokens_of(lexemes));
    match parser.parse() {
        Ok(statements) => Ok(statements),
        Err(error) => {
            let chars = chars_of(input);
            let offset = if error.at < parser.tokens.len() {
                proof {
                    lemma_lexeme_offsets(input@, 0);
                    assert(lexemes[error.at as int] == parser.tokens@[error.at as int]@);
                }
                parser.tokens[error.at].offset
            } else {
                chars.len()
            };
            Err(locate(&chars, offset, error.expected))
        },
    }
}

} // verus!
