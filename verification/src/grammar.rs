//! The policy language as the tokens that spell a policy, and the proof
//! that the compiler reads exactly that language: the parser gives back
//! every policy from its spelling and accepts nothing but spellings, and a
//! text compiles to a policy exactly if it spells it.

use vstd::prelude::*;
use crate::lexer::{
    accounts_for, law_lexemes_account_for_the_text, law_lexer_finds_what_accounts_for_the_text,
    lex_from, Diagnostic, LexemeView, TokenView,
};
use crate::parser::{
    body_of, msg_param_at, msg_params_from, schema_at, starts_msg_stmt, statement_at,
    statements_from, token_is, tokens_of, SyntaxError,
};
use crate::policy::{
    compile, AllowStmtView, MessageParamsView, MessageStmtView, MsgType, RoleStmtView, SchemaView,
    StatementView,
};

verus! {

/// The tokens of an optional clause: a keyword and an identifier, or
/// nothing.
pub open spec fn clause_tokens(keyword: TokenView, name: Option<Seq<char>>) -> Seq<TokenView> {
    match name {
        Some(text) => seq![keyword, TokenView::Identifier(text)],
        None => Seq::empty(),
    }
}

/// `role IDENT ('extends' IDENT)?`
pub open spec fn role_tokens(stmt: RoleStmtView) -> Seq<TokenView> {
    seq![TokenView::Role, TokenView::Identifier(stmt.role_name)] + clause_tokens(
        TokenView::Extends,
        stmt.extends_role,
    )
}

/// `IDENT ':' IDENT`
pub open spec fn param_tokens(param: MessageParamsView) -> Seq<TokenView> {
    seq![
        TokenView::Identifier(param.param_name),
        TokenView::Colon,
        TokenView::Identifier(param.param_type),
    ]
}

/// `param*`
pub open spec fn params_tokens(params: Seq<MessageParamsView>) -> Seq<TokenView>
    decreases params.len(),
{
    if params.len() == 0 {
        Seq::empty()
    } else {
        param_tokens(params[0]) + params_tokens(params.drop_first())
    }
}

/// `IDENT '{' param* '}'`, behind the keyword of the schema's kind.
pub open spec fn schema_tokens(keyword: TokenView, schema: SchemaView) -> Seq<TokenView> {
    seq![keyword, TokenView::Identifier(schema.msg_name), TokenView::LBrace] + params_tokens(
        schema.msg_params,
    ) + seq![TokenView::RBrace]
}

/// `('broadcast'|'request'|'response') IDENT '{' param* '}'`
pub open spec fn msg_tokens(stmt: MessageStmtView) -> Seq<TokenView> {
    match stmt {
        MessageStmtView::Broadcast(schema) => schema_tokens(TokenView::Broadcast, schema),
        MessageStmtView::Request(schema) => schema_tokens(TokenView::Request, schema),
        MessageStmtView::Response(schema) => schema_tokens(TokenView::Response, schema),
    }
}

/// `'broadcast' | 'listen' | 'request' | 'response'`
pub open spec fn kind_token(kind: MsgType) -> TokenView {
    match kind {
        MsgType::Broadcast => TokenView::Broadcast,
        MsgType::Listen => TokenView::Listen,
        MsgType::Request => TokenView::Request,
        MsgType::Response => TokenView::Response,
    }
}

/// `'allow' IDENT msg_kind IDENT ('when' IDENT)?`
pub open spec fn allow_tokens(stmt: AllowStmtView) -> Seq<TokenView> {
    seq![
        TokenView::Allow,
        TokenView::Identifier(stmt.role_name),
        kind_token(stmt.msg_type),
        TokenView::Identifier(stmt.msg_name),
    ] + clause_tokens(TokenView::When, stmt.filter_exp)
}

/// `role_stmt | msg_stmt | allow_stmt`
pub open spec fn statement_tokens(stmt: StatementView) -> Seq<TokenView> {
    match stmt {
        StatementView::Allow(s) => allow_tokens(s),
        StatementView::Msg(s) => msg_tokens(s),
        StatementView::Role(s) => role_tokens(s),
    }
}

/// `statement*`
pub open spec fn body_tokens(statements: Seq<StatementView>) -> Seq<TokenView>
    decreases statements.len(),
{
    if statements.len() == 0 {
        Seq::empty()
    } else {
        statement_tokens(statements[0]) + body_tokens(statements.drop_first())
    }
}

/// Whether `part` stands in `tokens` from index `at` on.
pub open spec fn spelled_at(tokens: Seq<TokenView>, at: int, part: Seq<TokenView>) -> bool {
    &&& 0 <= at
    &&& at + part.len() <= tokens.len()
    &&& forall|k: int| 0 <= k < part.len() ==> tokens[at + k] == #[trigger] part[k]
}

/// Whether a statement can start at index `at`, or the tokens end there.
pub open spec fn at_boundary(tokens: Seq<TokenView>, at: int) -> bool {
    at >= tokens.len() || tokens[at] is Allow || tokens[at] is Role || starts_msg_stmt(tokens[at])
}

/// The parameters that stand before a closing brace are read back, up to
/// behind the brace.
proof fn lemma_params_read_back(tokens: Seq<TokenView>, at: int, params: Seq<MessageParamsView>)
    requires
        spelled_at(tokens, at, params_tokens(params) + seq![TokenView::RBrace]),
    ensures
        msg_params_from(tokens, at) == Ok::<(Seq<MessageParamsView>, int), SyntaxError>(
            (params, at + params_tokens(params).len() + 1),
        ),
        params_tokens(params).len() == 3 * params.len(),
    decreases params.len(),
{
    let part = params_tokens(params) + seq![TokenView::RBrace];
    if params.len() == 0 {
        assert(tokens[at + 0] == part[0]);
        assert(params =~= Seq::<MessageParamsView>::empty());
    } else {
        let rest = params.drop_first();
        let tail = params_tokens(rest) + seq![TokenView::RBrace];
        assert(part =~= param_tokens(params[0]) + tail);
        assert(tokens[at + 0] == part[0]);
        assert(tokens[at + 1] == part[1]);
        assert(tokens[at + 2] == part[2]);
        assert forall|k: int| 0 <= k < tail.len() implies tokens[at + 3 + k] == #[trigger] tail[k] by {
            assert(tokens[at + (3 + k)] == part[3 + k]);
        }
        lemma_params_read_back(tokens, at + 3, rest);
        assert(seq![params[0]] + rest =~= params);
        assert(msg_param_at(tokens, at) == Ok::<(MessageParamsView, int), SyntaxError>(
            (params[0], at + 3),
        ));
        assert(!token_is(tokens, at, TokenView::RBrace));
    }
}

/// A statement that stands at index `at` and ends at a boundary is read
/// back, up to its end.
pub proof fn lemma_statement_reads_back(tokens: Seq<TokenView>, at: int, stmt: StatementView)
    requires
        spelled_at(tokens, at, statement_tokens(stmt)),
        at_boundary(tokens, at + statement_tokens(stmt).len()),
    ensures
        statement_tokens(stmt).len() >= 2,
        statement_at(tokens, at) == Ok::<(StatementView, int), SyntaxError>(
            (stmt, at + statement_tokens(stmt).len()),
        ),
        tokens[at] is Allow || tokens[at] is Role || starts_msg_stmt(tokens[at]),
{
    let part = statement_tokens(stmt);
    match stmt {
        StatementView::Role(s) => {
            assert(tokens[at + 0] == part[0]);
            assert(tokens[at + 1] == part[1]);
            if s.extends_role is Some {
                assert(tokens[at + 2] == part[2]);
                assert(tokens[at + 3] == part[3]);
            }
        },
        StatementView::Allow(s) => {
            assert(tokens[at + 0] == part[0]);
            assert(tokens[at + 1] == part[1]);
            assert(tokens[at + 2] == part[2]);
            assert(tokens[at + 3] == part[3]);
            if s.filter_exp is Some {
                assert(tokens[at + 4] == part[4]);
                assert(tokens[at + 5] == part[5]);
            }
        },
        StatementView::Msg(m) => {
            let schema = match m {
                MessageStmtView::Broadcast(s) => s,
                MessageStmtView::Request(s) => s,
                MessageStmtView::Response(s) => s,
            };
            let tail = params_tokens(schema.msg_params) + seq![TokenView::RBrace];
            assert(tokens[at + 0] == part[0]);
            assert(tokens[at + 1] == part[1]);
            assert(tokens[at + 2] == part[2]);
            assert forall|k: int| 0 <= k < tail.len() implies tokens[at + 3 + k] == #[trigger] tail[k] by {
                assert(tokens[at + (3 + k)] == part[3 + k]);
            }
            lemma_params_read_back(tokens, at + 3, schema.msg_params);
        },
    }
}

/// Statements that stand from index `at` to the end of the tokens are read
/// back.
proof fn lemma_body_reads_back(tokens: Seq<TokenView>, at: int, statements: Seq<StatementView>)
    requires
        spelled_at(tokens, at, body_tokens(statements)),
        at + body_tokens(statements).len() == tokens.len(),
    ensures
        statements_from(tokens, at) == Ok::<Seq<StatementView>, SyntaxError>(statements),
    decreases statements.len(),
{
    if statements.len() == 0 {
        assert(statements =~= Seq::<StatementView>::empty());
    } else {
        let first = statements[0];
        let rest = statements.drop_first();
        let head = statement_tokens(first);
        let tail = body_tokens(rest);
        let part = body_tokens(statements);
        assert(part =~= head + tail);
        assert forall|k: int| 0 <= k < head.len() implies tokens[at + k] == #[trigger] head[k] by {
            assert(tokens[at + k] == part[k]);
        }
        let end = at + head.len();
        assert forall|k: int| 0 <= k < tail.len() implies tokens[end + k] == #[trigger] tail[k] by {
            assert(tokens[at + (head.len() + k)] == part[head.len() + k]);
        }
        if rest.len() > 0 {
            let next = statement_tokens(rest[0]);
            assert(tail =~= next + body_tokens(rest.drop_first()));
            lemma_first_token_starts_statement(rest[0]);
            assert(tokens[end + 0] == tail[0]);
        }
        lemma_statement_reads_back(tokens, at, first);
        lemma_body_reads_back(tokens, end, rest);
        assert(seq![first] + rest =~= statements);
    }
}

/// The spelling of a statement starts with the keyword of its kind.
proof fn lemma_first_token_starts_statement(stmt: StatementView)
    ensures
        statement_tokens(stmt).len() >= 2,
        statement_tokens(stmt)[0] is Allow || statement_tokens(stmt)[0] is Role || starts_msg_stmt(
            statement_tokens(stmt)[0],
        ),
{
}

/// The parser gives back every policy from its spelling.
pub proof fn law_parser_reads_back_the_spelling(statements: Seq<StatementView>)
    ensures
        body_of(body_tokens(statements)) == Ok::<Seq<StatementView>, SyntaxError>(statements),
{
    lemma_body_reads_back(body_tokens(statements), 0, statements);
}

/// Parameters that were read up to a closing brace are what stands there.
proof fn lemma_params_are_spelled(tokens: Seq<TokenView>, at: int)
    requires
        0 <= at,
        msg_params_from(tokens, at) is Ok,
    ensures
        at < msg_params_from(tokens, at)->Ok_0.1 <= tokens.len(),
        tokens.subrange(at, msg_params_from(tokens, at)->Ok_0.1) == params_tokens(
            msg_params_from(tokens, at)->Ok_0.0,
        ) + seq![TokenView::RBrace],
    decreases tokens.len() - at,
{
    let (params, end) = msg_params_from(tokens, at)->Ok_0;
    if token_is(tokens, at, TokenView::RBrace) {
        assert(tokens.subrange(at, end) =~= params_tokens(params) + seq![TokenView::RBrace]);
    } else {
        let (param, next) = msg_param_at(tokens, at)->Ok_0;
        lemma_params_are_spelled(tokens, next);
        let (rest, _) = msg_params_from(tokens, next)->Ok_0;
        assert(params.drop_first() =~= rest);
        assert(params[0] == param);
        assert(tokens.subrange(at, end) =~= param_tokens(param) + tokens.subrange(next, end));
        assert(param_tokens(param) + (params_tokens(rest) + seq![TokenView::RBrace])
            =~= param_tokens(param) + params_tokens(rest) + seq![TokenView::RBrace]);
    }
}

/// A statement that was read is what stands there.
pub proof fn lemma_statement_is_spelled(tokens: Seq<TokenView>, at: int)
    requires
        0 <= at,
        statement_at(tokens, at) is Ok,
    ensures
        at < statement_at(tokens, at)->Ok_0.1 <= tokens.len(),
        tokens.subrange(at, statement_at(tokens, at)->Ok_0.1) == statement_tokens(
            statement_at(tokens, at)->Ok_0.0,
        ),
{
    let (stmt, end) = statement_at(tokens, at)->Ok_0;
    if token_is(tokens, at, TokenView::Allow) {
        assert(tokens.subrange(at, end) =~= statement_tokens(stmt));
    } else if starts_msg_stmt(tokens[at]) {
        lemma_params_are_spelled(tokens, at + 3);
        let schema = schema_at(tokens, at)->Ok_0.0;
        assert(tokens.subrange(at, end) =~= seq![
            tokens[at],
            TokenView::Identifier(schema.msg_name),
            TokenView::LBrace,
        ] + tokens.subrange(at + 3, end));
        assert(tokens.subrange(at, end) =~= statement_tokens(stmt));
    } else {
        assert(tokens.subrange(at, end) =~= statement_tokens(stmt));
    }
}

/// Statements that were read up to the end of the tokens are what stands
/// there.
proof fn lemma_body_is_spelled(tokens: Seq<TokenView>, at: int)
    requires
        0 <= at <= tokens.len(),
        statements_from(tokens, at) is Ok,
    ensures
        tokens.subrange(at, tokens.len() as int) == body_tokens(statements_from(tokens, at)->Ok_0),
    decreases tokens.len() - at,
{
    let statements = statements_from(tokens, at)->Ok_0;
    if at >= tokens.len() {
        assert(tokens.subrange(at, tokens.len() as int) =~= body_tokens(statements));
    } else {
        let (stmt, next) = statement_at(tokens, at)->Ok_0;
        lemma_statement_is_spelled(tokens, at);
        lemma_body_is_spelled(tokens, next);
        let rest = statements_from(tokens, next)->Ok_0;
        assert(statements.drop_first() =~= rest);
        assert(statements[0] == stmt);
        assert(tokens.subrange(at, tokens.len() as int) =~= tokens.subrange(at, next)
            + tokens.subrange(next, tokens.len() as int));
    }
}

/// The parser accepts nothing but spellings: tokens that it reads as a
/// policy are the spelling of that policy.
pub proof fn law_parser_accepts_only_spellings(tokens: Seq<TokenView>)
    requires
        body_of(tokens) is Ok,
    ensures
        tokens == body_tokens(body_of(tokens)->Ok_0),
{
    lemma_body_is_spelled(tokens, 0);
    assert(tokens.subrange(0, tokens.len() as int) =~= tokens);
}

/// Whether a text spells a policy: tokens that account for the text spell
/// the statements of the policy, one after the other.
pub open spec fn spells(text: Seq<char>, statements: Seq<StatementView>) -> bool {
    exists|lexemes: Seq<LexemeView>| #[trigger]
        accounts_for(text, 0, lexemes) && tokens_of(lexemes) == body_tokens(statements)
}

/// A text compiles to a policy exactly if it spells the policy.
pub proof fn law_compiler_reads_what_is_spelled(text: Seq<char>, statements: Seq<StatementView>)
    ensures
        compile(text) == Ok::<Seq<StatementView>, Diagnostic>(statements) <==> spells(
            text,
            statements,
        ),
{
    if spells(text, statements) {
        let lexemes = choose|lexemes: Seq<LexemeView>| #[trigger]
            accounts_for(text, 0, lexemes) && tokens_of(lexemes) == body_tokens(statements);
        law_lexer_finds_what_accounts_for_the_text(text, 0, lexemes);
        law_parser_reads_back_the_spelling(statements);
    }
    if compile(text) == Ok::<Seq<StatementView>, Diagnostic>(statements) {
        law_lexemes_account_for_the_text(text, 0);
        let lexemes = lex_from(text, 0)->Tokens_0;
        law_parser_accepts_only_spellings(tokens_of(lexemes));
        assert(accounts_for(text, 0, lexemes) && tokens_of(lexemes) == body_tokens(statements));
    }
}

} // verus!
