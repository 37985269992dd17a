//! The compiled form of a policy: an ordered list of statements, together
//! with the mathematical view of every statement that contracts speak of.

use vstd::prelude::*;
use crate::lexer::{diagnostic_at, lex_outcome, Diagnostic, LexemeView};
use crate::parser::{body_of, parse_body, tokens_of};

verus! {

/// The four kinds of message that an allow rule can name.
#[derive(Debug, Clone, Copy, PartialEq, Eq, Structural)]
pub enum MsgType {
    Broadcast,
    Listen,
    Request,
    Response,
}

/// One declared parameter of a message schema.
#[derive(Debug, PartialEq, Eq)]
pub struct MessageParams {
    pub param_name: String,
    pub param_type: String,
}

/// The schema of a broadcast message.
#[derive(Debug, PartialEq, Eq)]
pub struct BroadcastStmt {
    pub msg_name: String,
    pub msg_params: Vec<MessageParams>,
}

/// The schema of a request message.
#[derive(Debug, PartialEq, Eq)]
pub struct RequestStmt {
    pub msg_name: String,
    pub msg_params: Vec<MessageParams>,
}

/// The schema of a response message.
#[derive(Debug, PartialEq, Eq)]
pub struct ResponseStmt {
    pub msg_name: String,
    pub msg_params: Vec<MessageParams>,
}

/// A message schema of one of the three kinds that carry a payload.
#[derive(Debug, PartialEq, Eq)]
pub enum MessageStmt {
    Broadcast(BroadcastStmt),
    Request(RequestStmt),
    Response(ResponseStmt),
}

/// A permission: `role_name` may send messages of kind `msg_type` on the
/// channel `msg_name`. The filter expression is carried and never read.
#[derive(Debug, PartialEq, Eq)]
pub enum AllowStmt {
    Allow { role_name: String, msg_type: MsgType, msg_name: String, filter_exp: Option<String> },
}

/// The declaration of a role, with the role it extends, if any.
#[derive(Debug, PartialEq, Eq)]
pub enum RoleStmt {
    Role { role_name: String, extends_role: Option<String> },
}

/// One statement of a policy.
#[derive(Debug, PartialEq, Eq)]
pub enum Statement {
    Allow(AllowStmt),
    Msg(MessageStmt),
    Role(RoleStmt),
}

/// View of a [`MessageParams`].
pub struct MessageParamsView {
    pub param_name: Seq<char>,
    pub param_type: Seq<char>,
}

/// View shared by the three schema statements: a name and its parameters in
/// declaration order.
pub struct SchemaView {
    pub msg_name: Seq<char>,
    pub msg_params: Seq<MessageParamsView>,
}

/// View of a [`MessageStmt`].
pub enum MessageStmtView {
    Broadcast(SchemaView),
    Request(SchemaView),
    Response(SchemaView),
}

/// View of an [`AllowStmt`].
pub struct AllowStmtView {
    pub role_name: Seq<char>,
    pub msg_type: MsgType,
    pub msg_name: Seq<char>,
    pub filter_exp: Option<Seq<char>>,
}

/// View of a [`RoleStmt`].
pub struct RoleStmtView {
    pub role_name: Seq<char>,
    pub extends_role: Option<Seq<char>>,
}

/// View of a [`Statement`].
pub enum StatementView {
    Allow(AllowStmtView),
    Msg(MessageStmtView),
    Role(RoleStmtView),
}

/// The view of an optional string.
pub open spec fn opt_view(s: Option<String>) -> Option<Seq<char>> {
    match s {
        Some(text) => Some(text@),
        None => None,
    }
}

/// The views of a list of declared parameters, in order.
pub open spec fn params_view(params: Seq<MessageParams>) -> Seq<MessageParamsView> {
    params.map_values(|p: MessageParams| p@)
}

/// The views of a list of statements, in order: the model of a policy.
pub open spec fn policy_view(policy: Seq<Statement>) -> Seq<StatementView> {
    policy.map_values(|s: Statement| s@)
}

impl View for MessageParams {
    type V = MessageParamsView;

    open spec fn view(&self) -> MessageParamsView {
        MessageParamsView { param_name: self.param_name@, param_type: self.param_type@ }
    }
}

impl View for BroadcastStmt {
    type V = SchemaView;

    open spec fn view(&self) -> SchemaView {
        SchemaView { msg_name: self.msg_name@, msg_params: params_view(self.msg_params@) }
    }
}

impl View for RequestStmt {
    type V = SchemaView;

    open spec fn view(&self) -> SchemaView {
        SchemaView { msg_name: self.msg_name@, msg_params: params_view(self.msg_params@) }
    }
}

impl View for ResponseStmt {
    type V = SchemaView;

    open spec fn view(&self) -> SchemaView {
        SchemaView { msg_name: self.msg_name@, msg_params: params_view(self.msg_params@) }
    }
}

impl View for MessageStmt {
    type V = MessageStmtView;

    open spec fn view(&self) -> MessageStmtView {
        match self {
            MessageStmt::Broadcast(s) => MessageStmtView::Broadcast(s@),
            MessageStmt::Request(s) => MessageStmtView::Request(s@),
            MessageStmt::Response(s) => MessageStmtView::Response(s@),
        }
    }
}

impl View for AllowStmt {
    type V = AllowStmtView;

    open spec fn view(&self) -> AllowStmtView {
        match self {
            AllowStmt::Allow { role_name, msg_type, msg_name, filter_exp } => AllowStmtView {
                role_name: role_name@,
                msg_type: *msg_type,
                msg_name: msg_name@,
                filter_exp: opt_view(*filter_exp),
            },
        }
    }
}

impl View for RoleStmt {
    type V = RoleStmtView;

    open spec fn view(&self) -> RoleStmtView {
        match self {
            RoleStmt::Role { role_name, extends_role } => RoleStmtView {
                role_name: role_name@,
                extends_role: opt_view(*extends_role),
            },
        }
    }
}

impl View for Statement {
    type V = StatementView;

    open spec fn view(&self) -> StatementView {
        match self {
            Statement::Allow(s) => StatementView::Allow(s@),
            Statement::Msg(s) => StatementView::Msg(s@),
            Statement::Role(s) => StatementView::Role(s@),
        }
    }
}

impl AllowStmt {
    /// The role that the rule names.
    pub fn role_name(&self) -> (r: &String)
        ensures
            r@ == self@.role_name,
    {
        match self {
            AllowStmt::Allow { role_name, .. } => role_name,
        }
    }

    /// The kind of message that the rule allows.
    pub fn msg_type(&self) -> (r: MsgType)
        ensures
            r == self@.msg_type,
    {
        match self {
            AllowStmt::Allow { msg_type, .. } => *msg_type,
        }
    }

    /// The channel that the rule allows it on.
    pub fn msg_name(&self) -> (r: &String)
        ensures
            r@ == self@.msg_name,
    {
        match self {
            AllowStmt::Allow { msg_name, .. } => msg_name,
        }
    }

    /// The filter expression of the rule, if it has one.
    pub fn filter_exp(&self) -> (r: &Option<String>)
        ensures
            opt_view(*r) == self@.filter_exp,
    {
        match self {
            AllowStmt::Allow { filter_exp, .. } => filter_exp,
        }
    }
}

impl RoleStmt {
    /// The role that is declared.
    pub fn role_name(&self) -> (r: &String)
        ensures
            r@ == self@.role_name,
    {
        match self {
            RoleStmt::Role { role_name, .. } => role_name,
        }
    }

    /// The role that it extends, if it extends one.
    pub fn extends_role(&self) -> (r: &Option<String>)
        ensures
            opt_view(*r) == self@.extends_role,
    {
        match self {
            RoleStmt::Role { extends_role, .. } => extends_role,
        }
    }
}

/// A copy of an optional string.
fn clone_optional(text: &Option<String>) -> (r: Option<String>)
    ensures
        opt_view(r) == opt_view(*text),
{
    match text {
        Some(s) => Some(s.clone()),
        None => None,
    }
}

/// A copy of a list of declared parameters.
fn clone_params(params: &Vec<MessageParams>) -> (r: Vec<MessageParams>)
    ensures
        params_view(r@) == params_view(params@),
{
    let mut copy: Vec<MessageParams> = Vec::new();
    let mut i: usize = 0;
    while i < params.len()
        invariant
            i <= params@.len(),
            copy@.len() == i,
            forall|k: int| 0 <= k < i ==> (#[trigger] copy@[k])@ == params@[k]@,
        decreases params@.len() - i,
    {
        copy.push(params[i].clone());
        i += 1;
    }
    assert(params_view(copy@) =~= params_view(params@));
    copy
}

impl Clone for MessageParams {
    fn clone(&self) -> (r: Self)
        ensures
            r@ == self@,
    {
        MessageParams { param_name: self.param_name.clone(), param_type: self.param_type.clone() }
    }
}

impl Clone for BroadcastStmt {
    fn clone(&self) -> (r: Self)
        ensures
            r@ == self@,
    {
        BroadcastStmt { msg_name: self.msg_name.clone(), msg_params: clone_params(&self.msg_params) }
    }
}

impl Clone for RequestStmt {
    fn clone(&self) -> (r: Self)
        ensures
            r@ == self@,
    {
        RequestStmt { msg_name: self.msg_name.clone(), msg_params: clone_params(&self.msg_params) }
    }
}

impl Clone for ResponseStmt {
    fn clone(&self) -> (r: Self)
        ensures
            r@ == self@,
    {
        ResponseStmt { msg_name: self.msg_name.clone(), msg_params: clone_params(&self.msg_params) }
    }
}

impl Clone for MessageStmt {
    fn clone(&self) -> (r: Self)
        ensures
            r@ == self@,
    {
        match self {
            MessageStmt::Broadcast(s) => MessageStmt::Broadcast(s.clone()),
            MessageStmt::Request(s) => MessageStmt::Request(s.clone()),
            MessageStmt::Response(s) => MessageStmt::Response(s.clone()),
        }
    }
}

impl Clone for AllowStmt {
    fn clone(&self) -> (r: Self)
        ensures
            r@ == self@,
    {
        AllowStmt::Allow {
            role_name: self.role_name().clone(),
            msg_type: self.msg_type(),
            msg_name: self.msg_name().clone(),
            filter_exp: clone_optional(self.filter_exp()),
        }
    }
}

impl Clone for RoleStmt {
    fn clone(&self) -> (r: Self)
        ensures
            r@ == self@,
    {
        RoleStmt::Role {
            role_name: self.role_name().clone(),
            extends_role: clone_optional(self.extends_role()),
        }
    }
}

impl Clone for Statement {
    fn clone(&self) -> (r: Self)
        ensures
            r@ == self@,
    {
        match self {
            Statement::Allow(s) => Statement::Allow(s.clone()),
            Statement::Msg(s) => Statement::Msg(s.clone()),
            Statement::Role(s) => Statement::Role(s.clone()),
        }
    }
}

/// The index in the text of the token at index `at`, or the length of the
/// text where the tokens end before it.
pub open spec fn place_of(lexemes: Seq<LexemeView>, at: int, end: int) -> int {
    if 0 <= at < lexemes.len() {
        lexemes[at].offset
    } else {
        end
    }
}

/// What a policy text compiles to: its statements in order, or the
/// diagnostic of the first thing that is wrong with it. An unknown
/// character anywhere comes before an unexpected token; a construct that the
/// end of the text cuts short is reported at the end of the text.
pub open spec fn compile(text: Seq<char>) -> Result<Seq<StatementView>, Diagnostic> {
    match lex_outcome(text) {
        Err(diagnostic) => Err(diagnostic),
        Ok(lexemes) => match body_of(tokens_of(lexemes)) {
            Ok(statements) => Ok(statements),
            Err(error) => Err(
                diagnostic_at(
                    text,
                    place_of(lexemes, error.at as int, text.len() as int),
                    error.expected,
                ),
            ),
        },
    }
}

/// Compiles a policy text.
pub fn parse(input: &str) -> (r: Result<Vec<Statement>, Diagnostic>)
    ensures
        match compile(input@) {
            Ok(statements) => r is Ok && policy_view(r->Ok_0@) == statements,
            Err(diagnostic) => r == Err::<Vec<Statement>, Diagnostic>(diagnostic),
        },
{
    parse_body(input)
}

} // verus!
