//! The lexer of the policy language: from characters to tokens, with the
//! place of each token in the text.

use vstd::prelude::*;
use vstd::string::StrSliceExecFns;
use crate::text::{chars_of, same_text};

verus! {

/// A token of the policy language. White space separates tokens and is not
/// one itself.
#[derive(Debug, PartialEq, Eq)]
pub enum Token {
    Allow,
    Broadcast,
    Listen,
    Request,
    Response,
    Role,
    Extends,
    When,
    LBrace,
    RBrace,
    Colon,
    Identifier(String),
}

/// View of a [`Token`].
pub enum TokenView {
    Allow,
    Broadcast,
    Listen,
    Request,
    Response,
    Role,
    Extends,
    When,
    LBrace,
    RBrace,
    Colon,
    Identifier(Seq<char>),
}

impl View for Token {
    type V = TokenView;

    open spec fn view(&self) -> TokenView {
        match self {
            Token::Allow => TokenView::Allow,
            Token::Broadcast => TokenView::Broadcast,
            Token::Listen => TokenView::Listen,
            Token::Request => TokenView::Request,
            Token::Response => TokenView::Response,
            Token::Role => TokenView::Role,
            Token::Extends => TokenView::Extends,
            Token::When => TokenView::When,
            Token::LBrace => TokenView::LBrace,
            Token::RBrace => TokenView::RBrace,
            Token::Colon => TokenView::Colon,
            Token::Identifier(name) => TokenView::Identifier(name@),
        }
    }
}

/// A token and the index of its first character in the text.
#[derive(Debug, PartialEq, Eq)]
pub struct Lexeme {
    pub token: Token,
    pub offset: usize,
}

/// View of a [`Lexeme`].
pub struct LexemeView {
    pub token: TokenView,
    pub offset: int,
}

impl View for Lexeme {
    type V = LexemeView;

    open spec fn view(&self) -> LexemeView {
        LexemeView { token: self.token@, offset: self.offset as int }
    }
}

/// The views of a list of lexemes, in order.
pub open spec fn lexemes_view(lexemes: Seq<Lexeme>) -> Seq<LexemeView> {
    lexemes.map_values(|l: Lexeme| l@)
}

/// What the compiler looked for at the place where it gave up.
#[derive(Debug, Clone, Copy, PartialEq, Eq, Structural)]
pub enum Expected {
    /// A character that can start a token, or white space.
    Character,
    /// `role`, `allow`, `broadcast`, `request` or `response`.
    Statement,
    RoleName,
    MessageType,
    MessageName,
    ParameterName,
    ParameterType,
    FilterExpression,
    LBrace,
    Colon,
}

/// Why a policy text is refused: the place, as a line and a column that
/// both count from zero, and what was expected there.
#[derive(Debug, Clone, Copy, PartialEq, Eq, Structural)]
pub struct Diagnostic {
    pub line: usize,
    pub column: usize,
    pub expected: Expected,
}

/// White space: blank, tab, carriage return, line feed.
pub open spec fn is_space(c: char) -> bool {
    c == ' ' || c == '\t' || c == '\r' || c == '\n'
}

/// A character that can start an identifier: an ASCII letter or `_`.
pub open spec fn is_word_start(c: char) -> bool {
    ('a' <= c && c <= 'z') || ('A' <= c && c <= 'Z') || c == '_'
}

/// A character that can continue an identifier: an ASCII letter or digit,
/// `_` or `-`.
pub open spec fn is_word_part(c: char) -> bool {
    is_word_start(c) || ('0' <= c && c <= '9') || c == '-'
}

/// The index behind the longest run of identifier characters that starts
/// at `from`.
pub open spec fn word_end(text: Seq<char>, from: int) -> int
    decreases text.len() - from,
{
    if 0 <= from < text.len() && is_word_part(text[from]) {
        word_end(text, from + 1)
    } else {
        from
    }
}

/// A run of identifier characters ends at or behind its start, within the
/// text.
pub proof fn lemma_word_end_bounds(text: Seq<char>, from: int)
    requires
        0 <= from <= text.len(),
    ensures
        from <= word_end(text, from) <= text.len(),
        forall|k: int| from <= k < word_end(text, from) ==> is_word_part(#[trigger] text[k]),
        word_end(text, from) < text.len() ==> !is_word_part(text[word_end(text, from)]),
    decreases text.len() - from,
{
    if from < text.len() && is_word_part(text[from]) {
        lemma_word_end_bounds(text, from + 1);
    }
}

/// The token that a word is: one of the eight reserved words, or an
/// identifier.
pub open spec fn word_token(word: Seq<char>) -> TokenView {
    if word == "allow"@ {
        TokenView::Allow
    } else if word == "broadcast"@ {
        TokenView::Broadcast
    } else if word == "listen"@ {
        TokenView::Listen
    } else if word == "request"@ {
        TokenView::Request
    } else if word == "response"@ {
        TokenView::Response
    } else if word == "role"@ {
        TokenView::Role
    } else if word == "extends"@ {
        TokenView::Extends
    } else if word == "when"@ {
        TokenView::When
    } else {
        TokenView::Identifier(word)
    }
}

/// The outcome of lexing: the lexemes, or the index of a character that
/// starts no token.
pub enum Lexed {
    Tokens(Seq<LexemeView>),
    Unknown(int),
}

impl Lexed {
    /// The outcome with one more lexeme in front.
    pub open spec fn after(self, first: LexemeView) -> Lexed {
        match self {
            Lexed::Tokens(rest) => Lexed::Tokens(seq![first] + rest),
            Lexed::Unknown(at) => Lexed::Unknown(at),
        }
    }

    /// The outcome with a list of lexemes in front.
    pub open spec fn after_all(self, front: Seq<LexemeView>) -> Lexed {
        match self {
            Lexed::Tokens(rest) => Lexed::Tokens(front + rest),
            Lexed::Unknown(at) => Lexed::Unknown(at),
        }
    }
}

/// The lexemes of the text from index `from` on. White space is skipped; a
/// word is taken as long as it goes; `{`, `}` and `:` are tokens of one
/// character; any other character ends the lexing there.
pub open spec fn lex_from(text: Seq<char>, from: int) -> Lexed
    decreases text.len() - from,
{
    if from < 0 || from >= text.len() {
        Lexed::Tokens(Seq::empty())
    } else if is_space(text[from]) {
        lex_from(text, from + 1)
    } else if text[from] == '{' {
        lex_from(text, from + 1).after(LexemeView { token: TokenView::LBrace, offset: from })
    } else if text[from] == '}' {
        lex_from(text, from + 1).after(LexemeView { token: TokenView::RBrace, offset: from })
    } else if text[from] == ':' {
        lex_from(text, from + 1).after(LexemeView { token: TokenView::Colon, offset: from })
    } else if is_word_start(text[from]) {
        let end = word_end(text, from + 1);
        proof {
            lemma_word_end_bounds(text, from + 1);
        }
        lex_from(text, end).after(
            LexemeView { token: word_token(text.subrange(from, end)), offset: from },
        )
    } else {
        Lexed::Unknown(from)
    }
}

/// The number of line feeds before index `offset`.
pub open spec fn line_of(text: Seq<char>, offset: int) -> int
    decreases offset,
{
    if offset <= 0 || offset > text.len() {
        0
    } else if text[offset - 1] == '\n' {
        line_of(text, offset - 1) + 1
    } else {
        line_of(text, offset - 1)
    }
}

/// The number of characters between the last line feed before index
/// `offset`, or the start of the text, and `offset`.
pub open spec fn column_of(text: Seq<char>, offset: int) -> int
    decreases offset,
{
    if offset <= 0 || offset > text.len() || text[offset - 1] == '\n' {
        0
    } else {
        column_of(text, offset - 1) + 1
    }
}

/// A line and a column are at most the offset that they belong to, so that
/// the numbers of a diagnostic for a place in a text are its line and its
/// column themselves.
pub proof fn law_place_fits(text: Seq<char>, offset: int)
    requires
        0 <= offset <= text.len(),
    ensures
        0 <= line_of(text, offset) <= offset,
        0 <= column_of(text, offset) <= offset,
        offset <= usize::MAX ==> diagnostic_at(text, offset, Expected::Character).line
            == line_of(text, offset) && diagnostic_at(text, offset, Expected::Character).column
            == column_of(text, offset),
    decreases offset,
{
    if offset > 0 {
        law_place_fits(text, offset - 1);
    }
}

/// The diagnostic for the character at index `offset` of the text.
pub open spec fn diagnostic_at(text: Seq<char>, offset: int, expected: Expected) -> Diagnostic {
    Diagnostic {
        line: line_of(text, offset) as usize,
        column: column_of(text, offset) as usize,
        expected,
    }
}

/// The diagnostic for the character at index `offset`.
pub fn locate(chars: &Vec<char>, offset: usize, expected: Expected) -> (r: Diagnostic)
    requires
        offset <= chars@.len(),
    ensures
        r == diagnostic_at(chars@, offset as int, expected),
{
    let mut line: usize = 0;
    let mut column: usize = 0;
    let mut i: usize = 0;
    while i < offset
        invariant
            i <= offset <= chars@.len(),
            line == line_of(chars@, i as int),
            column == column_of(chars@, i as int),
            line <= i,
            column <= i,
        decreases offset - i,
    {
        if chars[i] == '\n' {
            line += 1;
            column = 0;
        } else {
            column += 1;
        }
        i += 1;
    }
    Diagnostic { line, column, expected }
}

/// Whether a character is white space.
fn space(c: char) -> (r: bool)
    ensures
        r == is_space(c),
{
    c == ' ' || c == '\t' || c == '\r' || c == '\n'
}

/// Whether a character can start an identifier.
fn word_start(c: char) -> (r: bool)
    ensures
        r == is_word_start(c),
{
    ('a' <= c && c <= 'z') || ('A' <= c && c <= 'Z') || c == '_'
}

/// Whether a character can continue an identifier.
fn word_part(c: char) -> (r: bool)
    ensures
        r == is_word_part(c),
{
    word_start(c) || ('0' <= c && c <= '9') || c == '-'
}

/// The token that a word is: a reserved word or an identifier.
pub fn recognize_reserved_word(identifier: String) -> (r: Token)
    ensures
        r@ == word_token(identifier@),
{
    if same_text(&identifier, "allow") {
        Token::Allow
    } else if same_text(&identifier, "broadcast") {
        Token::Broadcast
    } else if same_text(&identifier, "listen") {
        Token::Listen
    } else if same_text(&identifier, "request") {
        Token::Request
    } else if same_text(&identifier, "response") {
        Token::Response
    } else if same_text(&identifier, "role") {
        Token::Role
    } else if same_text(&identifier, "extends") {
        Token::Extends
    } else if same_text(&identifier, "when") {
        Token::When
    } else {
        Token::Identifier(identifier)
    }
}

/// The outcome of lexing a text, with the place of an unknown character as
/// a line and a column.
pub open spec fn lex_outcome(text: Seq<char>) -> Result<Seq<LexemeView>, Diagnostic> {
    match lex_from(text, 0) {
        Lexed::Tokens(lexemes) => Ok(lexemes),
        Lexed::Unknown(at) => Err(diagnostic_at(text, at, Expected::Character)),
    }
}

/// The view of what the lexer hands out.
pub open spec fn lexed_view(r: Result<Vec<Lexeme>, Diagnostic>) -> Result<
    Seq<LexemeView>,
    Diagnostic,
> {
    match r {
        Ok(lexemes) => Ok(lexemes_view(lexemes@)),
        Err(diagnostic) => Err(diagnostic),
    }
}

/// Splits a policy text into its tokens, or says where a character stands
/// that starts none.
pub fn lex(input: &str) -> (r: Result<Vec<Lexeme>, Diagnostic>)
    ensures
        lexed_view(r) == lex_outcome(input@),
{
    let chars = chars_of(input);
    let mut tokens: Vec<Lexeme> = Vec::new();
    let mut i: usize = 0;
    assert(lex_from(input@, 0).after_all(lexemes_view(tokens@)) == lex_from(input@, 0)) by {
        match lex_from(input@, 0) {
            Lexed::Tokens(rest) => {
                assert(lexemes_view(tokens@) + rest =~= rest);
            },
            Lexed::Unknown(_) => {},
        }
    }
    while i < chars.len()
        invariant
            i <= chars@.len(),
            chars@ == input@,
            lex_from(input@, 0) == lex_from(input@, i as int).after_all(lexemes_view(tokens@)),
        decreases chars@.len() - i,
    {
        let c = chars[i];
        let ghost before = lexemes_view(tokens@);
        if space(c) {
            i += 1;
        } else if c == '{' || c == '}' || c == ':' {
            let token = if c == '{' {
                Token::LBrace
            } else if c == '}' {
                Token::RBrace
            } else {
                Token::Colon
            };
            tokens.push(Lexeme { token, offset: i });
            proof {
                lemma_after_all_push(lex_from(input@, i + 1), before, tokens@.last()@);
                assert(lexemes_view(tokens@) =~= before.push(tokens@.last()@));
            }
            i += 1;
        } else if word_start(c) {
            let mut end: usize = i + 1;
            while end < chars.len() && word_part(chars[end])
                invariant
                    i < end <= chars@.len(),
                    word_end(chars@, i + 1) == word_end(chars@, end as int),
                decreases chars@.len() - end,
            {
                end += 1;
            }
            let word = input.substring_char(i, end).to_owned();
            tokens.push(Lexeme { token: recognize_reserved_word(word), offset: i });
            proof {
                lemma_after_all_push(lex_from(input@, end as int), before, tokens@.last()@);
                assert(lexemes_view(tokens@) =~= before.push(tokens@.last()@));
            }
            i = end;
        } else {
            return Err(locate(&chars, i, Expected::Character));
        }
    }
    proof {
        assert(lexemes_view(tokens@) + Seq::<LexemeView>::empty() =~= lexemes_view(tokens@));
    }
    Ok(tokens)
}

/// Putting a lexeme in front of an outcome and then a list in front of
/// that is putting the list, with the lexeme at its end, in front.
proof fn lemma_after_all_push(rest: Lexed, front: Seq<LexemeView>, next: LexemeView)
    ensures
        rest.after(next).after_all(front) == rest.after_all(front.push(next)),
{
    match rest {
        Lexed::Tokens(tail) => {
            assert(front + (seq![next] + tail) =~= front.push(next) + tail);
        },
        Lexed::Unknown(_) => {},
    }
}

/// Every lexeme starts at an index of the text, from where the lexing
/// started on.
pub proof fn lemma_lexeme_offsets(text: Seq<char>, from: int)
    requires
        0 <= from,
        lex_from(text, from) is Tokens,
    ensures
        forall|k: int|
            0 <= k < lex_from(text, from)->Tokens_0.len() ==> from <= (
            #[trigger] lex_from(text, from)->Tokens_0[k]).offset < text.len(),
    decreases text.len() - from,
{
    if from < text.len() {
        if is_space(text[from]) || text[from] == '{' || text[from] == '}' || text[from] == ':' {
            lemma_lexeme_offsets(text, from + 1);
        } else if is_word_start(text[from]) {
            lemma_word_end_bounds(text, from + 1);
            lemma_lexeme_offsets(text, word_end(text, from + 1));
        }
    }
}

/// The characters that spell a token.
pub open spec fn token_text(token: TokenView) -> Seq<char> {
    match token {
        TokenView::Allow => "allow"@,
        TokenView::Broadcast => "broadcast"@,
        TokenView::Listen => "listen"@,
        TokenView::Request => "request"@,
        TokenView::Response => "response"@,
        TokenView::Role => "role"@,
        TokenView::Extends => "extends"@,
        TokenView::When => "when"@,
        TokenView::LBrace => seq!['{'],
        TokenView::RBrace => seq!['}'],
        TokenView::Colon => seq![':'],
        TokenView::Identifier(word) => word,
    }
}

/// Whether a token is a word: a reserved word or an identifier.
pub open spec fn is_word(token: TokenView) -> bool {
    !(token is LBrace || token is RBrace || token is Colon)
}

/// `[A-Za-z_][A-Za-z0-9_\-]*`
pub open spec fn is_identifier(word: Seq<char>) -> bool {
    &&& word.len() > 0
    &&& is_word_start(word[0])
    &&& forall|k: int| 0 <= k < word.len() ==> is_word_part(#[trigger] word[k])
}

/// Whether the lexemes account for the text from index `from` on: each
/// stands at its offset, in order; a word is an identifier by the grammar,
/// is a reserved word only if its token says so, and ends where the text or
/// the run of identifier characters ends; and nothing but white space
/// stands between them, before the first and behind the last.
pub open spec fn accounts_for(text: Seq<char>, from: int, lexemes: Seq<LexemeView>) -> bool
    decreases lexemes.len(),
{
    if lexemes.len() == 0 {
        forall|i: int| from <= i < text.len() ==> is_space(#[trigger] text[i])
    } else {
        let first = lexemes[0];
        let end = first.offset + token_text(first.token).len();
        &&& from <= first.offset
        &&& end <= text.len()
        &&& forall|i: int| from <= i < first.offset ==> is_space(#[trigger] text[i])
        &&& text.subrange(first.offset, end) == token_text(first.token)
        &&& is_word(first.token) ==> {
            &&& is_identifier(token_text(first.token))
            &&& word_token(token_text(first.token)) == first.token
            &&& end < text.len() ==> !is_word_part(text[end])
        }
        &&& accounts_for(text, end, lexemes.drop_first())
    }
}

/// A reserved word or an identifier is spelled by the word that it was
/// made from.
pub proof fn lemma_word_token_text(word: Seq<char>)
    ensures
        token_text(word_token(word)) == word,
        is_word(word_token(word)),
        word_token(token_text(word_token(word))) == word_token(word),
{
}

/// What the lexer makes of a text accounts for the text; and where it gives
/// up, it does so at a character that is neither white space nor the start
/// of a token, behind which it has not looked.
pub proof fn law_lexemes_account_for_the_text(text: Seq<char>, from: int)
    requires
        0 <= from,
    ensures
        match lex_from(text, from) {
            Lexed::Tokens(lexemes) => accounts_for(text, from, lexemes),
            Lexed::Unknown(at) => {
                &&& from <= at < text.len()
                &&& !is_space(text[at])
                &&& !is_word_start(text[at])
                &&& text[at] != '{' && text[at] != '}' && text[at] != ':'
            },
        },
    decreases text.len() - from,
{
    if from < text.len() {
        let c = text[from];
        if is_space(c) {
            law_lexemes_account_for_the_text(text, from + 1);
            if lex_from(text, from) is Tokens {
                let lexemes = lex_from(text, from)->Tokens_0;
                if lexemes.len() == 0 {
                    assert forall|i: int| from <= i < text.len() implies is_space(
                        #[trigger] text[i],
                    ) by {
                        if i > from {
                            assert(from + 1 <= i);
                        }
                    }
                } else {
                    assert forall|i: int| from <= i < lexemes[0].offset implies is_space(
                        #[trigger] text[i],
                    ) by {
                        if i > from {
                            assert(from + 1 <= i);
                        }
                    }
                }
            }
        } else if c == '{' || c == '}' || c == ':' {
            law_lexemes_account_for_the_text(text, from + 1);
            if lex_from(text, from) is Tokens {
                let lexemes = lex_from(text, from)->Tokens_0;
                let rest = lex_from(text, from + 1)->Tokens_0;
                assert(lexemes.drop_first() =~= rest);
                assert(text.subrange(from, from + 1) =~= token_text(lexemes[0].token));
            }
        } else if is_word_start(c) {
            let end = word_end(text, from + 1);
            lemma_word_end_bounds(text, from + 1);
            law_lexemes_account_for_the_text(text, end);
            if lex_from(text, from) is Tokens {
                let lexemes = lex_from(text, from)->Tokens_0;
                let rest = lex_from(text, end)->Tokens_0;
                let word = text.subrange(from, end);
                assert(lexemes.drop_first() =~= rest);
                lemma_word_token_text(word);
                assert(word[0] == text[from]);
                assert forall|k: int| 0 <= k < word.len() implies is_word_part(
                    #[trigger] word[k],
                ) by {
                    assert(word[k] == text[from + k]);
                }
            }
        }
    }
}

/// White space is skipped: lexing from the start of a run of white space
/// is lexing from its end.
proof fn lemma_lex_skips_space(text: Seq<char>, from: int, to: int)
    requires
        0 <= from <= to <= text.len(),
        forall|i: int| from <= i < to ==> is_space(#[trigger] text[i]),
    ensures
        lex_from(text, from) == lex_from(text, to),
    decreases to - from,
{
    if from < to {
        assert(is_space(text[from]));
        lemma_lex_skips_space(text, from + 1, to);
    }
}

/// A run of identifier characters that ends at the end of the text or
/// before another character ends where `word_end` says.
proof fn lemma_word_end_is(text: Seq<char>, from: int, end: int)
    requires
        0 <= from <= end <= text.len(),
        forall|k: int| from <= k < end ==> is_word_part(#[trigger] text[k]),
        end < text.len() ==> !is_word_part(text[end]),
    ensures
        word_end(text, from) == end,
    decreases end - from,
{
    if from < end {
        assert(is_word_part(text[from]));
        lemma_word_end_is(text, from + 1, end);
    }
}

/// Only one list of lexemes accounts for a text, and the lexer finds it.
pub proof fn law_lexer_finds_what_accounts_for_the_text(
    text: Seq<char>,
    from: int,
    lexemes: Seq<LexemeView>,
)
    requires
        0 <= from,
        accounts_for(text, from, lexemes),
    ensures
        lex_from(text, from) == Lexed::Tokens(lexemes),
    decreases lexemes.len(),
{
    if lexemes.len() == 0 {
        if from <= text.len() {
            lemma_lex_skips_space(text, from, text.len() as int);
        }
        assert(lexemes =~= Seq::<LexemeView>::empty());
    } else {
        let first = lexemes[0];
        let word = token_text(first.token);
        let end = first.offset + word.len();
        let rest = lexemes.drop_first();
        lemma_lex_skips_space(text, from, first.offset);
        law_lexer_finds_what_accounts_for_the_text(text, end, rest);
        assert(text.subrange(first.offset, end) == word);
        assert(seq![first] + rest =~= lexemes);
        if is_word(first.token) {
            assert(word[0] == text.subrange(first.offset, end)[0]);
            assert forall|k: int| first.offset + 1 <= k < end implies is_word_part(
                #[trigger] text[k],
            ) by {
                assert(text.subrange(first.offset, end)[k - first.offset] == text[k]);
                assert(is_word_part(word[k - first.offset]));
            }
            lemma_word_end_is(text, first.offset + 1, end);
        } else {
            assert(word.len() == 1);
            assert(text.subrange(first.offset, end)[0] == text[first.offset]);
            assert(word[0] == '{' || word[0] == '}' || word[0] == ':');
        }
    }
}

} // verus!
