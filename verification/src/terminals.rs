//! The terminal rules: one per lexical category, each consuming exactly one
//! token.
//!
//! All of them are one matcher, `match_terminal`, told by a `Kind` which
//! tokens to take and under which label. A terminal node keeps the token it
//! was read from and a copy of its lexeme.

use vstd::prelude::*;
use vstd::string::StringExecFns;
use crate::lexer::Symbol;
use crate::lexer::Token;
use crate::headline;
use crate::join_lexemes;
use crate::label_or;
use crate::lemma_first_leaf;
use crate::make_headline;
use crate::option_view;
use crate::terminal_outcome;
use crate::views;
use crate::Consuming;
use crate::Parse;
use crate::ParseBuffer;
use crate::ParseDisplay;
use crate::ParseError;
use crate::ParseErrorView;

verus! {

/// The lexical categories that the terminal rules take.
#[derive(Clone, Copy)]
enum Kind {
    Identifier,
    Type,
    Equals,
    Semicolon,
    Return,
    Literal,
    LeftParen,
    RightParen,
    Plus,
    Minus,
    Multiply,
    Divide,
    Comma,
    LeftCurly,
    RightCurly,
}

impl Kind {
    /// Whether a rule of this kind takes `token`.
    spec fn accepts(self, token: Token) -> bool {
        match self {
            Kind::Identifier => token == Token::Identifier,
            Kind::Type => token is Type,
            Kind::Equals => token == Token::Symbol(Symbol::Equal),
            Kind::Semicolon => token == Token::Symbol(Symbol::Semicolon),
            Kind::Return => token == Token::Return,
            Kind::Literal => token == Token::LiteralInt || token == Token::LiteralFloat,
            Kind::LeftParen => token == Token::Symbol(Symbol::LeftParen),
            Kind::RightParen => token == Token::Symbol(Symbol::RightParen),
            Kind::Plus => token == Token::Symbol(Symbol::Plus),
            Kind::Minus => token == Token::Symbol(Symbol::Minus),
            Kind::Multiply => token == Token::Symbol(Symbol::Multiply),
            Kind::Divide => token == Token::Symbol(Symbol::Divide),
            Kind::Comma => token == Token::Symbol(Symbol::Comma),
            Kind::LeftCurly => token == Token::Symbol(Symbol::LeftCurly),
            Kind::RightCurly => token == Token::Symbol(Symbol::RightCurly),
        }
    }

    /// The text of the label of a rule of this kind.
    spec fn label(self) -> Seq<char> {
        match self {
            Kind::Identifier => "{identifier}"@,
            Kind::Type => "{type}"@,
            Kind::Equals => "="@,
            Kind::Semicolon => ";"@,
            Kind::Return => "return"@,
            Kind::Literal => "{literal}"@,
            Kind::LeftParen => "("@,
            Kind::RightParen => ")"@,
            Kind::Plus => "+"@,
            Kind::Minus => "-"@,
            Kind::Multiply => "*"@,
            Kind::Divide => "/"@,
            Kind::Comma => ","@,
            Kind::LeftCurly => "{"@,
            Kind::RightCurly => "}"@,
        }
    }

    /// Whether a rule of this kind takes `token`.
    fn takes(self, token: Token) -> (taken: bool)
        ensures
            taken == self.accepts(token),
    {
        match self {
            Kind::Identifier => matches!(token, Token::Identifier),
            Kind::Type => matches!(token, Token::Type(_)),
            Kind::Equals => matches!(token, Token::Symbol(Symbol::Equal)),
            Kind::Semicolon => matches!(token, Token::Symbol(Symbol::Semicolon)),
            Kind::Return => matches!(token, Token::Return),
            Kind::Literal => matches!(token, Token::LiteralInt | Token::LiteralFloat),
            Kind::LeftParen => matches!(token, Token::Symbol(Symbol::LeftParen)),
            Kind::RightParen => matches!(token, Token::Symbol(Symbol::RightParen)),
            Kind::Plus => matches!(token, Token::Symbol(Symbol::Plus)),
            Kind::Minus => matches!(token, Token::Symbol(Symbol::Minus)),
            Kind::Multiply => matches!(token, Token::Symbol(Symbol::Multiply)),
            Kind::Divide => matches!(token, Token::Symbol(Symbol::Divide)),
            Kind::Comma => matches!(token, Token::Symbol(Symbol::Comma)),
            Kind::LeftCurly => matches!(token, Token::Symbol(Symbol::LeftCurly)),
            Kind::RightCurly => matches!(token, Token::Symbol(Symbol::RightCurly)),
        }
    }

    /// The label of a rule of this kind.
    fn label_text(self) -> (label: String)
        ensures
            label@ == self.label(),
    {
        match self {
            Kind::Identifier => String::from_str("{identifier}"),
            Kind::Type => String::from_str("{type}"),
            Kind::Equals => String::from_str("="),
            Kind::Semicolon => String::from_str(";"),
            Kind::Return => String::from_str("return"),
            Kind::Literal => String::from_str("{literal}"),
            Kind::LeftParen => String::from_str("("),
            Kind::RightParen => String::from_str(")"),
            Kind::Plus => String::from_str("+"),
            Kind::Minus => String::from_str("-"),
            Kind::Multiply => String::from_str("*"),
            Kind::Divide => String::from_str("/"),
            Kind::Comma => String::from_str(","),
            Kind::LeftCurly => String::from_str("{"),
            Kind::RightCurly => String::from_str("}"),
        }
    }
}

/// The matcher behind every terminal rule: consumes the next pair where a
/// rule of kind `kind` takes its token, and hands out a copy of it; else
/// fails and consumes nothing.
fn match_terminal(buffer: &mut ParseBuffer, kind: Kind) -> (r: Result<(Token, String), ParseError>)
    ensures
        final(buffer).tokens() == old(buffer).tokens(),
        match terminal_outcome(
            kind.label(),
            |token: Token| kind.accepts(token),
            old(buffer).tokens(),
            old(buffer).position(),
        ) {
            Ok(end) => {
                &&& r matches Ok(pair)
                &&& final(buffer).position() == end
                &&& pair == old(buffer).tokens()[old(buffer).position()]
                &&& 0 <= old(buffer).position() < old(buffer).tokens().len()
            },
            Err(e) => {
                &&& r matches Err(error)
                &&& error@ == e
                &&& *final(buffer) == *old(buffer)
            },
        },
{
    let mut fork = buffer.fork();
    match fork.next() {
        None => Err(ParseError::NothingFound { expected: kind.label_text() }),
        Some(pair) => {
            if kind.takes(pair.0) {
                *buffer = fork;
                Ok((pair.0, pair.1.clone()))
            } else {
                Err(ParseError::Mismatch { expected: kind.label_text(), found: pair.1.clone() })
            }
        },
    }
}

/// The line of a rendered terminal: its lexeme under the given label, or
/// under the label of its kind.
fn render_terminal(kind: Kind, depth: usize, label: Option<String>, lexeme: &String) -> (lines: Vec<
    String,
>)
    ensures
        views(lines@) == seq![
            headline(depth as nat, label_or(option_view(label), kind.label()), lexeme@),
        ],
{
    let text = match label {
        Some(given) => given,
        None => kind.label_text(),
    };
    let mut lines: Vec<String> = Vec::new();
    lines.push(make_headline(depth, text.as_str(), lexeme.as_str()));
    assert(views(lines@) =~= seq![
        headline(depth as nat, label_or(option_view(label), kind.label()), lexeme@),
    ]);
    lines
}

/// The one pair under a terminal node.
fn leaf(token: Token, lexeme: &String) -> (pairs: Vec<(Token, String)>)
    ensures
        pairs@ == seq![(token, *lexeme)],
{
    let mut pairs: Vec<(Token, String)> = Vec::new();
    pairs.push((token, lexeme.clone()));
    assert(pairs@ =~= seq![(token, *lexeme)]);
    pairs
}

/// An identifier.
#[derive(Clone, Debug)]
pub struct Identifier {
    pub token: Token,
    pub lexeme: String,
}

impl Identifier {
    /// The tokens that this rule takes.
    pub open spec fn accepts(token: Token) -> bool {
        token == Token::Identifier
    }
}

impl ParseDisplay for Identifier {
    open spec fn shaped(&self) -> bool {
        Self::accepts(self.token)
    }

    open spec fn leaves(&self) -> Seq<(Token, String)> {
        seq![(self.token, self.lexeme)]
    }

    open spec fn label() -> Seq<char> {
        "{identifier}"@
    }

    open spec fn depth_below() -> nat {
        0
    }

    open spec fn rendering(&self, depth: nat, label: Option<Seq<char>>) -> Seq<Seq<char>> {
        seq![headline(depth, label_or(label, Self::label()), self.lexeme@)]
    }

    fn lexemes(&self) -> (pairs: Vec<(Token, String)>) {
        leaf(self.token, &self.lexeme)
    }

    fn lexeme_signature(&self) -> (sigg: String) {
        join_lexemes(&self.lexemes())
    }

    fn parse_label() -> (label: String) {
        Kind::Identifier.label_text()
    }

    fn display(&self, depth: usize, label: Option<String>) -> (lines: Vec<String>) {
        render_terminal(Kind::Identifier, depth, label, &self.lexeme)
    }
}

impl Parse for Identifier {
    open spec fn outcome(tokens: Seq<(Token, String)>, position: int) -> Result<
        int,
        ParseErrorView,
    > {
        terminal_outcome(Self::label(), |token: Token| Self::accepts(token), tokens, position)
    }

    proof fn lemma_outcome_in_bounds(tokens: Seq<(Token, String)>, position: int) {
    }

    open spec fn stops_at(node: Self, tokens: Seq<(Token, String)>, end: int) -> bool {
        true
    }

    proof fn lemma_parses_back(node: Self, tokens: Seq<(Token, String)>, position: int) {
        lemma_first_leaf(node.leaves(), tokens, position);
    }

    fn parse(buffer: &mut ParseBuffer) -> (r: Result<Self, ParseError>) {
        match match_terminal(buffer, Kind::Identifier) {
            Ok((token, lexeme)) => {
                let node = Identifier { token, lexeme };
                assert(node.leaves() =~= old(buffer).tokens().subrange(
                    old(buffer).position(),
                    old(buffer).position() + 1,
                ));
                Ok(node)
            },
            Err(error) => Err(error),
        }
    }
}

impl Consuming for Identifier {
    proof fn lemma_outcome_advances(tokens: Seq<(Token, String)>, position: int) {
    }
}

/// A type keyword.
#[derive(Clone, Debug)]
pub struct Type {
    pub token: Token,
    pub lexeme: String,
}

impl Type {
    /// The tokens that this rule takes.
    pub open spec fn accepts(token: Token) -> bool {
        token is Type
    }
}

impl ParseDisplay for Type {
    open spec fn shaped(&self) -> bool {
        Self::accepts(self.token)
    }

    open spec fn leaves(&self) -> Seq<(Token, String)> {
        seq![(self.token, self.lexeme)]
    }

    open spec fn label() -> Seq<char> {
        "{type}"@
    }

    open spec fn depth_below() -> nat {
        0
    }

    open spec fn rendering(&self, depth: nat, label: Option<Seq<char>>) -> Seq<Seq<char>> {
        seq![headline(depth, label_or(label, Self::label()), self.lexeme@)]
    }

    fn lexemes(&self) -> (pairs: Vec<(Token, String)>) {
        leaf(self.token, &self.lexeme)
    }

    fn lexeme_signature(&self) -> (sigg: String) {
        join_lexemes(&self.lexemes())
    }

    fn parse_label() -> (label: String) {
        Kind::Type.label_text()
    }

    fn display(&self, depth: usize, label: Option<String>) -> (lines: Vec<String>) {
        render_terminal(Kind::Type, depth, label, &self.lexeme)
    }
}

impl Parse for Type {
    open spec fn outcome(tokens: Seq<(Token, String)>, position: int) -> Result<
        int,
        ParseErrorView,
    > {
        terminal_outcome(Self::label(), |token: Token| Self::accepts(token), tokens, position)
    }

    proof fn lemma_outcome_in_bounds(tokens: Seq<(Token, String)>, position: int) {
    }

    open spec fn stops_at(node: Self, tokens: Seq<(Token, String)>, end: int) -> bool {
        true
    }

    proof fn lemma_parses_back(node: Self, tokens: Seq<(Token, String)>, position: int) {
        lemma_first_leaf(node.leaves(), tokens, position);
    }

    fn parse(buffer: &mut ParseBuffer) -> (r: Result<Self, ParseError>) {
        match match_terminal(buffer, Kind::Type) {
            Ok((token, lexeme)) => {
                let node = Type { token, lexeme };
                assert(node.leaves() =~= old(buffer).tokens().subrange(
                    old(buffer).position(),
                    old(buffer).position() + 1,
                ));
                Ok(node)
            },
            Err(error) => Err(error),
        }
    }
}

impl Consuming for Type {
    proof fn lemma_outcome_advances(tokens: Seq<(Token, String)>, position: int) {
    }
}

/// The symbol `=`.
#[derive(Clone, Debug)]
pub struct Equals {
    pub token: Token,
    pub lexeme: String,
}

impl Equals {
    /// The tokens that this rule takes.
    pub open spec fn accepts(token: Token) -> bool {
        token == Token::Symbol(Symbol::Equal)
    }
}

impl ParseDisplay for Equals {
    open spec fn shaped(&self) -> bool {
        Self::accepts(self.token)
    }

    open spec fn leaves(&self) -> Seq<(Token, String)> {
        seq![(self.token, self.lexeme)]
    }

    open spec fn label() -> Seq<char> {
        "="@
    }

    open spec fn depth_below() -> nat {
        0
    }

    open spec fn rendering(&self, depth: nat, label: Option<Seq<char>>) -> Seq<Seq<char>> {
        seq![headline(depth, label_or(label, Self::label()), self.lexeme@)]
    }

    fn lexemes(&self) -> (pairs: Vec<(Token, String)>) {
        leaf(self.token, &self.lexeme)
    }

    fn lexeme_signature(&self) -> (sigg: String) {
        join_lexemes(&self.lexemes())
    }

    fn parse_label() -> (label: String) {
        Kind::Equals.label_text()
    }

    fn display(&self, depth: usize, label: Option<String>) -> (lines: Vec<String>) {
        render_terminal(Kind::Equals, depth, label, &self.lexeme)
    }
}

impl Parse for Equals {
    open spec fn outcome(tokens: Seq<(Token, String)>, position: int) -> Result<
        int,
        ParseErrorView,
    > {
        terminal_outcome(Self::label(), |token: Token| Self::accepts(token), tokens, position)
    }

    proof fn lemma_outcome_in_bounds(tokens: Seq<(Token, String)>, position: int) {
    }

    open spec fn stops_at(node: Self, tokens: Seq<(Token, String)>, end: int) -> bool {
        true
    }

    proof fn lemma_parses_back(node: Self, tokens: Seq<(Token, String)>, position: int) {
        lemma_first_leaf(node.leaves(), tokens, position);
    }

    fn parse(buffer: &mut ParseBuffer) -> (r: Result<Self, ParseError>) {
        match match_terminal(buffer, Kind::Equals) {
            Ok((token, lexeme)) => {
                let node = Equals { token, lexeme };
                assert(node.leaves() =~= old(buffer).tokens().subrange(
                    old(buffer).position(),
                    old(buffer).position() + 1,
                ));
                Ok(node)
            },
            Err(error) => Err(error),
        }
    }
}

impl Consuming for Equals {
    proof fn lemma_outcome_advances(tokens: Seq<(Token, String)>, position: int) {
    }
}

/// The symbol `;`.
#[derive(Clone, Debug)]
pub struct Semicolon {
    pub token: Token,
    pub lexeme: String,
}

impl Semicolon {
    /// The tokens that this rule takes.
    pub open spec fn accepts(token: Token) -> bool {
        token == Token::Symbol(Symbol::Semicolon)
    }
}

impl ParseDisplay for Semicolon {
    open spec fn shaped(&self) -> bool {
        Self::accepts(self.token)
    }

    open spec fn leaves(&self) -> Seq<(Token, String)> {
        seq![(self.token, self.lexeme)]
    }

    open spec fn label() -> Seq<char> {
        ";"@
    }

    open spec fn depth_below() -> nat {
        0
    }

    open spec fn rendering(&self, depth: nat, label: Option<Seq<char>>) -> Seq<Seq<char>> {
        seq![headline(depth, label_or(label, Self::label()), self.lexeme@)]
    }

    fn lexemes(&self) -> (pairs: Vec<(Token, String)>) {
        leaf(self.token, &self.lexeme)
    }

    fn lexeme_signature(&self) -> (sigg: String) {
        join_lexemes(&self.lexemes())
    }

    fn parse_label() -> (label: String) {
        Kind::Semicolon.label_text()
    }

    fn display(&self, depth: usize, label: Option<String>) -> (lines: Vec<String>) {
        render_terminal(Kind::Semicolon, depth, label, &self.lexeme)
    }
}

impl Parse for Semicolon {
    open spec fn outcome(tokens: Seq<(Token, String)>, position: int) -> Result<
        int,
        ParseErrorView,
    > {
        terminal_outcome(Self::label(), |token: Token| Self::accepts(token), tokens, position)
    }

    proof fn lemma_outcome_in_bounds(tokens: Seq<(Token, String)>, position: int) {
    }

    open spec fn stops_at(node: Self, tokens: Seq<(Token, String)>, end: int) -> bool {
        true
    }

    proof fn lemma_parses_back(node: Self, tokens: Seq<(Token, String)>, position: int) {
        lemma_first_leaf(node.leaves(), tokens, position);
    }

    fn parse(buffer: &mut ParseBuffer) -> (r: Result<Self, ParseError>) {
        match match_terminal(buffer, Kind::Semicolon) {
            Ok((token, lexeme)) => {
                let node = Semicolon { token, lexeme };
                assert(node.leaves() =~= old(buffer).tokens().subrange(
                    old(buffer).position(),
                    old(buffer).position() + 1,
                ));
                Ok(node)
            },
            Err(error) => Err(error),
        }
    }
}

impl Consuming for Semicolon {
    proof fn lemma_outcome_advances(tokens: Seq<(Token, String)>, position: int) {
    }
}

/// The keyword `return`.
#[derive(Clone, Debug)]
pub struct Return {
    pub token: Token,
    pub lexeme: String,
}

impl Return {
    /// The tokens that this rule takes.
    pub open spec fn accepts(token: Token) -> bool {
        token == Token::Return
    }
}

impl ParseDisplay for Return {
    open spec fn shaped(&self) -> bool {
        Self::accepts(self.token)
    }

    open spec fn leaves(&self) -> Seq<(Token, String)> {
        seq![(self.token, self.lexeme)]
    }

    open spec fn label() -> Seq<char> {
        "return"@
    }

    open spec fn depth_below() -> nat {
        0
    }

    open spec fn rendering(&self, depth: nat, label: Option<Seq<char>>) -> Seq<Seq<char>> {
        seq![headline(depth, label_or(label, Self::label()), self.lexeme@)]
    }

    fn lexemes(&self) -> (pairs: Vec<(Token, String)>) {
        leaf(self.token, &self.lexeme)
    }

    fn lexeme_signature(&self) -> (sigg: String) {
        join_lexemes(&self.lexemes())
    }

    fn parse_label() -> (label: String) {
        Kind::Return.label_text()
    }

    fn display(&self, depth: usize, label: Option<String>) -> (lines: Vec<String>) {
        render_terminal(Kind::Return, depth, label, &self.lexeme)
    }
}

impl Parse for Return {
    open spec fn outcome(tokens: Seq<(Token, String)>, position: int) -> Result<
        int,
        ParseErrorView,
    > {
        terminal_outcome(Self::label(), |token: Token| Self::accepts(token), tokens, position)
    }

    proof fn lemma_outcome_in_bounds(tokens: Seq<(Token, String)>, position: int) {
    }

    open spec fn stops_at(node: Self, tokens: Seq<(Token, String)>, end: int) -> bool {
        true
    }

    proof fn lemma_parses_back(node: Self, tokens: Seq<(Token, String)>, position: int) {
        lemma_first_leaf(node.leaves(), tokens, position);
    }

    fn parse(buffer: &mut ParseBuffer) -> (r: Result<Self, ParseError>) {
        match match_terminal(buffer, Kind::Return) {
            Ok((token, lexeme)) => {
                let node = Return { token, lexeme };
                assert(node.leaves() =~= old(buffer).tokens().subrange(
                    old(buffer).position(),
                    old(buffer).position() + 1,
                ));
                Ok(node)
            },
            Err(error) => Err(error),
        }
    }
}

impl Consuming for Return {
    proof fn lemma_outcome_advances(tokens: Seq<(Token, String)>, position: int) {
    }
}

/// An integer or floating-point literal.
#[derive(Clone, Debug)]
pub struct Literal {
    pub token: Token,
    pub lexeme: String,
}

impl Literal {
    /// The tokens that this rule takes.
    pub open spec fn accepts(token: Token) -> bool {
        token == Token::LiteralInt || token == Token::LiteralFloat
    }
}

impl ParseDisplay for Literal {
    open spec fn shaped(&self) -> bool {
        Self::accepts(self.token)
    }

    open spec fn leaves(&self) -> Seq<(Token, String)> {
        seq![(self.token, self.lexeme)]
    }

    open spec fn label() -> Seq<char> {
        "{literal}"@
    }

    open spec fn depth_below() -> nat {
        0
    }

    open spec fn rendering(&self, depth: nat, label: Option<Seq<char>>) -> Seq<Seq<char>> {
        seq![headline(depth, label_or(label, Self::label()), self.lexeme@)]
    }

    fn lexemes(&self) -> (pairs: Vec<(Token, String)>) {
        leaf(self.token, &self.lexeme)
    }

    fn lexeme_signature(&self) -> (sigg: String) {
        join_lexemes(&self.lexemes())
    }

    fn parse_label() -> (label: String) {
        Kind::Literal.label_text()
    }

    fn display(&self, depth: usize, label: Option<String>) -> (lines: Vec<String>) {
        render_terminal(Kind::Literal, depth, label, &self.lexeme)
    }
}

impl Parse for Literal {
    open spec fn outcome(tokens: Seq<(Token, String)>, position: int) -> Result<
        int,
        ParseErrorView,
    > {
        terminal_outcome(Self::label(), |token: Token| Self::accepts(token), tokens, position)
    }

    proof fn lemma_outcome_in_bounds(tokens: Seq<(Token, String)>, position: int) {
    }

    open spec fn stops_at(node: Self, tokens: Seq<(Token, String)>, end: int) -> bool {
        true
    }

    proof fn lemma_parses_back(node: Self, tokens: Seq<(Token, String)>, position: int) {
        lemma_first_leaf(node.leaves(), tokens, position);
    }

    fn parse(buffer: &mut ParseBuffer) -> (r: Result<Self, ParseError>) {
        match match_terminal(buffer, Kind::Literal) {
            Ok((token, lexeme)) => {
                let node = Literal { token, lexeme };
                assert(node.leaves() =~= old(buffer).tokens().subrange(
                    old(buffer).position(),
                    old(buffer).position() + 1,
                ));
                Ok(node)
            },
            Err(error) => Err(error),
        }
    }
}

impl Consuming for Literal {
    proof fn lemma_outcome_advances(tokens: Seq<(Token, String)>, position: int) {
    }
}

/// The symbol `(`.
#[derive(Clone, Debug)]
pub struct LeftParen {
    pub token: Token,
    pub lexeme: String,
}

impl LeftParen {
    /// The tokens that this rule takes.
    pub open spec fn accepts(token: Token) -> bool {
        token == Token::Symbol(Symbol::LeftParen)
    }
}

impl ParseDisplay for LeftParen {
    open spec fn shaped(&self) -> bool {
        Self::accepts(self.token)
    }

    open spec fn leaves(&self) -> Seq<(Token, String)> {
        seq![(self.token, self.lexeme)]
    }

    open spec fn label() -> Seq<char> {
        "("@
    }

    open spec fn depth_below() -> nat {
        0
    }

    open spec fn rendering(&self, depth: nat, label: Option<Seq<char>>) -> Seq<Seq<char>> {
        seq![headline(depth, label_or(label, Self::label()), self.lexeme@)]
    }

    fn lexemes(&self) -> (pairs: Vec<(Token, String)>) {
        leaf(self.token, &self.lexeme)
    }

    fn lexeme_signature(&self) -> (sigg: String) {
        join_lexemes(&self.lexemes())
    }

    fn parse_label() -> (label: String) {
        Kind::LeftParen.label_text()
    }

    fn display(&self, depth: usize, label: Option<String>) -> (lines: Vec<String>) {
        render_terminal(Kind::LeftParen, depth, label, &self.lexeme)
    }
}

impl Parse for LeftParen {
    open spec fn outcome(tokens: Seq<(Token, String)>, position: int) -> Result<
        int,
        ParseErrorView,
    > {
        terminal_outcome(Self::label(), |token: Token| Self::accepts(token), tokens, position)
    }

    proof fn lemma_outcome_in_bounds(tokens: Seq<(Token, String)>, position: int) {
    }

    open spec fn stops_at(node: Self, tokens: Seq<(Token, String)>, end: int) -> bool {
        true
    }

    proof fn lemma_parses_back(node: Self, tokens: Seq<(Token, String)>, position: int) {
        lemma_first_leaf(node.leaves(), tokens, position);
    }

    fn parse(buffer: &mut ParseBuffer) -> (r: Result<Self, ParseError>) {
        match match_terminal(buffer, Kind::LeftParen) {
            Ok((token, lexeme)) => {
                let node = LeftParen { token, lexeme };
                assert(node.leaves() =~= old(buffer).tokens().subrange(
                    old(buffer).position(),
                    old(buffer).position() + 1,
                ));
                Ok(node)
            },
            Err(error) => Err(error),
        }
    }
}

impl Consuming for LeftParen {
    proof fn lemma_outcome_advances(tokens: Seq<(Token, String)>, position: int) {
    }
}

/// The symbol `)`.
#[derive(Clone, Debug)]
pub struct RightParen {
    pub token: Token,
    pub lexeme: String,
}

impl RightParen {
    /// The tokens that this rule takes.
    pub open spec fn accepts(token: Token) -> bool {
        token == Token::Symbol(Symbol::RightParen)
    }
}

impl ParseDisplay for RightParen {
    open spec fn shaped(&self) -> bool {
        Self::accepts(self.token)
    }

    open spec fn leaves(&self) -> Seq<(Token, String)> {
        seq![(self.token, self.lexeme)]
    }

    open spec fn label() -> Seq<char> {
        ")"@
    }

    open spec fn depth_below() -> nat {
        0
    }

    open spec fn rendering(&self, depth: nat, label: Option<Seq<char>>) -> Seq<Seq<char>> {
        seq![headline(depth, label_or(label, Self::label()), self.lexeme@)]
    }

    fn lexemes(&self) -> (pairs: Vec<(Token, String)>) {
        leaf(self.token, &self.lexeme)
    }

    fn lexeme_signature(&self) -> (sigg: String) {
        join_lexemes(&self.lexemes())
    }

    fn parse_label() -> (label: String) {
        Kind::RightParen.label_text()
    }

    fn display(&self, depth: usize, label: Option<String>) -> (lines: Vec<String>) {
        render_terminal(Kind::RightParen, depth, label, &self.lexeme)
    }
}

impl Parse for RightParen {
    open spec fn outcome(tokens: Seq<(Token, String)>, position: int) -> Result<
        int,
        ParseErrorView,
    > {
        terminal_outcome(Self::label(), |token: Token| Self::accepts(token), tokens, position)
    }

    proof fn lemma_outcome_in_bounds(tokens: Seq<(Token, String)>, position: int) {
    }

    open spec fn stops_at(node: Self, tokens: Seq<(Token, String)>, end: int) -> bool {
        true
    }

    proof fn lemma_parses_back(node: Self, tokens: Seq<(Token, String)>, position: int) {
        lemma_first_leaf(node.leaves(), tokens, position);
    }

    fn parse(buffer: &mut ParseBuffer) -> (r: Result<Self, ParseError>) {
        match match_terminal(buffer, Kind::RightParen) {
            Ok((token, lexeme)) => {
                let node = RightParen { token, lexeme };
                assert(node.leaves() =~= old(buffer).tokens().subrange(
                    old(buffer).position(),
                    old(buffer).position() + 1,
                ));
                Ok(node)
            },
            Err(error) => Err(error),
        }
    }
}

impl Consuming for RightParen {
    proof fn lemma_outcome_advances(tokens: Seq<(Token, String)>, position: int) {
    }
}

/// The symbol `+`.
#[derive(Clone, Debug)]
pub struct Plus {
    pub token: Token,
    pub lexeme: String,
}

impl Plus {
    /// The tokens that this rule takes.
    pub open spec fn accepts(token: Token) -> bool {
        token == Token::Symbol(Symbol::Plus)
    }
}

impl ParseDisplay for Plus {
    open spec fn shaped(&self) -> bool {
        Self::accepts(self.token)
    }

    open spec fn leaves(&self) -> Seq<(Token, String)> {
        seq![(self.token, self.lexeme)]
    }

    open spec fn label() -> Seq<char> {
        "+"@
    }

    open spec fn depth_below() -> nat {
        0
    }

    open spec fn rendering(&self, depth: nat, label: Option<Seq<char>>) -> Seq<Seq<char>> {
        seq![headline(depth, label_or(label, Self::label()), self.lexeme@)]
    }

    fn lexemes(&self) -> (pairs: Vec<(Token, String)>) {
        leaf(self.token, &self.lexeme)
    }

    fn lexeme_signature(&self) -> (sigg: String) {
        join_lexemes(&self.lexemes())
    }

    fn parse_label() -> (label: String) {
        Kind::Plus.label_text()
    }

    fn display(&self, depth: usize, label: Option<String>) -> (lines: Vec<String>) {
        render_terminal(Kind::Plus, depth, label, &self.lexeme)
    }
}

impl Parse for Plus {
    open spec fn outcome(tokens: Seq<(Token, String)>, position: int) -> Result<
        int,
        ParseErrorView,
    > {
        terminal_outcome(Self::label(), |token: Token| Self::accepts(token), tokens, position)
    }

    proof fn lemma_outcome_in_bounds(tokens: Seq<(Token, String)>, position: int) {
    }

    open spec fn stops_at(node: Self, tokens: Seq<(Token, String)>, end: int) -> bool {
        true
    }

    proof fn lemma_parses_back(node: Self, tokens: Seq<(Token, String)>, position: int) {
        lemma_first_leaf(node.leaves(), tokens, position);
    }

    fn parse(buffer: &mut ParseBuffer) -> (r: Result<Self, ParseError>) {
        match match_terminal(buffer, Kind::Plus) {
            Ok((token, lexeme)) => {
                let node = Plus { token, lexeme };
                assert(node.leaves() =~= old(buffer).tokens().subrange(
                    old(buffer).position(),
                    old(buffer).position() + 1,
                ));
                Ok(node)
            },
            Err(error) => Err(error),
        }
    }
}

impl Consuming for Plus {
    proof fn lemma_outcome_advances(tokens: Seq<(Token, String)>, position: int) {
    }
}

/// The symbol `-`.
#[derive(Clone, Debug)]
pub struct Minus {
    pub token: Token,
    pub lexeme: String,
}

impl Minus {
    /// The tokens that this rule takes.
    pub open spec fn accepts(token: Token) -> bool {
        token == Token::Symbol(Symbol::Minus)
    }
}

impl ParseDisplay for Minus {
    open spec fn shaped(&self) -> bool {
        Self::accepts(self.token)
    }

    open spec fn leaves(&self) -> Seq<(Token, String)> {
        seq![(self.token, self.lexeme)]
    }

    open spec fn label() -> Seq<char> {
        "-"@
    }

    open spec fn depth_below() -> nat {
        0
    }

    open spec fn rendering(&self, depth: nat, label: Option<Seq<char>>) -> Seq<Seq<char>> {
        seq![headline(depth, label_or(label, Self::label()), self.lexeme@)]
    }

    fn lexemes(&self) -> (pairs: Vec<(Token, String)>) {
        leaf(self.token, &self.lexeme)
    }

    fn lexeme_signature(&self) -> (sigg: String) {
        join_lexemes(&self.lexemes())
    }

    fn parse_label() -> (label: String) {
        Kind::Minus.label_text()
    }

    fn display(&self, depth: usize, label: Option<String>) -> (lines: Vec<String>) {
        render_terminal(Kind::Minus, depth, label, &self.lexeme)
    }
}

impl Parse for Minus {
    open spec fn outcome(tokens: Seq<(Token, String)>, position: int) -> Result<
        int,
        ParseErrorView,
    > {
        terminal_outcome(Self::label(), |token: Token| Self::accepts(token), tokens, position)
    }

    proof fn lemma_outcome_in_bounds(tokens: Seq<(Token, String)>, position: int) {
    }

    open spec fn stops_at(node: Self, tokens: Seq<(Token, String)>, end: int) -> bool {
        true
    }

    proof fn lemma_parses_back(node: Self, tokens: Seq<(Token, String)>, position: int) {
        lemma_first_leaf(node.leaves(), tokens, position);
    }

    fn parse(buffer: &mut ParseBuffer) -> (r: Result<Self, ParseError>) {
        match match_terminal(buffer, Kind::Minus) {
            Ok((token, lexeme)) => {
                let node = Minus { token, lexeme };
                assert(node.leaves() =~= old(buffer).tokens().subrange(
                    old(buffer).position(),
                    old(buffer).position() + 1,
                ));
                Ok(node)
            },
            Err(error) => Err(error),
        }
    }
}

impl Consuming for Minus {
    proof fn lemma_outcome_advances(tokens: Seq<(Token, String)>, position: int) {
    }
}

/// The symbol `*`.
#[derive(Clone, Debug)]
pub struct Multiply {
    pub token: Token,
    pub lexeme: String,
}

impl Multiply {
    /// The tokens that this rule takes.
    pub open spec fn accepts(token: Token) -> bool {
        token == Token::Symbol(Symbol::Multiply)
    }
}

impl ParseDisplay for Multiply {
    open spec fn shaped(&self) -> bool {
        Self::accepts(self.token)
    }

    open spec fn leaves(&self) -> Seq<(Token, String)> {
        seq![(self.token, self.lexeme)]
    }

    open spec fn label() -> Seq<char> {
        "*"@
    }

    open spec fn depth_below() -> nat {
        0
    }

    open spec fn rendering(&self, depth: nat, label: Option<Seq<char>>) -> Seq<Seq<char>> {
        seq![headline(depth, label_or(label, Self::label()), self.lexeme@)]
    }

    fn lexemes(&self) -> (pairs: Vec<(Token, String)>) {
        leaf(self.token, &self.lexeme)
    }

    fn lexeme_signature(&self) -> (sigg: String) {
        join_lexemes(&self.lexemes())
    }

    fn parse_label() -> (label: String) {
        Kind::Multiply.label_text()
    }

    fn display(&self, depth: usize, label: Option<String>) -> (lines: Vec<String>) {
        render_terminal(Kind::Multiply, depth, label, &self.lexeme)
    }
}

impl Parse for Multiply {
    open spec fn outcome(tokens: Seq<(Token, String)>, position: int) -> Result<
        int,
        ParseErrorView,
    > {
        terminal_outcome(Self::label(), |token: Token| Self::accepts(token), tokens, position)
    }

    proof fn lemma_outcome_in_bounds(tokens: Seq<(Token, String)>, position: int) {
    }

    open spec fn stops_at(node: Self, tokens: Seq<(Token, String)>, end: int) -> bool {
        true
    }

    proof fn lemma_parses_back(node: Self, tokens: Seq<(Token, String)>, position: int) {
        lemma_first_leaf(node.leaves(), tokens, position);
    }

    fn parse(buffer: &mut ParseBuffer) -> (r: Result<Self, ParseError>) {
        match match_terminal(buffer, Kind::Multiply) {
            Ok((token, lexeme)) => {
                let node = Multiply { token, lexeme };
                assert(node.leaves() =~= old(buffer).tokens().subrange(
                    old(buffer).position(),
                    old(buffer).position() + 1,
                ));
                Ok(node)
            },
            Err(error) => Err(error),
        }
    }
}

impl Consuming for Multiply {
    proof fn lemma_outcome_advances(tokens: Seq<(Token, String)>, position: int) {
    }
}

/// The symbol `/`.
#[derive(Clone, Debug)]
pub struct Divide {
    pub token: Token,
    pub lexeme: String,
}

impl Divide {
    /// The tokens that this rule takes.
    pub open spec fn accepts(token: Token) -> bool {
        token == Token::Symbol(Symbol::Divide)
    }
}

impl ParseDisplay for Divide {
    open spec fn shaped(&self) -> bool {
        Self::accepts(self.token)
    }

    open spec fn leaves(&self) -> Seq<(Token, String)> {
        seq![(self.token, self.lexeme)]
    }

    open spec fn label() -> Seq<char> {
        "/"@
    }

    open spec fn depth_below() -> nat {
        0
    }

    open spec fn rendering(&self, depth: nat, label: Option<Seq<char>>) -> Seq<Seq<char>> {
        seq![headline(depth, label_or(label, Self::label()), self.lexeme@)]
    }

    fn lexemes(&self) -> (pairs: Vec<(Token, String)>) {
        leaf(self.token, &self.lexeme)
    }

    fn lexeme_signature(&self) -> (sigg: String) {
        join_lexemes(&self.lexemes())
    }

    fn parse_label() -> (label: String) {
        Kind::Divide.label_text()
    }

    fn display(&self, depth: usize, label: Option<String>) -> (lines: Vec<String>) {
        render_terminal(Kind::Divide, depth, label, &self.lexeme)
    }
}

impl Parse for Divide {
    open spec fn outcome(tokens: Seq<(Token, String)>, position: int) -> Result<
        int,
        ParseErrorView,
    > {
        terminal_outcome(Self::label(), |token: Token| Self::accepts(token), tokens, position)
    }

    proof fn lemma_outcome_in_bounds(tokens: Seq<(Token, String)>, position: int) {
    }

    open spec fn stops_at(node: Self, tokens: Seq<(Token, String)>, end: int) -> bool {
        true
    }

    proof fn lemma_parses_back(node: Self, tokens: Seq<(Token, String)>, position: int) {
        lemma_first_leaf(node.leaves(), tokens, position);
    }

    fn parse(buffer: &mut ParseBuffer) -> (r: Result<Self, ParseError>) {
        match match_terminal(buffer, Kind::Divide) {
            Ok((token, lexeme)) => {
                let node = Divide { token, lexeme };
                assert(node.leaves() =~= old(buffer).tokens().subrange(
                    old(buffer).position(),
                    old(buffer).position() + 1,
                ));
                Ok(node)
            },
            Err(error) => Err(error),
        }
    }
}

impl Consuming for Divide {
    proof fn lemma_outcome_advances(tokens: Seq<(Token, String)>, position: int) {
    }
}

/// The symbol `,`.
#[derive(Clone, Debug)]
pub struct Comma {
    pub token: Token,
    pub lexeme: String,
}

impl Comma {
    /// The tokens that this rule takes.
    pub open spec fn accepts(token: Token) -> bool {
        token == Token::Symbol(Symbol::Comma)
    }
}

impl ParseDisplay for Comma {
    open spec fn shaped(&self) -> bool {
        Self::accepts(self.token)
    }

    open spec fn leaves(&self) -> Seq<(Token, String)> {
        seq![(self.token, self.lexeme)]
    }

    open spec fn label() -> Seq<char> {
        ","@
    }

    open spec fn depth_below() -> nat {
        0
    }

    open spec fn rendering(&self, depth: nat, label: Option<Seq<char>>) -> Seq<Seq<char>> {
        seq![headline(depth, label_or(label, Self::label()), self.lexeme@)]
    }

    fn lexemes(&self) -> (pairs: Vec<(Token, String)>) {
        leaf(self.token, &self.lexeme)
    }

    fn lexeme_signature(&self) -> (sigg: String) {
        join_lexemes(&self.lexemes())
    }

    fn parse_label() -> (label: String) {
        Kind::Comma.label_text()
    }

    fn display(&self, depth: usize, label: Option<String>) -> (lines: Vec<String>) {
        render_terminal(Kind::Comma, depth, label, &self.lexeme)
    }
}

impl Parse for Comma {
    open spec fn outcome(tokens: Seq<(Token, String)>, position: int) -> Result<
        int,
        ParseErrorView,
    > {
        terminal_outcome(Self::label(), |token: Token| Self::accepts(token), tokens, position)
    }

    proof fn lemma_outcome_in_bounds(tokens: Seq<(Token, String)>, position: int) {
    }

    open spec fn stops_at(node: Self, tokens: Seq<(Token, String)>, end: int) -> bool {
        true
    }

    proof fn lemma_parses_back(node: Self, tokens: Seq<(Token, String)>, position: int) {
        lemma_first_leaf(node.leaves(), tokens, position);
    }

    fn parse(buffer: &mut ParseBuffer) -> (r: Result<Self, ParseError>) {
        match match_terminal(buffer, Kind::Comma) {
            Ok((token, lexeme)) => {
                let node = Comma { token, lexeme };
                assert(node.leaves() =~= old(buffer).tokens().subrange(
                    old(buffer).position(),
                    old(buffer).position() + 1,
                ));
                Ok(node)
            },
            Err(error) => Err(error),
        }
    }
}

impl Consuming for Comma {
    proof fn lemma_outcome_advances(tokens: Seq<(Token, String)>, position: int) {
    }
}

/// The symbol `{`.
#[derive(Clone, Debug)]
pub struct LeftCurly {
    pub token: Token,
    pub lexeme: String,
}

impl LeftCurly {
    /// The tokens that this rule takes.
    pub open spec fn accepts(token: Token) -> bool {
        token == Token::Symbol(Symbol::LeftCurly)
    }
}

impl ParseDisplay for LeftCurly {
    open spec fn shaped(&self) -> bool {
        Self::accepts(self.token)
    }

    open spec fn leaves(&self) -> Seq<(Token, String)> {
        seq![(self.token, self.lexeme)]
    }

    open spec fn label() -> Seq<char> {
        "{"@
    }

    open spec fn depth_below() -> nat {
        0
    }

    open spec fn rendering(&self, depth: nat, label: Option<Seq<char>>) -> Seq<Seq<char>> {
        seq![headline(depth, label_or(label, Self::label()), self.lexeme@)]
    }

    fn lexemes(&self) -> (pairs: Vec<(Token, String)>) {
        leaf(self.token, &self.lexeme)
    }

    fn lexeme_signature(&self) -> (sigg: String) {
        join_lexemes(&self.lexemes())
    }

    fn parse_label() -> (label: String) {
        Kind::LeftCurly.label_text()
    }

    fn display(&self, depth: usize, label: Option<String>) -> (lines: Vec<String>) {
        render_terminal(Kind::LeftCurly, depth, label, &self.lexeme)
    }
}

impl Parse for LeftCurly {
    open spec fn outcome(tokens: Seq<(Token, String)>, position: int) -> Result<
        int,
        ParseErrorView,
    > {
        terminal_outcome(Self::label(), |token: Token| Self::accepts(token), tokens, position)
    }

    proof fn lemma_outcome_in_bounds(tokens: Seq<(Token, String)>, position: int) {
    }

    open spec fn stops_at(node: Self, tokens: Seq<(Token, String)>, end: int) -> bool {
        true
    }

    proof fn lemma_parses_back(node: Self, tokens: Seq<(Token, String)>, position: int) {
        lemma_first_leaf(node.leaves(), tokens, position);
    }

    fn parse(buffer: &mut ParseBuffer) -> (r: Result<Self, ParseError>) {
        match match_terminal(buffer, Kind::LeftCurly) {
            Ok((token, lexeme)) => {
                let node = LeftCurly { token, lexeme };
                assert(node.leaves() =~= old(buffer).tokens().subrange(
                    old(buffer).position(),
                    old(buffer).position() + 1,
                ));
                Ok(node)
            },
            Err(error) => Err(error),
        }
    }
}

impl Consuming for LeftCurly {
    proof fn lemma_outcome_advances(tokens: Seq<(Token, String)>, position: int) {
    }
}

/// The symbol `}`.
#[derive(Clone, Debug)]
pub struct RightCurly {
    pub token: Token,
    pub lexeme: String,
}

impl RightCurly {
    /// The tokens that this rule takes.
    pub open spec fn accepts(token: Token) -> bool {
        token == Token::Symbol(Symbol::RightCurly)
    }
}

impl ParseDisplay for RightCurly {
    open spec fn shaped(&self) -> bool {
        Self::accepts(self.token)
    }

    open spec fn leaves(&self) -> Seq<(Token, String)> {
        seq![(self.token, self.lexeme)]
    }

    open spec fn label() -> Seq<char> {
        "}"@
    }

    open spec fn depth_below() -> nat {
        0
    }

    open spec fn rendering(&self, depth: nat, label: Option<Seq<char>>) -> Seq<Seq<char>> {
        seq![headline(depth, label_or(label, Self::label()), self.lexeme@)]
    }

    fn lexemes(&self) -> (pairs: Vec<(Token, String)>) {
        leaf(self.token, &self.lexeme)
    }

    fn lexeme_signature(&self) -> (sigg: String) {
        join_lexemes(&self.lexemes())
    }

    fn parse_label() -> (label: String) {
        Kind::RightCurly.label_text()
    }

    fn display(&self, depth: usize, label: Option<String>) -> (lines: Vec<String>) {
        render_terminal(Kind::RightCurly, depth, label, &self.lexeme)
    }
}

impl Parse for RightCurly {
    open spec fn outcome(tokens: Seq<(Token, String)>, position: int) -> Result<
        int,
        ParseErrorView,
    > {
        terminal_outcome(Self::label(), |token: Token| Self::accepts(token), tokens, position)
    }

    proof fn lemma_outcome_in_bounds(tokens: Seq<(Token, String)>, position: int) {
    }

    open spec fn stops_at(node: Self, tokens: Seq<(Token, String)>, end: int) -> bool {
        true
    }

    proof fn lemma_parses_back(node: Self, tokens: Seq<(Token, String)>, position: int) {
        lemma_first_leaf(node.leaves(), tokens, position);
    }

    fn parse(buffer: &mut ParseBuffer) -> (r: Result<Self, ParseError>) {
        match match_terminal(buffer, Kind::RightCurly) {
            Ok((token, lexeme)) => {
                let node = RightCurly { token, lexeme };
                assert(node.leaves() =~= old(buffer).tokens().subrange(
                    old(buffer).position(),
                    old(buffer).position() + 1,
                ));
                Ok(node)
            },
            Err(error) => Err(error),
        }
    }
}

impl Consuming for RightCurly {
    proof fn lemma_outcome_advances(tokens: Seq<(Token, String)>, position: int) {
    }
}

} // verus!
