//! Lexical analysis: a byte classifier and the state machine that groups
//! bytes into tagged lexemes.

use vstd::prelude::*;
use crate::lexemes::all_well_spelled;
use crate::lexemes::coherent;
use crate::lexemes::lemma_lex_spells_well;
use crate::lexemes::lemma_step_spells_well;

verus! {

/// All the single-character punctuation symbols.
#[derive(Clone, Copy, Debug, PartialEq, Eq, Structural)]
pub enum Symbol {
    Plus,
    Minus,
    Multiply,
    Divide,
    Equal,
    Semicolon,
    LeftParen,
    RightParen,
    LeftCurly,
    RightCurly,
    Underscore,
    Comma,
    Period,
}

/// A type keyword.
#[derive(Clone, Copy, Debug, PartialEq, Eq, Structural)]
pub enum Type {
    Int,
    Float,
}

/// The tag that classifies a lexeme for the syntactical analysis.
#[derive(Clone, Copy, Debug, PartialEq, Eq, Structural)]
pub enum Token {
    LiteralInt,
    LiteralFloat,
    Identifier,
    Symbol(Symbol),
    Type(Type),
    Return,
}

impl From<Symbol> for Token {
    /// The token of a punctuation symbol.
    fn from(sym: Symbol) -> (token: Token) {
        Token::Symbol(sym)
    }
}

impl vstd::std_specs::convert::FromSpecImpl<Symbol> for Token {
    open spec fn obeys_from_spec() -> bool {
        true
    }

    open spec fn from_spec(sym: Symbol) -> Token {
        Token::Symbol(sym)
    }
}

impl From<Type> for Token {
    /// The token of a type keyword.
    fn from(ty: Type) -> (token: Token) {
        Token::Type(ty)
    }
}

impl vstd::std_specs::convert::FromSpecImpl<Type> for Token {
    open spec fn obeys_from_spec() -> bool {
        true
    }

    open spec fn from_spec(ty: Type) -> Token {
        Token::Type(ty)
    }
}

/// The group a byte belongs to.
#[derive(Clone, Copy, Debug, PartialEq, Eq, Structural)]
pub enum CharClass {
    /// `[a-zA-Z]`
    Letter,
    /// `[0-9]`
    Digit,
    /// One of `+ - * / = ; ( ) { } _ , .`
    Symbol(Symbol),
    /// Anything else.
    Unknown,
}

/// The punctuation symbol a byte stands for, if any.
pub open spec fn symbol_of(c: u8) -> Option<Symbol> {
    if c == 0x2B {
        Some(Symbol::Plus)
    } else if c == 0x2D {
        Some(Symbol::Minus)
    } else if c == 0x2A {
        Some(Symbol::Multiply)
    } else if c == 0x2F {
        Some(Symbol::Divide)
    } else if c == 0x3D {
        Some(Symbol::Equal)
    } else if c == 0x3B {
        Some(Symbol::Semicolon)
    } else if c == 0x28 {
        Some(Symbol::LeftParen)
    } else if c == 0x29 {
        Some(Symbol::RightParen)
    } else if c == 0x7B {
        Some(Symbol::LeftCurly)
    } else if c == 0x7D {
        Some(Symbol::RightCurly)
    } else if c == 0x5F {
        Some(Symbol::Underscore)
    } else if c == 0x2C {
        Some(Symbol::Comma)
    } else if c == 0x2E {
        Some(Symbol::Period)
    } else {
        None
    }
}

/// Whether a byte is an ASCII letter.
pub open spec fn is_letter(c: u8) -> bool {
    (0x41 <= c <= 0x5A) || (0x61 <= c <= 0x7A)
}

/// Whether a byte is an ASCII decimal digit.
pub open spec fn is_digit(c: u8) -> bool {
    0x30 <= c <= 0x39
}

/// The class of a byte. Bytes outside `0x21..=0x7E` are always `Unknown`.
pub open spec fn classify(c: u8) -> CharClass {
    if is_letter(c) {
        CharClass::Letter
    } else if is_digit(c) {
        CharClass::Digit
    } else {
        match symbol_of(c) {
            Some(sym) => CharClass::Symbol(sym),
            None => CharClass::Unknown,
        }
    }
}

/// The whitespace set: tab, LF, VT, FF, CR and space.
pub open spec fn whitespace(c: u8) -> bool {
    c == 0x9 || c == 0xA || c == 0xB || c == 0xC || c == 0xD || c == 0x20
}

impl CharClass {
    /// Classifies a byte, expecting a 7-bit ASCII code.
    pub fn parse(c: u8) -> (class: CharClass)
        ensures
            class == classify(c),
            (c < 0x21 || 0x7E < c) ==> class == CharClass::Unknown,
    {
        if c < 0x21 || 0x7E < c {
            return CharClass::Unknown;
        }
        match c {
            0x2B => CharClass::Symbol(Symbol::Plus),
            0x2D => CharClass::Symbol(Symbol::Minus),
            0x2A => CharClass::Symbol(Symbol::Multiply),
            0x2F => CharClass::Symbol(Symbol::Divide),
            0x3D => CharClass::Symbol(Symbol::Equal),
            0x3B => CharClass::Symbol(Symbol::Semicolon),
            0x28 => CharClass::Symbol(Symbol::LeftParen),
            0x29 => CharClass::Symbol(Symbol::RightParen),
            0x7B => CharClass::Symbol(Symbol::LeftCurly),
            0x7D => CharClass::Symbol(Symbol::RightCurly),
            0x5F => CharClass::Symbol(Symbol::Underscore),
            0x2C => CharClass::Symbol(Symbol::Comma),
            0x2E => CharClass::Symbol(Symbol::Period),
            _ => {
                if 0x30 <= c && c <= 0x39 {
                    CharClass::Digit
                } else if (0x41 <= c && c <= 0x5A) || (0x61 <= c && c <= 0x7A) {
                    CharClass::Letter
                } else {
                    CharClass::Unknown
                }
            },
        }
    }

}

impl From<Symbol> for CharClass {
    /// The class of a punctuation symbol.
    fn from(sym: Symbol) -> (class: CharClass) {
        CharClass::Symbol(sym)
    }
}

impl vstd::std_specs::convert::FromSpecImpl<Symbol> for CharClass {
    open spec fn obeys_from_spec() -> bool {
        true
    }

    open spec fn from_spec(sym: Symbol) -> CharClass {
        CharClass::Symbol(sym)
    }
}

/// Returns `true` for the ASCII whitespace characters.
pub fn is_whitespace(c: u8) -> (b: bool)
    ensures
        b == whitespace(c),
{
    match c {
        0x9 | 0xA | 0xB | 0xC | 0xD | 0x20 => true,
        _ => false,
    }
}

/// Compares a character and a byte for equality of their code points.
pub fn matches(control: char, test: u8) -> (b: bool)
    ensures
        b == (control == test as char),
{
    (control as u32) == (test as u32)
}

/// All the states of the lexical state machine.
///
/// Each reserved word (`int`, `float`, `return`) has one state per
/// character position, so that a word that merely starts like a keyword
/// falls back to an identifier.
#[derive(Clone, Copy, Debug, PartialEq, Eq, Structural)]
pub enum State {
    /// Skipping whitespace; no lexeme is pending.
    ScrollToNext,
    /// Inside the integer part of a number.
    NumberDigit,
    /// After the `.` of a number.
    NumberFloat,
    /// Inside a word that is no keyword.
    Identifier,
    MaybeTypeInt2,
    MaybeTypeInt3,
    ConfirmTypeInt,
    MaybeTypeFloat2,
    MaybeTypeFloat3,
    MaybeTypeFloat4,
    MaybeTypeFloat5,
    ConfirmTypeFloat,
    MaybeKeywordReturn2,
    MaybeKeywordReturn3,
    MaybeKeywordReturn4,
    MaybeKeywordReturn5,
    MaybeKeywordReturn6,
    ConfirmKeywordReturn,
}

/// What a state machine holds: its state and the lexeme in progress.
pub struct Machine {
    pub state: State,
    pub lexeme: Seq<char>,
}

/// A lexical error, as a mathematical value.
pub enum LexErrorView {
    UnknownCharacter { byte: u8 },
    UnexpectedCharacter { byte: u8, after: Seq<char> },
}

/// Why a byte could not be taken.
#[derive(Debug)]
pub enum LexError {
    /// A byte outside the supported character set, met between lexemes.
    UnknownCharacter { byte: u8 },
    /// A byte that cannot follow the lexeme in progress, `after`.
    UnexpectedCharacter { byte: u8, after: String },
}

impl View for LexError {
    type V = LexErrorView;

    open spec fn view(&self) -> LexErrorView {
        match *self {
            LexError::UnknownCharacter { byte } => LexErrorView::UnknownCharacter { byte },
            LexError::UnexpectedCharacter { byte, after } => LexErrorView::UnexpectedCharacter {
                byte,
                after: after@,
            },
        }
    }
}

/// The state a word is in after its first letter.
pub open spec fn first_letter_state(c: u8) -> State {
    if c == 0x69 {
        State::MaybeTypeInt2
    } else if c == 0x66 {
        State::MaybeTypeFloat2
    } else if c == 0x72 {
        State::MaybeKeywordReturn2
    } else {
        State::Identifier
    }
}

/// For a state inside a reserved word: the letter that continues the word,
/// and the state it leads to.
pub open spec fn keyword_step(s: State) -> Option<(u8, State)> {
    match s {
        State::MaybeTypeInt2 => Some((0x6Eu8, State::MaybeTypeInt3)),
        State::MaybeTypeInt3 => Some((0x74u8, State::ConfirmTypeInt)),
        State::MaybeTypeFloat2 => Some((0x6Cu8, State::MaybeTypeFloat3)),
        State::MaybeTypeFloat3 => Some((0x6Fu8, State::MaybeTypeFloat4)),
        State::MaybeTypeFloat4 => Some((0x61u8, State::MaybeTypeFloat5)),
        State::MaybeTypeFloat5 => Some((0x74u8, State::ConfirmTypeFloat)),
        State::MaybeKeywordReturn2 => Some((0x65u8, State::MaybeKeywordReturn3)),
        State::MaybeKeywordReturn3 => Some((0x74u8, State::MaybeKeywordReturn4)),
        State::MaybeKeywordReturn4 => Some((0x75u8, State::MaybeKeywordReturn5)),
        State::MaybeKeywordReturn5 => Some((0x72u8, State::MaybeKeywordReturn6)),
        State::MaybeKeywordReturn6 => Some((0x6Eu8, State::ConfirmKeywordReturn)),
        _ => None,
    }
}

/// The state of a word after one more letter.
pub open spec fn letter_state(s: State, c: u8) -> State {
    match keyword_step(s) {
        Some((expected, next)) => if c == expected {
            next
        } else {
            State::Identifier
        },
        None => State::Identifier,
    }
}

/// Whether a state is one of the two numeric states.
pub open spec fn numeric(s: State) -> bool {
    s == State::NumberDigit || s == State::NumberFloat
}

/// The token under which the pending lexeme is emitted when it ends in
/// state `s`: a keyword only from its confirming state.
pub open spec fn pending_token(s: State) -> Token {
    match s {
        State::NumberDigit => Token::LiteralInt,
        State::NumberFloat => Token::LiteralFloat,
        State::ConfirmTypeInt => Token::Type(Type::Int),
        State::ConfirmTypeFloat => Token::Type(Type::Float),
        State::ConfirmKeywordReturn => Token::Return,
        _ => Token::Identifier,
    }
}

/// What one byte does to the machine.
pub enum Move {
    /// Whitespace between lexemes: nothing happens.
    Skip,
    /// The byte joins the lexeme, and the machine enters the given state.
    Extend(State),
    /// Whitespace ends the pending lexeme.
    Flush,
    /// A punctuation symbol ends the pending lexeme, if there is one, and is
    /// emitted itself.
    Punctuate(Symbol),
    /// An unsupported byte between lexemes.
    Unknown,
    /// A byte that cannot follow the pending lexeme.
    Unexpected,
}

/// The move that byte `c` causes in state `s`, by the class of the byte.
pub open spec fn transition(s: State, c: u8) -> Move {
    if whitespace(c) {
        if s == State::ScrollToNext {
            Move::Skip
        } else {
            Move::Flush
        }
    } else {
        match classify(c) {
            CharClass::Unknown => if s == State::ScrollToNext {
                Move::Unknown
            } else {
                Move::Unexpected
            },
            CharClass::Letter => if s == State::ScrollToNext {
                Move::Extend(first_letter_state(c))
            } else if numeric(s) {
                Move::Unexpected
            } else {
                Move::Extend(letter_state(s, c))
            },
            CharClass::Digit => if s == State::ScrollToNext || s == State::NumberDigit {
                Move::Extend(State::NumberDigit)
            } else if s == State::NumberFloat {
                Move::Extend(State::NumberFloat)
            } else {
                Move::Extend(State::Identifier)
            },
            CharClass::Symbol(Symbol::Underscore) => if numeric(s) {
                Move::Punctuate(Symbol::Underscore)
            } else {
                Move::Extend(State::Identifier)
            },
            CharClass::Symbol(Symbol::Period) => if s == State::NumberDigit {
                Move::Extend(State::NumberFloat)
            } else if s == State::NumberFloat {
                Move::Unexpected
            } else {
                Move::Punctuate(Symbol::Period)
            },
            CharClass::Symbol(sym) => Move::Punctuate(sym),
        }
    }
}

/// The machine at rest: no lexeme pending.
pub open spec fn idle() -> Machine {
    Machine { state: State::ScrollToNext, lexeme: Seq::empty() }
}

/// One step of the machine: the machine after byte `c` and the completed
/// (token, lexeme) pairs, or the error, in which case nothing is emitted.
pub open spec fn step(m: Machine, c: u8) -> Result<
    (Machine, Seq<(Token, Seq<char>)>),
    LexErrorView,
> {
    match transition(m.state, c) {
        Move::Skip => Ok((m, Seq::empty())),
        Move::Extend(next) => Ok(
            (Machine { state: next, lexeme: m.lexeme.push(c as char) }, Seq::empty()),
        ),
        Move::Flush => Ok((idle(), seq![(pending_token(m.state), m.lexeme)])),
        Move::Punctuate(sym) => if m.state == State::ScrollToNext {
            Ok((idle(), seq![(Token::Symbol(sym), seq![c as char])]))
        } else {
            Ok(
                (
                    idle(),
                    seq![(pending_token(m.state), m.lexeme), (Token::Symbol(sym), seq![c as char])],
                ),
            )
        },
        Move::Unknown => Err(LexErrorView::UnknownCharacter { byte: c }),
        Move::Unexpected => Err(LexErrorView::UnexpectedCharacter { byte: c, after: m.lexeme }),
    }
}

/// The (token, lexeme text) pairs of a token stream.
pub open spec fn texts(tokens: Seq<(Token, String)>) -> Seq<(Token, Seq<char>)> {
    Seq::new(tokens.len(), |i: int| (tokens[i].0, tokens[i].1@))
}

/// The pairs that a step handed out: none where it returned `None` or
/// failed.
pub open spec fn emitted(r: Result<Option<Vec<(Token, String)>>, LexError>) -> Seq<
    (Token, Seq<char>),
> {
    match r {
        Ok(Some(v)) => texts(v@),
        _ => Seq::empty(),
    }
}

/// `String::push` appends the given character to the string's text and
/// changes nothing else of it.
pub assume_specification[ String::push ](s: &mut String, ch: char)
    ensures
        final(s)@ == old(s)@.push(ch),
;

/// The lexical state machine: a state and the lexeme accumulated so far.
pub struct StateMachine {
    state: State,
    lexeme: String,
}

impl View for StateMachine {
    type V = Machine;

    closed spec fn view(&self) -> Machine {
        Machine { state: self.state, lexeme: self.lexeme@ }
    }
}

impl StateMachine {
    /// Hard resets the state machine: erases the lexeme and goes to the
    /// initial state.
    pub fn reset(&mut self)
        ensures
            final(self)@ == idle(),
    {
        self.state = State::ScrollToNext;
        self.lexeme = String::new();
    }

    /// Creates a state machine that expects zero or more whitespace, with
    /// an empty lexeme buffer.
    pub fn new() -> (machine: StateMachine)
        ensures
            machine@ == idle(),
    {
        StateMachine { state: State::ScrollToNext, lexeme: String::new() }
    }

    /// The text of a single-byte lexeme.
    fn symbol_text(c: u8) -> (text: String)
        ensures
            text@ == seq![c as char],
    {
        let mut text = String::new();
        text.push(c as char);
        assert(text@ =~= seq![c as char]);
        text
    }

    /// Ends the pending lexeme under `token` and resets the machine.
    fn flush_lexeme(&mut self, token: Token) -> (out: Option<Vec<(Token, String)>>)
        ensures
            final(self)@ == idle(),
            emitted(Ok(out)) == seq![(token, old(self)@.lexeme)],
            out is Some,
    {
        let mut output: Vec<(Token, String)> = Vec::new();
        output.push((token, self.lexeme.clone()));
        self.reset();
        assert(texts(output@) =~= seq![(token, old(self)@.lexeme)]);
        Some(output)
    }

    /// Emits the symbol `sym`, read from byte `c`, and resets the machine.
    fn flush_symbol(&mut self, sym: Symbol, c: u8) -> (out: Option<Vec<(Token, String)>>)
        ensures
            final(self)@ == idle(),
            emitted(Ok(out)) == seq![(Token::Symbol(sym), seq![c as char])],
            out is Some,
    {
        let mut output: Vec<(Token, String)> = Vec::new();
        output.push((Token::from(sym), Self::symbol_text(c)));
        self.reset();
        assert(texts(output@) =~= seq![(Token::Symbol(sym), seq![c as char])]);
        Some(output)
    }

    /// Ends the pending lexeme under `token`, emits the symbol `sym` after
    /// it, and resets the machine.
    fn flush_lexeme_and_symbol(&mut self, token: Token, sym: Symbol, c: u8) -> (out: Option<
        Vec<(Token, String)>,
    >)
        ensures
            final(self)@ == idle(),
            emitted(Ok(out)) == seq![
                (token, old(self)@.lexeme),
                (Token::Symbol(sym), seq![c as char]),
            ],
            out is Some,
    {
        let mut output: Vec<(Token, String)> = Vec::new();
        output.push((token, self.lexeme.clone()));
        output.push((Token::from(sym), Self::symbol_text(c)));
        self.reset();
        assert(texts(output@) =~= seq![
            (token, old(self)@.lexeme),
            (Token::Symbol(sym), seq![c as char]),
        ]);
        Some(output)
    }

    /// The error for a byte that cannot follow the pending lexeme.
    fn unexpected(&self, c: u8) -> (e: LexError)
        ensures
            e@ == (LexErrorView::UnexpectedCharacter { byte: c, after: self@.lexeme }),
    {
        LexError::UnexpectedCharacter { byte: c, after: self.lexeme.clone() }
    }

    /// Takes byte `c` into the lexeme and enters `next`.
    fn extend(&mut self, c: u8, next: State)
        ensures
            final(self)@ == (Machine { state: next, lexeme: old(self)@.lexeme.push(c as char) }),
    {
        self.state = next;
        self.lexeme.push(c as char);
    }

    /// A step from inside a word. `advance` is the letter that continues the
    /// reserved word under way, with the state it leads to; `token` is what
    /// the word is if it ends here.
    fn tick_word(&mut self, c: u8, advance: Option<(char, State)>, token: Token) -> (r: Result<
        Option<Vec<(Token, String)>>,
        LexError,
    >)
        requires
            old(self)@.state != State::ScrollToNext,
            !numeric(old(self)@.state),
            token == pending_token(old(self)@.state),
            match keyword_step(old(self)@.state) {
                Some((expected, next)) => advance == Some((expected as char, next)),
                None => advance is None,
            },
        ensures
            Self::step_taken(old(self)@, c, final(self)@, r),
    {
        if is_whitespace(c) {
            return Ok(self.flush_lexeme(token));
        }
        match CharClass::parse(c) {
            CharClass::Letter => {
                let next = match advance {
                    Some((expected, next)) => if matches(expected, c) {
                        next
                    } else {
                        State::Identifier
                    },
                    None => State::Identifier,
                };
                self.extend(c, next);
                Ok(None)
            },
            CharClass::Digit | CharClass::Symbol(Symbol::Underscore) => {
                self.extend(c, State::Identifier);
                Ok(None)
            },
            CharClass::Symbol(sym) => Ok(self.flush_lexeme_and_symbol(token, sym, c)),
            CharClass::Unknown => Err(self.unexpected(c)),
        }
    }

    /// A step from inside a number. `token` is what the number is if it ends
    /// here.
    fn tick_number(&mut self, c: u8, token: Token) -> (r: Result<
        Option<Vec<(Token, String)>>,
        LexError,
    >)
        requires
            numeric(old(self)@.state),
            token == pending_token(old(self)@.state),
        ensures
            Self::step_taken(old(self)@, c, final(self)@, r),
    {
        if is_whitespace(c) {
            return Ok(self.flush_lexeme(token));
        }
        match CharClass::parse(c) {
            CharClass::Digit => {
                let same = self.state;
                self.extend(c, same);
                Ok(None)
            },
            CharClass::Symbol(Symbol::Period) => {
                match self.state {
                    State::NumberDigit => {
                        self.extend(c, State::NumberFloat);
                        Ok(None)
                    },
                    _ => Err(self.unexpected(c)),
                }
            },
            CharClass::Symbol(sym) => Ok(self.flush_lexeme_and_symbol(token, sym, c)),
            _ => Err(self.unexpected(c)),
        }
    }

    /// A step from between lexemes.
    fn tick_idle(&mut self, c: u8) -> (r: Result<Option<Vec<(Token, String)>>, LexError>)
        requires
            old(self)@.state == State::ScrollToNext,
        ensures
            Self::step_taken(old(self)@, c, final(self)@, r),
    {
        if is_whitespace(c) {
            return Ok(None);
        }
        match CharClass::parse(c) {
            CharClass::Letter => {
                let next = if matches('i', c) {
                    State::MaybeTypeInt2
                } else if matches('f', c) {
                    State::MaybeTypeFloat2
                } else if matches('r', c) {
                    State::MaybeKeywordReturn2
                } else {
                    State::Identifier
                };
                self.extend(c, next);
                Ok(None)
            },
            CharClass::Symbol(Symbol::Underscore) => {
                self.extend(c, State::Identifier);
                Ok(None)
            },
            CharClass::Digit => {
                self.extend(c, State::NumberDigit);
                Ok(None)
            },
            CharClass::Symbol(sym) => Ok(self.flush_symbol(sym, c)),
            CharClass::Unknown => Err(LexError::UnknownCharacter { byte: c }),
        }
    }

    /// Whether going from machine `before` to `after` with result `r` is the
    /// step that byte `c` asks for: on an error the machine is unchanged, and
    /// `None` is returned exactly when no lexeme was completed.
    pub open spec fn step_taken(
        before: Machine,
        c: u8,
        after: Machine,
        r: Result<Option<Vec<(Token, String)>>, LexError>,
    ) -> bool {
        match step(before, c) {
            Ok((next, out)) => {
                &&& r matches Ok(got)
                &&& after == next
                &&& emitted(r) == out
                &&& (got is None <==> out.len() == 0)
            },
            Err(e) => {
                &&& r matches Err(got)
                &&& got@ == e
                &&& after == before
            },
        }
    }

    /// Advances the state machine by one byte.
    ///
    /// Returns `Ok(None)` while no lexeme is complete, and `Ok(Some(..))`
    /// with one or two completed (token, lexeme) pairs, in source order, when
    /// the byte ends a lexeme or is a symbol. A byte that cannot be taken is
    /// an error, and leaves the machine as it was.
    ///
    /// A machine whose state says what its lexeme is, as every machine does
    /// that was made by `new` and driven by `tick`, stays so, and hands out
    /// only lexemes that are spelled as their tokens say.
    pub fn tick(&mut self, c: u8) -> (r: Result<Option<Vec<(Token, String)>>, LexError>)
        ensures
            Self::step_taken(old(self)@, c, final(self)@, r),
            coherent(old(self)@) ==> coherent(final(self)@) && all_well_spelled(emitted(r)),
    {
        proof {
            if coherent(self@) {
                lemma_step_spells_well(self@, c);
            }
        }
        match self.state {
            State::ScrollToNext => self.tick_idle(c),
            State::NumberDigit => self.tick_number(c, Token::LiteralInt),
            State::NumberFloat => self.tick_number(c, Token::LiteralFloat),
            State::Identifier => self.tick_word(c, None, Token::Identifier),
            State::MaybeTypeInt2 => self.tick_word(
                c,
                Some(('n', State::MaybeTypeInt3)),
                Token::Identifier,
            ),
            State::MaybeTypeInt3 => self.tick_word(
                c,
                Some(('t', State::ConfirmTypeInt)),
                Token::Identifier,
            ),
            State::ConfirmTypeInt => self.tick_word(c, None, Token::from(Type::Int)),
            State::MaybeTypeFloat2 => self.tick_word(
                c,
                Some(('l', State::MaybeTypeFloat3)),
                Token::Identifier,
            ),
            State::MaybeTypeFloat3 => self.tick_word(
                c,
                Some(('o', State::MaybeTypeFloat4)),
                Token::Identifier,
            ),
            State::MaybeTypeFloat4 => self.tick_word(
                c,
                Some(('a', State::MaybeTypeFloat5)),
                Token::Identifier,
            ),
            State::MaybeTypeFloat5 => self.tick_word(
                c,
                Some(('t', State::ConfirmTypeFloat)),
                Token::Identifier,
            ),
            State::ConfirmTypeFloat => self.tick_word(c, None, Token::from(Type::Float)),
            State::MaybeKeywordReturn2 => self.tick_word(
                c,
                Some(('e', State::MaybeKeywordReturn3)),
                Token::Identifier,
            ),
            State::MaybeKeywordReturn3 => self.tick_word(
                c,
                Some(('t', State::MaybeKeywordReturn4)),
                Token::Identifier,
            ),
            State::MaybeKeywordReturn4 => self.tick_word(
                c,
                Some(('u', State::MaybeKeywordReturn5)),
                Token::Identifier,
            ),
            State::MaybeKeywordReturn5 => self.tick_word(
                c,
                Some(('r', State::MaybeKeywordReturn6)),
                Token::Identifier,
            ),
            State::MaybeKeywordReturn6 => self.tick_word(
                c,
                Some(('n', State::ConfirmKeywordReturn)),
                Token::Identifier,
            ),
            State::ConfirmKeywordReturn => self.tick_word(c, None, Token::Return),
        }
    }

    /// Completes the state machine at the end of the input, handing out the
    /// pending lexeme if there is one: the same as a step on a line feed.
    pub fn finalize(self) -> (out: Option<Vec<(Token, String)>>)
        ensures
            step(self@, 0xA) matches Ok((_, pairs)) && emitted(Ok(out)) == pairs && (out is None
                <==> pairs.len() == 0),
            coherent(self@) ==> all_well_spelled(emitted(Ok(out))),
    {
        let mut machine = self;
        match machine.tick(0xA) {
            Ok(out) => out,
            Err(_) => None,
        }
    }
}

/// The machine driven over a whole input from rest: the machine reached and
/// every pair completed on the way, in source order; or the index of the first
/// byte that could not be taken, with its error.
pub open spec fn run(input: Seq<u8>) -> Result<
    (Machine, Seq<(Token, Seq<char>)>),
    (int, LexErrorView),
>
    decreases input.len(),
{
    if input.len() == 0 {
        Ok((idle(), Seq::empty()))
    } else {
        match run(input.drop_last()) {
            Err(e) => Err(e),
            Ok((m, done)) => match step(m, input.last()) {
                Ok((next, out)) => Ok((next, done + out)),
                Err(e) => Err((input.len() - 1, e)),
            },
        }
    }
}

/// The token stream of an input: what the machine completes over the input
/// followed by one implicit whitespace byte.
pub open spec fn lex(input: Seq<u8>) -> Result<Seq<(Token, Seq<char>)>, (int, LexErrorView)> {
    match run(input.push(0xAu8)) {
        Ok((_, done)) => Ok(done),
        Err(e) => Err(e),
    }
}

/// A failed tokenization: the index of the offending byte in the input, and
/// what was wrong with it.
#[derive(Debug)]
pub struct LexFailure {
    pub position: usize,
    pub error: LexError,
}

/// Once a byte has been refused, nothing that follows changes the outcome.
pub proof fn lemma_run_error_is_final(input: Seq<u8>, rest: Seq<u8>)
    requires
        run(input) is Err,
    ensures
        run(input + rest) == run(input),
    decreases rest.len(),
{
    if rest.len() == 0 {
        assert(input + rest =~= input);
    } else {
        lemma_run_error_is_final(input, rest.drop_last());
        assert((input + rest).drop_last() =~= input + rest.drop_last());
    }
}

/// The run over an input with one more byte is one step from the run over
/// the input.
pub proof fn lemma_run_push(input: Seq<u8>, c: u8)
    ensures
        run(input.push(c)) == match run(input) {
            Err(e) => Err(e),
            Ok((m, done)) => match step(m, c) {
                Ok((next, out)) => Ok((next, done + out)),
                Err(e) => Err((input.len() as int, e)),
            },
        },
{
    assert(input.push(c).drop_last() =~= input);
}

/// One whitespace byte at the end of an input changes nothing.
proof fn lemma_one_trailing_whitespace(input: Seq<u8>, w: u8)
    requires
        whitespace(w),
    ensures
        lex(input.push(w)) == lex(input),
{
    lemma_run_push(input, w);
    lemma_run_push(input, 0xAu8);
    lemma_run_push(input.push(w), 0xAu8);
    match run(input) {
        Err(e) => {},
        Ok((m, done)) => {
            if m.state == State::ScrollToNext {
                assert(done + Seq::<(Token, Seq<char>)>::empty() =~= done);
            } else {
                let flushed = seq![(pending_token(m.state), m.lexeme)];
                assert(step(m, w) == Ok::<_, LexErrorView>((idle(), flushed)));
                assert(step(m, 0xAu8) == Ok::<_, LexErrorView>((idle(), flushed)));
                assert((done + flushed) + Seq::<(Token, Seq<char>)>::empty() =~= done + flushed);
            }
        },
    }
}

/// Trailing whitespace is invisible: appending whitespace bytes to an input
/// changes neither its token stream nor the error it fails with.
pub proof fn lemma_trailing_whitespace(input: Seq<u8>, extra: Seq<u8>)
    requires
        forall|i: int| 0 <= i < extra.len() ==> whitespace(#[trigger] extra[i]),
    ensures
        lex(input + extra) == lex(input),
    decreases extra.len(),
{
    if extra.len() == 0 {
        assert(input + extra =~= input);
    } else {
        let front = input + extra.drop_last();
        lemma_trailing_whitespace(input, extra.drop_last());
        assert(input + extra =~= front.push(extra.last()));
        lemma_one_trailing_whitespace(front, extra.last());
    }
}

/// The lexemes of a run of pairs, written one after the other.
pub open spec fn spelled(pairs: Seq<(Token, Seq<char>)>) -> Seq<char>
    decreases pairs.len(),
{
    if pairs.len() == 0 {
        Seq::empty()
    } else {
        spelled(pairs.drop_last()) + pairs.last().1
    }
}

/// The lexemes of a run of pairs joined by single spaces: one space between
/// two lexemes, none before the first or behind the last.
pub open spec fn join(pairs: Seq<(Token, Seq<char>)>) -> Seq<char>
    decreases pairs.len(),
{
    if pairs.len() == 0 {
        Seq::empty()
    } else if pairs.len() == 1 {
        pairs.last().1
    } else {
        join(pairs.drop_last()) + seq![' '] + pairs.last().1
    }
}

/// The bytes of an input that are no whitespace, as characters.
pub open spec fn visible(input: Seq<u8>) -> Seq<char>
    decreases input.len(),
{
    if input.len() == 0 {
        Seq::empty()
    } else if whitespace(input.last()) {
        visible(input.drop_last())
    } else {
        visible(input.drop_last()).push(input.last() as char)
    }
}

/// Spelling one more pair appends its lexeme.
proof fn lemma_spelled_push(pairs: Seq<(Token, Seq<char>)>, pair: (Token, Seq<char>))
    ensures
        spelled(pairs.push(pair)) == spelled(pairs) + pair.1,
{
    assert(pairs.push(pair).drop_last() =~= pairs);
}

/// At every point of a run, the completed lexemes followed by the lexeme in
/// progress are the visible bytes read so far; between lexemes nothing is
/// in progress.
pub proof fn lemma_run_keeps_visible_bytes(input: Seq<u8>)
    ensures
        run(input) matches Ok((m, done)) ==> {
            &&& spelled(done) + m.lexeme == visible(input)
            &&& (m.state == State::ScrollToNext ==> m.lexeme == Seq::<char>::empty())
        },
    decreases input.len(),
{
    if input.len() == 0 {
        assert(spelled(Seq::empty()) + Seq::<char>::empty() =~= visible(input));
    } else {
        let front = input.drop_last();
        let c = input.last();
        lemma_run_keeps_visible_bytes(front);
        if let Ok((m, done)) = run(front) {
            if let Ok((next, out)) = step(m, c) {
                let first = (pending_token(m.state), m.lexeme);
                let symbol_text = seq![c as char];
                match transition(m.state, c) {
                    Move::Skip => {
                        assert(done + out =~= done);
                    },
                    Move::Extend(_) => {
                        assert(done + out =~= done);
                        assert(spelled(done) + m.lexeme.push(c as char) =~= (spelled(done)
                            + m.lexeme).push(c as char));
                    },
                    Move::Flush => {
                        assert(done + out =~= done.push(first));
                        lemma_spelled_push(done, first);
                        assert(spelled(done.push(first)) + Seq::<char>::empty() =~= spelled(done)
                            + m.lexeme);
                    },
                    Move::Punctuate(sym) => {
                        let second = (Token::Symbol(sym), symbol_text);
                        if m.state == State::ScrollToNext {
                            assert(done + out =~= done.push(second));
                            lemma_spelled_push(done, second);
                            assert(spelled(done.push(second)) + Seq::<char>::empty() =~= (spelled(
                                done,
                            ) + m.lexeme).push(c as char));
                        } else {
                            assert(done + out =~= done.push(first).push(second));
                            lemma_spelled_push(done, first);
                            lemma_spelled_push(done.push(first), second);
                            assert(spelled(done.push(first).push(second)) + Seq::<char>::empty()
                                =~= (spelled(done) + m.lexeme).push(c as char));
                        }
                    },
                    _ => {},
                }
            }
        }
    }
}

/// The lexemes of a token stream, written one after the other, are the
/// input without its whitespace: tokenizing loses nothing else and adds
/// nothing.
pub proof fn lemma_lex_spells_visible_bytes(input: Seq<u8>)
    ensures
        lex(input) matches Ok(pairs) ==> spelled(pairs) == visible(input),
{
    lemma_run_push(input, 0xAu8);
    lemma_run_keeps_visible_bytes(input);
    if let Ok((m, done)) = run(input) {
        if m.state == State::ScrollToNext {
            assert(done + Seq::<(Token, Seq<char>)>::empty() =~= done);
            assert(spelled(done) + Seq::<char>::empty() =~= spelled(done));
        } else {
            let last = (pending_token(m.state), m.lexeme);
            assert(done + seq![last] =~= done.push(last));
            lemma_spelled_push(done, last);
        }
    }
}

/// Tokenizes a whole input: drives a fresh state machine over every byte and
/// completes it at the end.
///
/// The result is the ordered token stream, or the first byte that could not
/// be taken; after an error no part of the stream is handed out. Every
/// lexeme of the stream is spelled as its token says.
pub fn get_lexemes(input: &[u8]) -> (r: Result<Vec<(Token, String)>, LexFailure>)
    ensures
        match lex(input@) {
            Ok(pairs) => r matches Ok(tokens) && texts(tokens@) == pairs,
            Err((position, e)) => r matches Err(failure) && failure.position == position
                && failure.error@ == e,
        },
        r matches Ok(tokens) ==> all_well_spelled(texts(tokens@)),
{
    let mut machine = StateMachine::new();
    let mut tokens: Vec<(Token, String)> = Vec::new();
    let mut i: usize = 0;
    assert(input@.take(0) =~= Seq::<u8>::empty());
    assert(texts(tokens@) =~= Seq::<(Token, Seq<char>)>::empty());
    while i < input.len()
        invariant
            i <= input.len(),
            run(input@.take(i as int)) == Ok::<_, (int, LexErrorView)>(
                (machine@, texts(tokens@)),
            ),
        decreases input.len() - i,
    {
        let ghost before = tokens@;
        proof {
            assert(input@.take(i + 1).drop_last() =~= input@.take(i as int));
            assert(input@.take(i + 1).last() == input@[i as int]);
        }
        match machine.tick(input[i]) {
            Ok(Some(mut out)) => {
                let ghost added = out@;
                tokens.append(&mut out);
                assert(texts(tokens@) =~= texts(before) + texts(added));
            },
            Ok(None) => {
                assert(texts(before) + Seq::<(Token, Seq<char>)>::empty() =~= texts(before));
            },
            Err(error) => {
                proof {
                    let rest = input@.skip(i + 1).push(0xAu8);
                    lemma_run_error_is_final(input@.take(i + 1), rest);
                    assert(input@.take(i + 1) + rest =~= input@.push(0xAu8));
                }
                return Err(LexFailure { position: i, error });
            },
        }
        i += 1;
    }
    proof {
        assert(input@.take(i as int) =~= input@);
        assert(input@.push(0xAu8).drop_last() =~= input@);
    }
    let ghost before = tokens@;
    match machine.finalize() {
        Some(mut out) => {
            let ghost added = out@;
            tokens.append(&mut out);
            assert(texts(tokens@) =~= texts(before) + texts(added));
        },
        None => {
            assert(texts(before) + Seq::<(Token, Seq<char>)>::empty() =~= texts(before));
        },
    }
    proof {
        lemma_lex_spells_well(input@);
    }
    Ok(tokens)
}

} // verus!
