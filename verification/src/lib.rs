//! A lexer and a backtracking recursive-descent parser for a minimal
//! C-like language, verified with Verus.
//!
//! The library works in two stages. The [`lexer`] groups source bytes into
//! (token, lexeme) pairs with a state machine that reads one byte at a
//! time. The parser reads the pairs through a [`ParseBuffer`], a position
//! that is forked for every attempt and written back only on success, and
//! builds a tree of the rules in [`terminals`], [`non_terminals`] and
//! [`modulars`]. Every node of the tree can render itself as indented lines
//! and give the signature of the lexemes under it.
//!
//! # Models
//!
//! - A token stream is a `Seq<(Token, String)>`; the text of a lexeme is the
//!   view of its string.
//! - The tokenizer is the function `lexer::lex` from bytes to pairs, defined
//!   by folding `lexer::step` over the input and one implicit whitespace
//!   byte.
//! - A rule is the function `Parse::outcome` from a token stream and a
//!   position to the position behind the rule, or to its error. A node is
//!   described by its shape, `ParseDisplay::shaped`, and by the tokens under
//!   it, `ParseDisplay::leaves`.
//!
//! # Laws
//!
//! - `lexer::lemma_trailing_whitespace`: whitespace at the end of an input
//!   changes nothing.
//! - `lexemes::lemma_lex_spells_well`: every lexeme is spelled as its token
//!   says; a keyword is never an identifier, and a word that only starts
//!   like a keyword is one identifier.
//! - `lexemes::lemma_source_lexes`: every layout of well-spelled lexemes
//!   tokenizes to exactly these lexemes.
//! - `Parse::parse`: a rule that fails leaves the buffer as it was; one that
//!   succeeds returns a node of its shape whose leaves are the consumed
//!   tokens.
//! - `Parse::lemma_parses_back`: a node of a rule's shape is parsed back
//!   from its own leaves.
//! - `ParseDisplay::lexeme_signature`: a signature is the lexemes under the
//!   node joined by single spaces.
//! - `non_terminals::arithmetic_built`, `non_terminals::term_built`: the
//!   operand of an extension is the whole rest of the chain, so a chain of
//!   operators groups to the right.
//! - `non_terminals::lemma_program_round_trip`: every source text of a
//!   program of the grammar is tokenized and parsed in full, and the
//!   signature of the result is the lexemes of the text joined by single
//!   spaces.

use vstd::prelude::*;
use vstd::string::StringExecFns;
use crate::lexer::lemma_lex_spells_visible_bytes;
use crate::lexer::join;
use crate::lexer::lex;
use crate::lexer::spelled;
use crate::lexer::texts;
use crate::lexer::visible;
use crate::lexer::LexErrorView;
use crate::lexer::Token;

pub mod lexemes;
pub mod lexer;
pub mod modulars;
pub mod non_terminals;
pub mod terminals;

verus! {

/// Why a rule could not be parsed, as a mathematical value.
pub enum ParseErrorView {
    NothingFound { expected: Seq<char> },
    Mismatch { expected: Seq<char>, found: Seq<char> },
    NoAlternative { alternatives: Seq<Seq<char>>, found: Seq<char>, rule: Seq<char> },
    InList { list: Seq<char>, cause: Box<ParseErrorView> },
}

/// Why a rule could not be parsed.
#[derive(Debug)]
pub enum ParseError {
    /// The input was exhausted where the construct `expected` had to start.
    NothingFound { expected: String },
    /// The construct `expected` had to come, and the lexeme `found` came.
    Mismatch { expected: String, found: String },
    /// None of the alternatives of `rule` could be parsed where the lexeme
    /// `found` stands.
    NoAlternative { alternatives: Vec<String>, found: String, rule: String },
    /// Inside the list `list`, a part that had to come could not be parsed.
    InList { list: String, cause: Box<ParseError> },
}

/// The texts of a list of strings.
pub open spec fn views(strings: Seq<String>) -> Seq<Seq<char>> {
    Seq::new(strings.len(), |i: int| strings[i]@)
}

/// The mathematical value of an error.
pub open spec fn error_view(error: ParseError) -> ParseErrorView
    decreases error,
{
    match error {
        ParseError::NothingFound { expected } => ParseErrorView::NothingFound {
            expected: expected@,
        },
        ParseError::Mismatch { expected, found } => ParseErrorView::Mismatch {
            expected: expected@,
            found: found@,
        },
        ParseError::NoAlternative { alternatives, found, rule } => ParseErrorView::NoAlternative {
            alternatives: views(alternatives@),
            found: found@,
            rule: rule@,
        },
        ParseError::InList { list, cause } => ParseErrorView::InList {
            list: list@,
            cause: Box::new(error_view(*cause)),
        },
    }
}

impl View for ParseError {
    type V = ParseErrorView;

    open spec fn view(&self) -> ParseErrorView {
        error_view(*self)
    }
}

/// A cheaply forkable read position in a token stream.
pub struct ParseBuffer<'a> {
    tokens: &'a [(Token, String)],
    position: usize,
}

impl<'a> ParseBuffer<'a> {
    #[verifier::type_invariant]
    spec fn in_bounds(self) -> bool {
        self.position <= self.tokens@.len()
    }

    /// The token stream that is read.
    pub closed spec fn tokens(&self) -> Seq<(Token, String)> {
        self.tokens@
    }

    /// The index of the next pair to read.
    pub closed spec fn position(&self) -> int {
        self.position as int
    }

    /// A buffer at the start of `tokens`.
    pub fn new(tokens: &'a [(Token, String)]) -> (buffer: Self)
        ensures
            buffer.tokens() == tokens@,
            buffer.position() == 0,
    {
        ParseBuffer { tokens, position: 0 }
    }

    /// The next pair, without consuming it: `None` at the end of the stream.
    pub fn peek(&self) -> (pair: Option<&'a (Token, String)>)
        ensures
            self.position() < self.tokens().len() ==> pair == Some(
                &self.tokens()[self.position()],
            ),
            self.position() >= self.tokens().len() ==> pair is None,
            0 <= self.position() <= self.tokens().len(),
    {
        proof {
            use_type_invariant(self);
        }
        if self.position < self.tokens.len() {
            Some(&self.tokens[self.position])
        } else {
            None
        }
    }

    /// An independent copy of the position over the same token stream.
    pub fn fork(&self) -> (fork: Self)
        ensures
            fork == *self,
            0 <= self.position() <= self.tokens().len(),
    {
        proof {
            use_type_invariant(self);
        }
        ParseBuffer { tokens: self.tokens, position: self.position }
    }

    /// Consumes the next pair: `None`, and no move, at the end of the stream.
    pub fn next(&mut self) -> (pair: Option<&'a (Token, String)>)
        ensures
            final(self).tokens() == old(self).tokens(),
            old(self).position() < old(self).tokens().len() ==> pair == Some(
                &old(self).tokens()[old(self).position()],
            ) && final(self).position() == old(self).position() + 1,
            old(self).position() >= old(self).tokens().len() ==> pair is None && *final(self)
                == *old(self),
    {
        proof {
            use_type_invariant(&*self);
        }
        if self.position < self.tokens.len() {
            let pair = &self.tokens[self.position];
            self.position = self.position + 1;
            Some(pair)
        } else {
            None
        }
    }
}

/// The signature of a run of leaves: their lexemes in order, with exactly
/// one space between two of them, and none before the first or behind the
/// last.
pub open spec fn joined(leaves: Seq<(Token, String)>) -> Seq<char> {
    join(texts(leaves))
}

/// Joins the lexemes of a run of pairs by single spaces.
pub fn join_lexemes(pairs: &Vec<(Token, String)>) -> (text: String)
    ensures
        text@ == joined(pairs@),
{
    let mut text = String::new();
    let mut i: usize = 0;
    assert(texts(pairs@.take(0)) =~= Seq::<(Token, Seq<char>)>::empty());
    while i < pairs.len()
        invariant
            i <= pairs.len(),
            text@ == joined(pairs@.take(i as int)),
        decreases pairs.len() - i,
    {
        proof {
            let longer = texts(pairs@.take(i + 1));
            assert(longer.drop_last() =~= texts(pairs@.take(i as int)));
            assert(longer.last().1 == pairs@[i as int].1@);
        }
        if i > 0 {
            text.append(space());
        }
        text.append(pairs[i].1.as_str());
        i += 1;
    }
    assert(pairs@.take(i as int) =~= pairs@);
    text
}

/// From source bytes to signature, only whitespace changes.
///
/// Where `tokens` is the token stream of `input` and `root` is a node whose
/// leaves are the whole stream, the signature of `root` is the lexemes of
/// the token stream joined by single spaces; and these lexemes, written one
/// after the other, are the input without its whitespace.
pub proof fn lemma_signature_spells_input<T: ParseDisplay>(
    input: Seq<u8>,
    tokens: Seq<(Token, String)>,
    root: T,
)
    requires
        lex(input) == Ok::<_, (int, LexErrorView)>(texts(tokens)),
        root.leaves() == tokens,
    ensures
        joined(root.leaves()) == join(lex(input)->Ok_0),
        spelled(lex(input)->Ok_0) == visible(input),
{
    lemma_lex_spells_visible_bytes(input);
}

/// The indentation of a line at nesting depth `depth`: four spaces a level.
pub open spec fn indent(depth: nat) -> Seq<char> {
    Seq::new(4 * depth, |i: int| ' ')
}

/// A line of a rendered tree: indentation, a label, and a text behind a
/// colon.
pub open spec fn headline(depth: nat, label: Seq<char>, text: Seq<char>) -> Seq<char> {
    indent(depth) + label + seq![':', ' '] + text
}

/// A line of a rendered tree that holds only a label.
pub open spec fn bare_headline(depth: nat, label: Seq<char>) -> Seq<char> {
    indent(depth) + label + seq![':']
}

/// The label that was given, or else `default`.
pub open spec fn label_or(label: Option<Seq<char>>, default: Seq<char>) -> Seq<char> {
    match label {
        Some(given) => given,
        None => default,
    }
}

/// The text of an optional string.
pub open spec fn option_view(text: Option<String>) -> Option<Seq<char>> {
    match text {
        Some(given) => Some(given@),
        None => None,
    }
}

/// Makes the indentation for a nesting depth.
pub fn make_indent(depth: usize) -> (text: String)
    ensures
        text@ == indent(depth as nat),
{
    let mut text = String::new();
    let mut level: usize = 0;
    assert(text@ =~= indent(0));
    while level < depth
        invariant
            level <= depth,
            text@ == indent(level as nat),
        decreases depth - level,
    {
        proof {
            reveal_strlit("    ");
            assert(indent(level as nat) + "    "@ =~= indent((level + 1) as nat));
        }
        text.append("    ");
        level += 1;
    }
    text
}

/// Makes the line `label: text` at a nesting depth.
pub fn make_headline(depth: usize, label: &str, text: &str) -> (line: String)
    ensures
        line@ == headline(depth as nat, label@, text@),
{
    let mut line = make_indent(depth);
    line.append(label);
    proof {
        reveal_strlit(": ");
        assert(": "@ =~= seq![':', ' ']);
    }
    line.append(": ");
    line.append(text);
    line
}

/// Makes the line `label:` at a nesting depth.
pub fn make_bare_headline(depth: usize, label: &str) -> (line: String)
    ensures
        line@ == bare_headline(depth as nat, label@),
{
    let mut line = make_indent(depth);
    line.append(label);
    proof {
        reveal_strlit(":");
        assert(":"@ =~= seq![':']);
    }
    line.append(":");
    line
}

/// A string that holds one space.
pub fn space() -> (text: &'static str)
    ensures
        text@ == seq![' '],
{
    proof {
        reveal_strlit(" ");
        assert(" "@ =~= seq![' ']);
    }
    " "
}

/// A node of the parse tree: it knows the tokens under it and can render
/// itself.
pub trait ParseDisplay {
    /// Whether the node has the shape that its rule gives it.
    spec fn shaped(&self) -> bool;

    /// The (token, lexeme) pairs under the node, in source order.
    spec fn leaves(&self) -> Seq<(Token, String)>;

    /// The text of the label of the node's rule.
    spec fn label() -> Seq<char>;

    /// How many levels a node of this kind is rendered below its own.
    spec fn depth_below() -> nat;

    /// The lines of the rendered node, at nesting depth `depth`, under the
    /// given label where the node takes one.
    spec fn rendering(&self, depth: nat, label: Option<Seq<char>>) -> Seq<Seq<char>>;

    /// The (token, lexeme) pairs under the node, in source order.
    fn lexemes(&self) -> (pairs: Vec<(Token, String)>)
        ensures
            pairs@ == self.leaves(),
    ;

    /// The signature of the node: the lexemes under it, in order, joined by
    /// single spaces.
    fn lexeme_signature(&self) -> (sigg: String)
        ensures
            sigg@ == joined(self.leaves()),
    ;

    /// The label that describes the node's rule in an error or a rendering.
    fn parse_label() -> (label: String)
        ensures
            label@ == Self::label(),
    ;

    /// Renders the node and what is under it as indented lines, one for each
    /// node shown.
    fn display(&self, depth: usize, label: Option<String>) -> (lines: Vec<String>)
        requires
            depth + Self::depth_below() <= usize::MAX,
        ensures
            views(lines@) == self.rendering(depth as nat, option_view(label)),
    ;
}

impl<T: ParseDisplay> ParseDisplay for Option<T> {
    open spec fn shaped(&self) -> bool {
        match self {
            Some(node) => node.shaped(),
            None => true,
        }
    }

    open spec fn leaves(&self) -> Seq<(Token, String)> {
        match self {
            Some(node) => node.leaves(),
            None => Seq::empty(),
        }
    }

    open spec fn label() -> Seq<char> {
        T::label()
    }

    open spec fn depth_below() -> nat {
        T::depth_below()
    }

    open spec fn rendering(&self, depth: nat, label: Option<Seq<char>>) -> Seq<Seq<char>> {
        match self {
            Some(node) => node.rendering(depth, label),
            None => Seq::empty(),
        }
    }

    fn lexemes(&self) -> (pairs: Vec<(Token, String)>) {
        match self {
            Some(node) => node.lexemes(),
            None => Vec::new(),
        }
    }

    fn lexeme_signature(&self) -> (sigg: String) {
        join_lexemes(&self.lexemes())
    }

    fn parse_label() -> (label: String) {
        T::parse_label()
    }

    fn display(&self, depth: usize, label: Option<String>) -> (lines: Vec<String>) {
        match self {
            Some(node) => node.display(depth, label),
            None => {
                let lines: Vec<String> = Vec::new();
                assert(views(lines@) =~= Seq::<Seq<char>>::empty());
                lines
            },
        }
    }
}

/// Whether `leaves` are the tokens of `tokens` from `position` on.
pub open spec fn stands_at(
    leaves: Seq<(Token, String)>,
    tokens: Seq<(Token, String)>,
    position: int,
) -> bool {
    &&& 0 <= position
    &&& position + leaves.len() <= tokens.len()
    &&& tokens.subrange(position, position + leaves.len()) == leaves
}

/// Where two runs of leaves stand one after the other, each stands at its
/// own place.
pub proof fn lemma_parts_stand(
    first: Seq<(Token, String)>,
    second: Seq<(Token, String)>,
    tokens: Seq<(Token, String)>,
    position: int,
)
    requires
        stands_at(first + second, tokens, position),
    ensures
        stands_at(first, tokens, position),
        stands_at(second, tokens, position + first.len()),
{
    let whole = first + second;
    let read = tokens.subrange(position, position + whole.len());
    assert forall|k: int| 0 <= k < first.len() implies tokens[position + k] == first[k] by {
        assert(read[k] == whole[k]);
    }
    assert(tokens.subrange(position, position + first.len()) =~= first);
    assert forall|k: int| 0 <= k < second.len() implies tokens[position + first.len() + k]
        == second[k] by {
        assert(read[first.len() + k] == whole[first.len() + k]);
    }
    assert(tokens.subrange(position + first.len(), position + first.len() + second.len())
        =~= second);
}

/// The token at `position`, where a run of leaves that is not empty stands
/// there, is the first of them.
pub proof fn lemma_first_leaf(
    leaves: Seq<(Token, String)>,
    tokens: Seq<(Token, String)>,
    position: int,
)
    requires
        stands_at(leaves, tokens, position),
        leaves.len() > 0,
    ensures
        position < tokens.len(),
        tokens[position] == leaves[0],
{
    assert(tokens.subrange(position, position + leaves.len())[0] == tokens[position]);
}

/// A grammar rule that reads a `T` from a parse buffer.
pub trait Parse<T: ParseDisplay = Self>: Sized {
    /// What parsing the rule at `position` of `tokens` comes to: the
    /// position behind what the rule consumes, or the error.
    spec fn outcome(tokens: Seq<(Token, String)>, position: int) -> Result<int, ParseErrorView>;

    /// A successful parse never moves backwards nor past the end.
    proof fn lemma_outcome_in_bounds(tokens: Seq<(Token, String)>, position: int)
        requires
            0 <= position <= tokens.len(),
        ensures
            Self::outcome(tokens, position) matches Ok(end) ==> position <= end <= tokens.len(),
    ;

    /// Whether the rule, having read `node`, reads no further than `end`:
    /// what stands at `end` continues no part of the node.
    spec fn stops_at(node: T, tokens: Seq<(Token, String)>, end: int) -> bool;

    /// A node of the rule's shape is parsed back from its own leaves: where
    /// they stand at `position` and the rule stops behind them, the rule
    /// succeeds there and consumes exactly them.
    proof fn lemma_parses_back(node: T, tokens: Seq<(Token, String)>, position: int)
        requires
            node.shaped(),
            stands_at(node.leaves(), tokens, position),
            Self::stops_at(node, tokens, position + node.leaves().len()),
        ensures
            Self::outcome(tokens, position) == Ok::<int, ParseErrorView>(
                position + node.leaves().len(),
            ),
    ;

    /// Parses the rule at the buffer's position.
    ///
    /// On success the buffer stands behind the consumed tokens, and the node
    /// has the rule's shape and exactly the consumed tokens as its leaves.
    /// On failure the buffer is left as it was.
    fn parse(buffer: &mut ParseBuffer) -> (r: Result<T, ParseError>)
        ensures
            final(buffer).tokens() == old(buffer).tokens(),
            match Self::outcome(old(buffer).tokens(), old(buffer).position()) {
                Ok(end) => {
                    &&& r matches Ok(node)
                    &&& final(buffer).position() == end
                    &&& node.shaped()
                    &&& node.leaves() == old(buffer).tokens().subrange(
                        old(buffer).position(),
                        end,
                    )
                },
                Err(e) => {
                    &&& r matches Err(error)
                    &&& error@ == e
                    &&& *final(buffer) == *old(buffer)
                },
            },
    ;
}

/// A rule that consumes at least one token whenever it succeeds.
pub trait Consuming: Parse + ParseDisplay {
    /// A successful parse ends behind the position where it began.
    proof fn lemma_outcome_advances(tokens: Seq<(Token, String)>, position: int)
        requires
            0 <= position <= tokens.len(),
        ensures
            Self::outcome(tokens, position) matches Ok(end) ==> position < end,
    ;
}

/// The outcome of a rule that consumes exactly one token, which `accepted`
/// says it takes.
pub open spec fn terminal_outcome(
    label: Seq<char>,
    accepted: spec_fn(Token) -> bool,
    tokens: Seq<(Token, String)>,
    position: int,
) -> Result<int, ParseErrorView> {
    if position < 0 || position >= tokens.len() {
        Err(ParseErrorView::NothingFound { expected: label })
    } else if accepted(tokens[position].0) {
        Ok(position + 1)
    } else {
        Err(ParseErrorView::Mismatch { expected: label, found: tokens[position].1@ })
    }
}

} // verus!
