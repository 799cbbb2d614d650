//! The composite rules, built from the terminals and the list rules.
//!
//! A `struct` is a product: all its fields are required, in order. An `enum`
//! is a sum: exactly one of its alternatives, the first that parses. The two
//! extensions, `TermExtend` and `FactorExtend`, are optional: their rule
//! reads an `Option` of the node. The operand of an extension is the whole
//! rest of the chain, so a chain of operators groups to the right:
//! `a - b - c` is `a - (b - c)`.

use vstd::prelude::*;
use vstd::string::StringExecFns;
use crate::lexemes::blank;
use crate::lexemes::laid_out;
use crate::lexemes::lemma_source_lexes;
use crate::lexemes::pairs_of;
use crate::lexemes::source;
use crate::lexemes::Piece;
use crate::lexer::join;
use crate::lexer::lex;
use crate::lexer::spelled;
use crate::lexer::texts;
use crate::lexer::visible;
use crate::lexer::LexErrorView;
use crate::lexer::Token;
use crate::modulars::delimited_parts_stop;
use crate::modulars::terminated_leaves;
use crate::modulars::terminated_parts_stop;
use crate::modulars::terminated_shaped;
use crate::modulars::Delimited;
use crate::modulars::Terminated;
use crate::terminals::Comma;
use crate::terminals::Divide;
use crate::terminals::Equals;
use crate::terminals::Identifier;
use crate::terminals::LeftCurly;
use crate::terminals::LeftParen;
use crate::terminals::Literal;
use crate::terminals::Minus;
use crate::terminals::Multiply;
use crate::terminals::Plus;
use crate::terminals::Return;
use crate::terminals::RightCurly;
use crate::terminals::RightParen;
use crate::terminals::Semicolon;
use crate::terminals::Type;
use crate::bare_headline;
use crate::headline;
use crate::join_lexemes;
use crate::joined;
use crate::lemma_first_leaf;
use crate::lemma_parts_stand;
use crate::lemma_signature_spells_input;
use crate::make_bare_headline;
use crate::make_headline;
use crate::stands_at;
use crate::views;
use crate::Parse;
use crate::ParseBuffer;
use crate::ParseDisplay;
use crate::ParseError;
use crate::ParseErrorView;

verus! {

/// A list of function parameters, separated by commas.
pub type FunctionParameters = Delimited<FunctionParameter, Comma>;

/// A list of statements, each ended by a semicolon.
pub type CompoundStatements = Terminated<Statement, Semicolon>;

/// A function definition: `type identifier ( parameters ) { statements }`.
#[derive(Clone, Debug)]
pub struct FunctionDefinition {
    pub type_: Type,
    pub function_name: Identifier,
    pub left_paren: LeftParen,
    pub parameters: FunctionParameters,
    pub right_paren: RightParen,
    pub left_curly: LeftCurly,
    pub compound_statements: CompoundStatements,
    pub right_curly: RightCurly,
}

impl ParseDisplay for FunctionDefinition {
    open spec fn shaped(&self) -> bool {
        self.type_.shaped()
            && self.function_name.shaped()
            && self.left_paren.shaped()
            && self.parameters.shaped()
            && self.right_paren.shaped()
            && self.left_curly.shaped()
            && self.compound_statements.shaped()
            && self.right_curly.shaped()
    }

    open spec fn leaves(&self) -> Seq<(Token, String)> {
        self.type_.leaves()
            + self.function_name.leaves()
            + self.left_paren.leaves()
            + self.parameters.leaves()
            + self.right_paren.leaves()
            + self.left_curly.leaves()
            + self.compound_statements.leaves()
            + self.right_curly.leaves()
    }

    open spec fn label() -> Seq<char> {
        "Function Definition"@
    }

    open spec fn depth_below() -> nat {
        1 + CompoundStatements::depth_below()
    }

    open spec fn rendering(&self, depth: nat, label: Option<Seq<char>>) -> Seq<Seq<char>> {
        seq![headline(depth, Self::label(), joined(self.leaves()))]
            + self.type_.rendering(depth + 1, Some("Funtion Return Type"@))
            + self.function_name.rendering(depth + 1, Some("Function Identifier"@))
            + self.left_paren.rendering(depth + 1, Some("Left Paren"@))
            + self.parameters.rendering(depth + 1, Some("Function Parameters"@))
            + self.right_paren.rendering(depth + 1, Some("Right Paren"@))
            + self.left_curly.rendering(depth + 1, Some("Left Curly"@))
            + self.compound_statements.rendering(depth + 1, Some("Compound Statements"@))
            + self.right_curly.rendering(depth + 1, Some("Right Curly"@))
    }

    fn lexemes(&self) -> (pairs: Vec<(Token, String)>) {
        let mut pairs = self.type_.lexemes();
        let mut more = self.function_name.lexemes();
        pairs.append(&mut more);
        let mut more = self.left_paren.lexemes();
        pairs.append(&mut more);
        let mut more = self.parameters.lexemes();
        pairs.append(&mut more);
        let mut more = self.right_paren.lexemes();
        pairs.append(&mut more);
        let mut more = self.left_curly.lexemes();
        pairs.append(&mut more);
        let mut more = self.compound_statements.lexemes();
        pairs.append(&mut more);
        let mut more = self.right_curly.lexemes();
        pairs.append(&mut more);
        pairs
    }

    fn lexeme_signature(&self) -> (sigg: String) {
        join_lexemes(&self.lexemes())
    }

    fn parse_label() -> (label: String) {
        String::from_str("Function Definition")
    }

    fn display(&self, depth: usize, label: Option<String>) -> (lines: Vec<String>) {
        let mut lines: Vec<String> = Vec::new();
        lines.push(
            make_headline(depth, Self::parse_label().as_str(), self.lexeme_signature().as_str()),
        );
        assert(
            views(lines@) =~= seq![headline(depth as nat, Self::label(), joined(self.leaves()))]
        );
        let ghost before = lines@;
        let mut more = self.type_.display(depth + 1, Some(String::from_str("Funtion Return Type")));
        let ghost added = more@;
        lines.append(&mut more);
        assert(views(lines@) =~= views(before) + views(added));
        let ghost before = lines@;
        let mut more = self.function_name.display(
            depth + 1,
            Some(String::from_str("Function Identifier")),
        );
        let ghost added = more@;
        lines.append(&mut more);
        assert(views(lines@) =~= views(before) + views(added));
        let ghost before = lines@;
        let mut more = self.left_paren.display(depth + 1, Some(String::from_str("Left Paren")));
        let ghost added = more@;
        lines.append(&mut more);
        assert(views(lines@) =~= views(before) + views(added));
        let ghost before = lines@;
        let mut more = self.parameters.display(
            depth + 1,
            Some(String::from_str("Function Parameters")),
        );
        let ghost added = more@;
        lines.append(&mut more);
        assert(views(lines@) =~= views(before) + views(added));
        let ghost before = lines@;
        let mut more = self.right_paren.display(depth + 1, Some(String::from_str("Right Paren")));
        let ghost added = more@;
        lines.append(&mut more);
        assert(views(lines@) =~= views(before) + views(added));
        let ghost before = lines@;
        let mut more = self.left_curly.display(depth + 1, Some(String::from_str("Left Curly")));
        let ghost added = more@;
        lines.append(&mut more);
        assert(views(lines@) =~= views(before) + views(added));
        let ghost before = lines@;
        let mut more = self.compound_statements.display(
            depth + 1,
            Some(String::from_str("Compound Statements")),
        );
        let ghost added = more@;
        lines.append(&mut more);
        assert(views(lines@) =~= views(before) + views(added));
        let ghost before = lines@;
        let mut more = self.right_curly.display(depth + 1, Some(String::from_str("Right Curly")));
        let ghost added = more@;
        lines.append(&mut more);
        assert(views(lines@) =~= views(before) + views(added));
        lines
    }
}

impl Parse for FunctionDefinition {
    open spec fn outcome(tokens: Seq<(Token, String)>, position: int) -> Result<
        int,
        ParseErrorView,
    > {
        if position >= tokens.len() {
            Err(ParseErrorView::NothingFound { expected: Self::label() })
        } else {
            match Type::outcome(tokens, position) {
                Err(e) => Err(e),
                Ok(after_1) => match Identifier::outcome(tokens, after_1) {
                    Err(e) => Err(e),
                    Ok(after_2) => match LeftParen::outcome(tokens, after_2) {
                        Err(e) => Err(e),
                        Ok(after_3) => match FunctionParameters::outcome(tokens, after_3) {
                            Err(e) => Err(e),
                            Ok(after_4) => match RightParen::outcome(tokens, after_4) {
                                Err(e) => Err(e),
                                Ok(after_5) => match LeftCurly::outcome(tokens, after_5) {
                                    Err(e) => Err(e),
                                    Ok(after_6) => match CompoundStatements::outcome(tokens, after_6) {
                                        Err(e) => Err(e),
                                        Ok(after_7) => RightCurly::outcome(tokens, after_7),
                                    },
                                },
                            },
                        },
                    },
                },
            }
        }
    }

    proof fn lemma_outcome_in_bounds(tokens: Seq<(Token, String)>, position: int) {
        Type::lemma_outcome_in_bounds(tokens, position);
        if let Ok(after_0) = Type::outcome(tokens, position) {
            Identifier::lemma_outcome_in_bounds(tokens, after_0);
            if let Ok(after_1) = Identifier::outcome(tokens, after_0) {
                LeftParen::lemma_outcome_in_bounds(tokens, after_1);
                if let Ok(after_2) = LeftParen::outcome(tokens, after_1) {
                    FunctionParameters::lemma_outcome_in_bounds(tokens, after_2);
                    if let Ok(after_3) = FunctionParameters::outcome(tokens, after_2) {
                        RightParen::lemma_outcome_in_bounds(tokens, after_3);
                        if let Ok(after_4) = RightParen::outcome(tokens, after_3) {
                            LeftCurly::lemma_outcome_in_bounds(tokens, after_4);
                            if let Ok(after_5) = LeftCurly::outcome(tokens, after_4) {
                                CompoundStatements::lemma_outcome_in_bounds(tokens, after_5);
                                if let Ok(after_6) = CompoundStatements::outcome(tokens, after_5) {
                                    RightCurly::lemma_outcome_in_bounds(tokens, after_6);
                                }
                            }
                        }
                    }
                }
            }
        }
    }

    open spec fn stops_at(node: Self, tokens: Seq<(Token, String)>, end: int) -> bool {
        &&& RightCurly::stops_at(node.right_curly, tokens, end)
        &&& CompoundStatements::stops_at(
            node.compound_statements,
            tokens,
            end - node.right_curly.leaves().len(),
        )
        &&& LeftCurly::stops_at(
            node.left_curly,
            tokens,
            end - node.right_curly.leaves().len() - node.compound_statements.leaves().len(),
        )
        &&& RightParen::stops_at(
            node.right_paren,
            tokens,
            end
                - node.right_curly.leaves().len()
                - node.compound_statements.leaves().len()
                - node.left_curly.leaves().len(),
        )
        &&& FunctionParameters::stops_at(
            node.parameters,
            tokens,
            end
                - node.right_curly.leaves().len()
                - node.compound_statements.leaves().len()
                - node.left_curly.leaves().len()
                - node.right_paren.leaves().len(),
        )
        &&& LeftParen::stops_at(
            node.left_paren,
            tokens,
            end
                - node.right_curly.leaves().len()
                - node.compound_statements.leaves().len()
                - node.left_curly.leaves().len()
                - node.right_paren.leaves().len()
                - node.parameters.leaves().len(),
        )
        &&& Identifier::stops_at(
            node.function_name,
            tokens,
            end
                - node.right_curly.leaves().len()
                - node.compound_statements.leaves().len()
                - node.left_curly.leaves().len()
                - node.right_paren.leaves().len()
                - node.parameters.leaves().len()
                - node.left_paren.leaves().len(),
        )
        &&& Type::stops_at(
            node.type_,
            tokens,
            end
                - node.right_curly.leaves().len()
                - node.compound_statements.leaves().len()
                - node.left_curly.leaves().len()
                - node.right_paren.leaves().len()
                - node.parameters.leaves().len()
                - node.left_paren.leaves().len()
                - node.function_name.leaves().len(),
        )
    }

    proof fn lemma_parses_back(node: Self, tokens: Seq<(Token, String)>, position: int) {
        lemma_parts_stand(
            node.type_.leaves()
                + node.function_name.leaves()
                + node.left_paren.leaves()
                + node.parameters.leaves()
                + node.right_paren.leaves()
                + node.left_curly.leaves()
                + node.compound_statements.leaves(),
            node.right_curly.leaves(),
            tokens,
            position,
        );
        lemma_parts_stand(
            node.type_.leaves()
                + node.function_name.leaves()
                + node.left_paren.leaves()
                + node.parameters.leaves()
                + node.right_paren.leaves()
                + node.left_curly.leaves(),
            node.compound_statements.leaves(),
            tokens,
            position,
        );
        lemma_parts_stand(
            node.type_.leaves()
                + node.function_name.leaves()
                + node.left_paren.leaves()
                + node.parameters.leaves()
                + node.right_paren.leaves(),
            node.left_curly.leaves(),
            tokens,
            position,
        );
        lemma_parts_stand(
            node.type_.leaves()
                + node.function_name.leaves()
                + node.left_paren.leaves()
                + node.parameters.leaves(),
            node.right_paren.leaves(),
            tokens,
            position,
        );
        lemma_parts_stand(
            node.type_.leaves() + node.function_name.leaves() + node.left_paren.leaves(),
            node.parameters.leaves(),
            tokens,
            position,
        );
        lemma_parts_stand(
            node.type_.leaves() + node.function_name.leaves(),
            node.left_paren.leaves(),
            tokens,
            position,
        );
        lemma_parts_stand(node.type_.leaves(), node.function_name.leaves(), tokens, position);
        let here = position;
        Type::lemma_parses_back(node.type_, tokens, here);
        let here = here + node.type_.leaves().len();
        Identifier::lemma_parses_back(node.function_name, tokens, here);
        let here = here + node.function_name.leaves().len();
        LeftParen::lemma_parses_back(node.left_paren, tokens, here);
        let here = here + node.left_paren.leaves().len();
        FunctionParameters::lemma_parses_back(node.parameters, tokens, here);
        let here = here + node.parameters.leaves().len();
        RightParen::lemma_parses_back(node.right_paren, tokens, here);
        let here = here + node.right_paren.leaves().len();
        LeftCurly::lemma_parses_back(node.left_curly, tokens, here);
        let here = here + node.left_curly.leaves().len();
        CompoundStatements::lemma_parses_back(node.compound_statements, tokens, here);
        let here = here + node.compound_statements.leaves().len();
        RightCurly::lemma_parses_back(node.right_curly, tokens, here);
    }

    #[verifier::rlimit(60)]
    fn parse(buffer: &mut ParseBuffer) -> (r: Result<Self, ParseError>) {
        match buffer.peek() {
            None => {
                return Err(ParseError::NothingFound { expected: Self::parse_label() });
            },
            Some(_) => {},
        }
        let mut fork = buffer.fork();
        let ghost tokens = buffer.tokens();
        proof {
            Type::lemma_outcome_in_bounds(tokens, fork.position());
        }
        let type_ = match Type::parse(&mut fork) {
            Ok(node) => node,
            Err(error) => {
                return Err(error);
            },
        };
        proof {
            Identifier::lemma_outcome_in_bounds(tokens, fork.position());
        }
        let function_name = match Identifier::parse(&mut fork) {
            Ok(node) => node,
            Err(error) => {
                return Err(error);
            },
        };
        proof {
            LeftParen::lemma_outcome_in_bounds(tokens, fork.position());
        }
        let left_paren = match LeftParen::parse(&mut fork) {
            Ok(node) => node,
            Err(error) => {
                return Err(error);
            },
        };
        proof {
            FunctionParameters::lemma_outcome_in_bounds(tokens, fork.position());
        }
        let parameters = match FunctionParameters::parse(&mut fork) {
            Ok(node) => node,
            Err(error) => {
                return Err(error);
            },
        };
        proof {
            RightParen::lemma_outcome_in_bounds(tokens, fork.position());
        }
        let right_paren = match RightParen::parse(&mut fork) {
            Ok(node) => node,
            Err(error) => {
                return Err(error);
            },
        };
        proof {
            LeftCurly::lemma_outcome_in_bounds(tokens, fork.position());
        }
        let left_curly = match LeftCurly::parse(&mut fork) {
            Ok(node) => node,
            Err(error) => {
                return Err(error);
            },
        };
        proof {
            CompoundStatements::lemma_outcome_in_bounds(tokens, fork.position());
        }
        let compound_statements = match CompoundStatements::parse(&mut fork) {
            Ok(node) => node,
            Err(error) => {
                return Err(error);
            },
        };
        proof {
            RightCurly::lemma_outcome_in_bounds(tokens, fork.position());
        }
        let right_curly = match RightCurly::parse(&mut fork) {
            Ok(node) => node,
            Err(error) => {
                return Err(error);
            },
        };
        let node = FunctionDefinition {
            type_,
            function_name,
            left_paren,
            parameters,
            right_paren,
            left_curly,
            compound_statements,
            right_curly,
        };
        assert(node.leaves() =~= tokens.subrange(buffer.position(), fork.position()));
        *buffer = fork;
        Ok(node)
    }
}

/// A function parameter: `type identifier`.
#[derive(Clone, Debug)]
pub struct FunctionParameter {
    pub type_: Type,
    pub identifier: Identifier,
}

impl ParseDisplay for FunctionParameter {
    open spec fn shaped(&self) -> bool {
        self.type_.shaped() && self.identifier.shaped()
    }

    open spec fn leaves(&self) -> Seq<(Token, String)> {
        self.type_.leaves() + self.identifier.leaves()
    }

    open spec fn label() -> Seq<char> {
        "Function Parameter"@
    }

    open spec fn depth_below() -> nat {
        1
    }

    open spec fn rendering(&self, depth: nat, label: Option<Seq<char>>) -> Seq<Seq<char>> {
        seq![headline(depth, Self::label(), joined(self.leaves()))]
            + self.type_.rendering(depth + 1, Some("Parameter Type"@))
            + self.identifier.rendering(depth + 1, Some("Parameter Identifier"@))
    }

    fn lexemes(&self) -> (pairs: Vec<(Token, String)>) {
        let mut pairs = self.type_.lexemes();
        let mut more = self.identifier.lexemes();
        pairs.append(&mut more);
        pairs
    }

    fn lexeme_signature(&self) -> (sigg: String) {
        join_lexemes(&self.lexemes())
    }

    fn parse_label() -> (label: String) {
        String::from_str("Function Parameter")
    }

    fn display(&self, depth: usize, label: Option<String>) -> (lines: Vec<String>) {
        let mut lines: Vec<String> = Vec::new();
        lines.push(
            make_headline(depth, Self::parse_label().as_str(), self.lexeme_signature().as_str()),
        );
        assert(
            views(lines@) =~= seq![headline(depth as nat, Self::label(), joined(self.leaves()))]
        );
        let ghost before = lines@;
        let mut more = self.type_.display(depth + 1, Some(String::from_str("Parameter Type")));
        let ghost added = more@;
        lines.append(&mut more);
        assert(views(lines@) =~= views(before) + views(added));
        let ghost before = lines@;
        let mut more = self.identifier.display(
            depth + 1,
            Some(String::from_str("Parameter Identifier")),
        );
        let ghost added = more@;
        lines.append(&mut more);
        assert(views(lines@) =~= views(before) + views(added));
        lines
    }
}

impl Parse for FunctionParameter {
    open spec fn outcome(tokens: Seq<(Token, String)>, position: int) -> Result<
        int,
        ParseErrorView,
    > {
        if position >= tokens.len() {
            Err(ParseErrorView::NothingFound { expected: Self::label() })
        } else {
            match Type::outcome(tokens, position) {
                Err(e) => Err(e),
                Ok(after_7) => Identifier::outcome(tokens, after_7),
            }
        }
    }

    proof fn lemma_outcome_in_bounds(tokens: Seq<(Token, String)>, position: int) {
        Type::lemma_outcome_in_bounds(tokens, position);
        if let Ok(after_0) = Type::outcome(tokens, position) {
            Identifier::lemma_outcome_in_bounds(tokens, after_0);
        }
    }

    open spec fn stops_at(node: Self, tokens: Seq<(Token, String)>, end: int) -> bool {
        &&& Identifier::stops_at(node.identifier, tokens, end)
        &&& Type::stops_at(node.type_, tokens, end - node.identifier.leaves().len())
    }

    proof fn lemma_parses_back(node: Self, tokens: Seq<(Token, String)>, position: int) {
        lemma_parts_stand(node.type_.leaves(), node.identifier.leaves(), tokens, position);
        let here = position;
        Type::lemma_parses_back(node.type_, tokens, here);
        let here = here + node.type_.leaves().len();
        Identifier::lemma_parses_back(node.identifier, tokens, here);
    }

    #[verifier::rlimit(60)]
    fn parse(buffer: &mut ParseBuffer) -> (r: Result<Self, ParseError>) {
        match buffer.peek() {
            None => {
                return Err(ParseError::NothingFound { expected: Self::parse_label() });
            },
            Some(_) => {},
        }
        let mut fork = buffer.fork();
        let ghost tokens = buffer.tokens();
        proof {
            Type::lemma_outcome_in_bounds(tokens, fork.position());
        }
        let type_ = match Type::parse(&mut fork) {
            Ok(node) => node,
            Err(error) => {
                return Err(error);
            },
        };
        proof {
            Identifier::lemma_outcome_in_bounds(tokens, fork.position());
        }
        let identifier = match Identifier::parse(&mut fork) {
            Ok(node) => node,
            Err(error) => {
                return Err(error);
            },
        };
        let node = FunctionParameter { type_, identifier };
        assert(node.leaves() =~= tokens.subrange(buffer.position(), fork.position()));
        *buffer = fork;
        Ok(node)
    }
}

/// A statement: `assignment | return`, tried in this order.
#[derive(Clone, Debug)]
pub enum Statement {
    Assignment(AssignmentStatement),
    Return(ReturnStatement),
}

impl ParseDisplay for Statement {
    open spec fn shaped(&self) -> bool {
        match self {
            Statement::Assignment(node) => node.shaped(),
            Statement::Return(node) => node.shaped(),
        }
    }

    open spec fn leaves(&self) -> Seq<(Token, String)> {
        match self {
            Statement::Assignment(node) => node.leaves(),
            Statement::Return(node) => node.leaves(),
        }
    }

    open spec fn label() -> Seq<char> {
        "Statement"@
    }

    open spec fn depth_below() -> nat {
        1 + AssignmentStatement::depth_below()
    }

    open spec fn rendering(&self, depth: nat, label: Option<Seq<char>>) -> Seq<Seq<char>> {
        seq![bare_headline(depth, Self::label())] + match self {
            Statement::Assignment(node) => node.rendering(depth + 1, None),
            Statement::Return(node) => node.rendering(depth + 1, None),
        }
    }

    fn lexemes(&self) -> (pairs: Vec<(Token, String)>) {
        match self {
            Statement::Assignment(node) => node.lexemes(),
            Statement::Return(node) => node.lexemes(),
        }
    }

    fn lexeme_signature(&self) -> (sigg: String) {
        join_lexemes(&self.lexemes())
    }

    fn parse_label() -> (label: String) {
        String::from_str("Statement")
    }

    fn display(&self, depth: usize, label: Option<String>) -> (lines: Vec<String>) {
        let mut lines: Vec<String> = Vec::new();
        lines.push(make_bare_headline(depth, Self::parse_label().as_str()));
        let ghost before = lines@;
        assert(views(before) =~= seq![bare_headline(depth as nat, Self::label())]);
        let mut more = match self {
            Statement::Assignment(node) => node.display(depth + 1, None),
            Statement::Return(node) => node.display(depth + 1, None),
        };
        let ghost added = more@;
        lines.append(&mut more);
        assert(views(lines@) =~= views(before) + views(added));
        lines
    }
}

impl Parse for Statement {
    open spec fn outcome(tokens: Seq<(Token, String)>, position: int) -> Result<
        int,
        ParseErrorView,
    > {
        if position >= tokens.len() {
            Err(ParseErrorView::NothingFound { expected: Self::label() })
        } else {
            match AssignmentStatement::outcome(tokens, position) {
                Ok(end) => Ok(end),
                Err(_) => match ReturnStatement::outcome(tokens, position) {
                    Ok(end) => Ok(end),
                    Err(_) => Err(
                        ParseErrorView::NoAlternative {
                            alternatives: seq![AssignmentStatement::label(), ReturnStatement::label()],
                            found: tokens[position].1@,
                            rule: Self::label(),
                        },
                    ),
                },
            }
        }
    }

    proof fn lemma_outcome_in_bounds(tokens: Seq<(Token, String)>, position: int) {
        AssignmentStatement::lemma_outcome_in_bounds(tokens, position);
        ReturnStatement::lemma_outcome_in_bounds(tokens, position);
    }

    open spec fn stops_at(node: Self, tokens: Seq<(Token, String)>, end: int) -> bool {
        match node {
            Statement::Assignment(inner) => AssignmentStatement::stops_at(inner, tokens, end),
            Statement::Return(inner) => ReturnStatement::stops_at(inner, tokens, end),
        }
    }

    proof fn lemma_parses_back(node: Self, tokens: Seq<(Token, String)>, position: int) {
        match node {
            Statement::Assignment(inner) => {
                AssignmentStatement::lemma_parses_back(inner, tokens, position);
            },
            Statement::Return(inner) => {
                ReturnStatement::lemma_parses_back(inner, tokens, position);
            },
        }
    }

    /// Tries the alternatives in their order and returns the first that
    /// parses.
    fn parse(buffer: &mut ParseBuffer) -> (r: Result<Self, ParseError>)
        ensures
            r matches Ok(node) ==> (node is Assignment <==> AssignmentStatement::outcome(
                old(buffer).tokens(),
                old(buffer).position(),
            ) is Ok),
    {
        let next = match buffer.peek() {
            None => {
                return Err(ParseError::NothingFound { expected: Self::parse_label() });
            },
            Some(pair) => pair,
        };
        let mut fork = buffer.fork();
        match AssignmentStatement::parse(&mut fork) {
            Ok(node) => {
                *buffer = fork;
                return Ok(Statement::Assignment(node));
            },
            Err(_) => {},
        }
        let mut fork = buffer.fork();
        match ReturnStatement::parse(&mut fork) {
            Ok(node) => {
                *buffer = fork;
                return Ok(Statement::Return(node));
            },
            Err(_) => {},
        }
        let mut alternatives: Vec<String> = Vec::new();
        alternatives.push(AssignmentStatement::parse_label());
        alternatives.push(ReturnStatement::parse_label());
        assert(
            views(alternatives@) =~= seq![AssignmentStatement::label(), ReturnStatement::label()]
        );
        Err(
            ParseError::NoAlternative {
                alternatives,
                found: next.1.clone(),
                rule: Self::parse_label(),
            },
        )
    }
}

/// An assignment statement: `identifier = expression`.
#[derive(Clone, Debug)]
pub struct AssignmentStatement {
    pub lhs_identifier: Identifier,
    pub equals: Equals,
    pub expression: Expression,
}

impl ParseDisplay for AssignmentStatement {
    open spec fn shaped(&self) -> bool {
        self.lhs_identifier.shaped() && self.equals.shaped() && self.expression.shaped()
    }

    open spec fn leaves(&self) -> Seq<(Token, String)> {
        self.lhs_identifier.leaves() + self.equals.leaves() + self.expression.leaves()
    }

    open spec fn label() -> Seq<char> {
        "Assignment Statement"@
    }

    open spec fn depth_below() -> nat {
        1 + Expression::depth_below()
    }

    open spec fn rendering(&self, depth: nat, label: Option<Seq<char>>) -> Seq<Seq<char>> {
        seq![headline(depth, Self::label(), joined(self.leaves()))]
            + self.lhs_identifier.rendering(depth + 1, Some("Identifier"@))
            + self.equals.rendering(depth + 1, Some("Equals"@))
            + self.expression.rendering(depth + 1, None)
    }

    fn lexemes(&self) -> (pairs: Vec<(Token, String)>) {
        let mut pairs = self.lhs_identifier.lexemes();
        let mut more = self.equals.lexemes();
        pairs.append(&mut more);
        let mut more = self.expression.lexemes();
        pairs.append(&mut more);
        pairs
    }

    fn lexeme_signature(&self) -> (sigg: String) {
        join_lexemes(&self.lexemes())
    }

    fn parse_label() -> (label: String) {
        String::from_str("Assignment Statement")
    }

    fn display(&self, depth: usize, label: Option<String>) -> (lines: Vec<String>) {
        let mut lines: Vec<String> = Vec::new();
        lines.push(
            make_headline(depth, Self::parse_label().as_str(), self.lexeme_signature().as_str()),
        );
        assert(
            views(lines@) =~= seq![headline(depth as nat, Self::label(), joined(self.leaves()))]
        );
        let ghost before = lines@;
        let mut more = self.lhs_identifier.display(depth + 1, Some(String::from_str("Identifier")));
        let ghost added = more@;
        lines.append(&mut more);
        assert(views(lines@) =~= views(before) + views(added));
        let ghost before = lines@;
        let mut more = self.equals.display(depth + 1, Some(String::from_str("Equals")));
        let ghost added = more@;
        lines.append(&mut more);
        assert(views(lines@) =~= views(before) + views(added));
        let ghost before = lines@;
        let mut more = self.expression.display(depth + 1, None);
        let ghost added = more@;
        lines.append(&mut more);
        assert(views(lines@) =~= views(before) + views(added));
        lines
    }
}

impl Parse for AssignmentStatement {
    open spec fn outcome(tokens: Seq<(Token, String)>, position: int) -> Result<
        int,
        ParseErrorView,
    > {
        if position >= tokens.len() {
            Err(ParseErrorView::NothingFound { expected: Self::label() })
        } else {
            match Identifier::outcome(tokens, position) {
                Err(e) => Err(e),
                Ok(after_6) => match Equals::outcome(tokens, after_6) {
                    Err(e) => Err(e),
                    Ok(after_7) => Expression::outcome(tokens, after_7),
                },
            }
        }
    }

    proof fn lemma_outcome_in_bounds(tokens: Seq<(Token, String)>, position: int) {
        Identifier::lemma_outcome_in_bounds(tokens, position);
        if let Ok(after_0) = Identifier::outcome(tokens, position) {
            Equals::lemma_outcome_in_bounds(tokens, after_0);
            if let Ok(after_1) = Equals::outcome(tokens, after_0) {
                Expression::lemma_outcome_in_bounds(tokens, after_1);
            }
        }
    }

    open spec fn stops_at(node: Self, tokens: Seq<(Token, String)>, end: int) -> bool {
        &&& Expression::stops_at(node.expression, tokens, end)
        &&& Equals::stops_at(node.equals, tokens, end - node.expression.leaves().len())
        &&& Identifier::stops_at(
            node.lhs_identifier,
            tokens,
            end - node.expression.leaves().len() - node.equals.leaves().len(),
        )
    }

    proof fn lemma_parses_back(node: Self, tokens: Seq<(Token, String)>, position: int) {
        lemma_parts_stand(
            node.lhs_identifier.leaves() + node.equals.leaves(),
            node.expression.leaves(),
            tokens,
            position,
        );
        lemma_parts_stand(node.lhs_identifier.leaves(), node.equals.leaves(), tokens, position);
        let here = position;
        Identifier::lemma_parses_back(node.lhs_identifier, tokens, here);
        let here = here + node.lhs_identifier.leaves().len();
        Equals::lemma_parses_back(node.equals, tokens, here);
        let here = here + node.equals.leaves().len();
        Expression::lemma_parses_back(node.expression, tokens, here);
    }

    #[verifier::rlimit(60)]
    fn parse(buffer: &mut ParseBuffer) -> (r: Result<Self, ParseError>) {
        match buffer.peek() {
            None => {
                return Err(ParseError::NothingFound { expected: Self::parse_label() });
            },
            Some(_) => {},
        }
        let mut fork = buffer.fork();
        let ghost tokens = buffer.tokens();
        proof {
            Identifier::lemma_outcome_in_bounds(tokens, fork.position());
        }
        let lhs_identifier = match Identifier::parse(&mut fork) {
            Ok(node) => node,
            Err(error) => {
                return Err(error);
            },
        };
        proof {
            Equals::lemma_outcome_in_bounds(tokens, fork.position());
        }
        let equals = match Equals::parse(&mut fork) {
            Ok(node) => node,
            Err(error) => {
                return Err(error);
            },
        };
        proof {
            Expression::lemma_outcome_in_bounds(tokens, fork.position());
        }
        let expression = match Expression::parse(&mut fork) {
            Ok(node) => node,
            Err(error) => {
                return Err(error);
            },
        };
        let node = AssignmentStatement { lhs_identifier, equals, expression };
        assert(node.leaves() =~= tokens.subrange(buffer.position(), fork.position()));
        *buffer = fork;
        Ok(node)
    }
}

/// A return statement: `return expression`.
#[derive(Clone, Debug)]
pub struct ReturnStatement {
    pub return_: Return,
    pub expression: Expression,
}

impl ParseDisplay for ReturnStatement {
    open spec fn shaped(&self) -> bool {
        self.return_.shaped() && self.expression.shaped()
    }

    open spec fn leaves(&self) -> Seq<(Token, String)> {
        self.return_.leaves() + self.expression.leaves()
    }

    open spec fn label() -> Seq<char> {
        "Return Statement"@
    }

    open spec fn depth_below() -> nat {
        1 + Expression::depth_below()
    }

    open spec fn rendering(&self, depth: nat, label: Option<Seq<char>>) -> Seq<Seq<char>> {
        seq![headline(depth, Self::label(), joined(self.leaves()))]
            + self.return_.rendering(depth + 1, Some("Return"@))
            + self.expression.rendering(depth + 1, None)
    }

    fn lexemes(&self) -> (pairs: Vec<(Token, String)>) {
        let mut pairs = self.return_.lexemes();
        let mut more = self.expression.lexemes();
        pairs.append(&mut more);
        pairs
    }

    fn lexeme_signature(&self) -> (sigg: String) {
        join_lexemes(&self.lexemes())
    }

    fn parse_label() -> (label: String) {
        String::from_str("Return Statement")
    }

    fn display(&self, depth: usize, label: Option<String>) -> (lines: Vec<String>) {
        let mut lines: Vec<String> = Vec::new();
        lines.push(
            make_headline(depth, Self::parse_label().as_str(), self.lexeme_signature().as_str()),
        );
        assert(
            views(lines@) =~= seq![headline(depth as nat, Self::label(), joined(self.leaves()))]
        );
        let ghost before = lines@;
        let mut more = self.return_.display(depth + 1, Some(String::from_str("Return")));
        let ghost added = more@;
        lines.append(&mut more);
        assert(views(lines@) =~= views(before) + views(added));
        let ghost before = lines@;
        let mut more = self.expression.display(depth + 1, None);
        let ghost added = more@;
        lines.append(&mut more);
        assert(views(lines@) =~= views(before) + views(added));
        lines
    }
}

impl Parse for ReturnStatement {
    open spec fn outcome(tokens: Seq<(Token, String)>, position: int) -> Result<
        int,
        ParseErrorView,
    > {
        if position >= tokens.len() {
            Err(ParseErrorView::NothingFound { expected: Self::label() })
        } else {
            match Return::outcome(tokens, position) {
                Err(e) => Err(e),
                Ok(after_7) => Expression::outcome(tokens, after_7),
            }
        }
    }

    proof fn lemma_outcome_in_bounds(tokens: Seq<(Token, String)>, position: int) {
        Return::lemma_outcome_in_bounds(tokens, position);
        if let Ok(after_0) = Return::outcome(tokens, position) {
            Expression::lemma_outcome_in_bounds(tokens, after_0);
        }
    }

    open spec fn stops_at(node: Self, tokens: Seq<(Token, String)>, end: int) -> bool {
        &&& Expression::stops_at(node.expression, tokens, end)
        &&& Return::stops_at(node.return_, tokens, end - node.expression.leaves().len())
    }

    proof fn lemma_parses_back(node: Self, tokens: Seq<(Token, String)>, position: int) {
        lemma_parts_stand(node.return_.leaves(), node.expression.leaves(), tokens, position);
        let here = position;
        Return::lemma_parses_back(node.return_, tokens, here);
        let here = here + node.return_.leaves().len();
        Expression::lemma_parses_back(node.expression, tokens, here);
    }

    #[verifier::rlimit(60)]
    fn parse(buffer: &mut ParseBuffer) -> (r: Result<Self, ParseError>) {
        match buffer.peek() {
            None => {
                return Err(ParseError::NothingFound { expected: Self::parse_label() });
            },
            Some(_) => {},
        }
        let mut fork = buffer.fork();
        let ghost tokens = buffer.tokens();
        proof {
            Return::lemma_outcome_in_bounds(tokens, fork.position());
        }
        let return_ = match Return::parse(&mut fork) {
            Ok(node) => node,
            Err(error) => {
                return Err(error);
            },
        };
        proof {
            Expression::lemma_outcome_in_bounds(tokens, fork.position());
        }
        let expression = match Expression::parse(&mut fork) {
            Ok(node) => node,
            Err(error) => {
                return Err(error);
            },
        };
        let node = ReturnStatement { return_, expression };
        assert(node.leaves() =~= tokens.subrange(buffer.position(), fork.position()));
        *buffer = fork;
        Ok(node)
    }
}

/// An expression: `arithmetic | typecast`, tried in this order.
#[derive(Clone, Debug)]
pub enum Expression {
    Arithmetic(ArithmeticExpression),
    Typecast(TypecastExpression),
}

impl ParseDisplay for Expression {
    open spec fn shaped(&self) -> bool {
        match self {
            Expression::Arithmetic(node) => node.shaped(),
            Expression::Typecast(node) => node.shaped(),
        }
    }

    open spec fn leaves(&self) -> Seq<(Token, String)> {
        match self {
            Expression::Arithmetic(node) => node.leaves(),
            Expression::Typecast(node) => node.leaves(),
        }
    }

    open spec fn label() -> Seq<char> {
        "Expression"@
    }

    open spec fn depth_below() -> nat {
        1 + ArithmeticExpression::depth_below()
    }

    open spec fn rendering(&self, depth: nat, label: Option<Seq<char>>) -> Seq<Seq<char>> {
        seq![bare_headline(depth, Self::label())] + match self {
            Expression::Arithmetic(node) => node.rendering(depth + 1, None),
            Expression::Typecast(node) => node.rendering(depth + 1, None),
        }
    }

    fn lexemes(&self) -> (pairs: Vec<(Token, String)>) {
        match self {
            Expression::Arithmetic(node) => node.lexemes(),
            Expression::Typecast(node) => node.lexemes(),
        }
    }

    fn lexeme_signature(&self) -> (sigg: String) {
        join_lexemes(&self.lexemes())
    }

    fn parse_label() -> (label: String) {
        String::from_str("Expression")
    }

    fn display(&self, depth: usize, label: Option<String>) -> (lines: Vec<String>) {
        let mut lines: Vec<String> = Vec::new();
        lines.push(make_bare_headline(depth, Self::parse_label().as_str()));
        let ghost before = lines@;
        assert(views(before) =~= seq![bare_headline(depth as nat, Self::label())]);
        let mut more = match self {
            Expression::Arithmetic(node) => node.display(depth + 1, None),
            Expression::Typecast(node) => node.display(depth + 1, None),
        };
        let ghost added = more@;
        lines.append(&mut more);
        assert(views(lines@) =~= views(before) + views(added));
        lines
    }
}

impl Parse for Expression {
    open spec fn outcome(tokens: Seq<(Token, String)>, position: int) -> Result<
        int,
        ParseErrorView,
    > {
        if position >= tokens.len() {
            Err(ParseErrorView::NothingFound { expected: Self::label() })
        } else {
            match ArithmeticExpression::outcome(tokens, position) {
                Ok(end) => Ok(end),
                Err(_) => match TypecastExpression::outcome(tokens, position) {
                    Ok(end) => Ok(end),
                    Err(_) => Err(
                        ParseErrorView::NoAlternative {
                            alternatives: seq![ArithmeticExpression::label(), TypecastExpression::label()],
                            found: tokens[position].1@,
                            rule: Self::label(),
                        },
                    ),
                },
            }
        }
    }

    proof fn lemma_outcome_in_bounds(tokens: Seq<(Token, String)>, position: int) {
        ArithmeticExpression::lemma_outcome_in_bounds(tokens, position);
        TypecastExpression::lemma_outcome_in_bounds(tokens, position);
    }

    open spec fn stops_at(node: Self, tokens: Seq<(Token, String)>, end: int) -> bool {
        match node {
            Expression::Arithmetic(inner) => ArithmeticExpression::stops_at(inner, tokens, end),
            Expression::Typecast(inner) => TypecastExpression::stops_at(inner, tokens, end),
        }
    }

    proof fn lemma_parses_back(node: Self, tokens: Seq<(Token, String)>, position: int) {
        match node {
            Expression::Arithmetic(inner) => {
                ArithmeticExpression::lemma_parses_back(inner, tokens, position);
            },
            Expression::Typecast(inner) => {
                TypecastExpression::lemma_parses_back(inner, tokens, position);
            },
        }
    }

    /// Tries the alternatives in their order and returns the first that
    /// parses.
    fn parse(buffer: &mut ParseBuffer) -> (r: Result<Self, ParseError>)
        ensures
            r matches Ok(node) ==> (node is Arithmetic <==> ArithmeticExpression::outcome(
                old(buffer).tokens(),
                old(buffer).position(),
            ) is Ok),
    {
        let next = match buffer.peek() {
            None => {
                return Err(ParseError::NothingFound { expected: Self::parse_label() });
            },
            Some(pair) => pair,
        };
        let mut fork = buffer.fork();
        match ArithmeticExpression::parse(&mut fork) {
            Ok(node) => {
                *buffer = fork;
                return Ok(Expression::Arithmetic(node));
            },
            Err(_) => {},
        }
        let mut fork = buffer.fork();
        match TypecastExpression::parse(&mut fork) {
            Ok(node) => {
                *buffer = fork;
                return Ok(Expression::Typecast(node));
            },
            Err(_) => {},
        }
        let mut alternatives: Vec<String> = Vec::new();
        alternatives.push(ArithmeticExpression::parse_label());
        alternatives.push(TypecastExpression::parse_label());
        assert(
            views(alternatives@) =~= seq![ArithmeticExpression::label(), TypecastExpression::label()]
        );
        Err(
            ParseError::NoAlternative {
                alternatives,
                found: next.1.clone(),
                rule: Self::parse_label(),
            },
        )
    }
}

/// A typecast expression: `( type ) identifier`.
#[derive(Clone, Debug)]
pub struct TypecastExpression {
    pub left_paren: LeftParen,
    pub type_: Type,
    pub right_paren: RightParen,
    pub ident: Identifier,
}

impl ParseDisplay for TypecastExpression {
    open spec fn shaped(&self) -> bool {
        self.left_paren.shaped()
            && self.type_.shaped()
            && self.right_paren.shaped()
            && self.ident.shaped()
    }

    open spec fn leaves(&self) -> Seq<(Token, String)> {
        self.left_paren.leaves()
            + self.type_.leaves()
            + self.right_paren.leaves()
            + self.ident.leaves()
    }

    open spec fn label() -> Seq<char> {
        "Typecast Expression"@
    }

    open spec fn depth_below() -> nat {
        1
    }

    open spec fn rendering(&self, depth: nat, label: Option<Seq<char>>) -> Seq<Seq<char>> {
        seq![headline(depth, Self::label(), joined(self.leaves()))]
            + self.left_paren.rendering(depth + 1, Some("Left Paren"@))
            + self.type_.rendering(depth + 1, Some("Cast Type"@))
            + self.right_paren.rendering(depth + 1, Some("Right Paren"@))
            + self.ident.rendering(depth + 1, Some("Cast Indentifier"@))
    }

    fn lexemes(&self) -> (pairs: Vec<(Token, String)>) {
        let mut pairs = self.left_paren.lexemes();
        let mut more = self.type_.lexemes();
        pairs.append(&mut more);
        let mut more = self.right_paren.lexemes();
        pairs.append(&mut more);
        let mut more = self.ident.lexemes();
        pairs.append(&mut more);
        pairs
    }

    fn lexeme_signature(&self) -> (sigg: String) {
        join_lexemes(&self.lexemes())
    }

    fn parse_label() -> (label: String) {
        String::from_str("Typecast Expression")
    }

    fn display(&self, depth: usize, label: Option<String>) -> (lines: Vec<String>) {
        let mut lines: Vec<String> = Vec::new();
        lines.push(
            make_headline(depth, Self::parse_label().as_str(), self.lexeme_signature().as_str()),
        );
        assert(
            views(lines@) =~= seq![headline(depth as nat, Self::label(), joined(self.leaves()))]
        );
        let ghost before = lines@;
        let mut more = self.left_paren.display(depth + 1, Some(String::from_str("Left Paren")));
        let ghost added = more@;
        lines.append(&mut more);
        assert(views(lines@) =~= views(before) + views(added));
        let ghost before = lines@;
        let mut more = self.type_.display(depth + 1, Some(String::from_str("Cast Type")));
        let ghost added = more@;
        lines.append(&mut more);
        assert(views(lines@) =~= views(before) + views(added));
        let ghost before = lines@;
        let mut more = self.right_paren.display(depth + 1, Some(String::from_str("Right Paren")));
        let ghost added = more@;
        lines.append(&mut more);
        assert(views(lines@) =~= views(before) + views(added));
        let ghost before = lines@;
        let mut more = self.ident.display(depth + 1, Some(String::from_str("Cast Indentifier")));
        let ghost added = more@;
        lines.append(&mut more);
        assert(views(lines@) =~= views(before) + views(added));
        lines
    }
}

impl Parse for TypecastExpression {
    open spec fn outcome(tokens: Seq<(Token, String)>, position: int) -> Result<
        int,
        ParseErrorView,
    > {
        if position >= tokens.len() {
            Err(ParseErrorView::NothingFound { expected: Self::label() })
        } else {
            match LeftParen::outcome(tokens, position) {
                Err(e) => Err(e),
                Ok(after_5) => match Type::outcome(tokens, after_5) {
                    Err(e) => Err(e),
                    Ok(after_6) => match RightParen::outcome(tokens, after_6) {
                        Err(e) => Err(e),
                        Ok(after_7) => Identifier::outcome(tokens, after_7),
                    },
                },
            }
        }
    }

    proof fn lemma_outcome_in_bounds(tokens: Seq<(Token, String)>, position: int) {
        LeftParen::lemma_outcome_in_bounds(tokens, position);
        if let Ok(after_0) = LeftParen::outcome(tokens, position) {
            Type::lemma_outcome_in_bounds(tokens, after_0);
            if let Ok(after_1) = Type::outcome(tokens, after_0) {
                RightParen::lemma_outcome_in_bounds(tokens, after_1);
                if let Ok(after_2) = RightParen::outcome(tokens, after_1) {
                    Identifier::lemma_outcome_in_bounds(tokens, after_2);
                }
            }
        }
    }

    open spec fn stops_at(node: Self, tokens: Seq<(Token, String)>, end: int) -> bool {
        &&& Identifier::stops_at(node.ident, tokens, end)
        &&& RightParen::stops_at(node.right_paren, tokens, end - node.ident.leaves().len())
        &&& Type::stops_at(
            node.type_,
            tokens,
            end - node.ident.leaves().len() - node.right_paren.leaves().len(),
        )
        &&& LeftParen::stops_at(
            node.left_paren,
            tokens,
            end
                - node.ident.leaves().len()
                - node.right_paren.leaves().len()
                - node.type_.leaves().len(),
        )
    }

    proof fn lemma_parses_back(node: Self, tokens: Seq<(Token, String)>, position: int) {
        lemma_parts_stand(
            node.left_paren.leaves() + node.type_.leaves() + node.right_paren.leaves(),
            node.ident.leaves(),
            tokens,
            position,
        );
        lemma_parts_stand(
            node.left_paren.leaves() + node.type_.leaves(),
            node.right_paren.leaves(),
            tokens,
            position,
        );
        lemma_parts_stand(node.left_paren.leaves(), node.type_.leaves(), tokens, position);
        let here = position;
        LeftParen::lemma_parses_back(node.left_paren, tokens, here);
        let here = here + node.left_paren.leaves().len();
        Type::lemma_parses_back(node.type_, tokens, here);
        let here = here + node.type_.leaves().len();
        RightParen::lemma_parses_back(node.right_paren, tokens, here);
        let here = here + node.right_paren.leaves().len();
        Identifier::lemma_parses_back(node.ident, tokens, here);
    }

    #[verifier::rlimit(60)]
    fn parse(buffer: &mut ParseBuffer) -> (r: Result<Self, ParseError>) {
        match buffer.peek() {
            None => {
                return Err(ParseError::NothingFound { expected: Self::parse_label() });
            },
            Some(_) => {},
        }
        let mut fork = buffer.fork();
        let ghost tokens = buffer.tokens();
        proof {
            LeftParen::lemma_outcome_in_bounds(tokens, fork.position());
        }
        let left_paren = match LeftParen::parse(&mut fork) {
            Ok(node) => node,
            Err(error) => {
                return Err(error);
            },
        };
        proof {
            Type::lemma_outcome_in_bounds(tokens, fork.position());
        }
        let type_ = match Type::parse(&mut fork) {
            Ok(node) => node,
            Err(error) => {
                return Err(error);
            },
        };
        proof {
            RightParen::lemma_outcome_in_bounds(tokens, fork.position());
        }
        let right_paren = match RightParen::parse(&mut fork) {
            Ok(node) => node,
            Err(error) => {
                return Err(error);
            },
        };
        proof {
            Identifier::lemma_outcome_in_bounds(tokens, fork.position());
        }
        let ident = match Identifier::parse(&mut fork) {
            Ok(node) => node,
            Err(error) => {
                return Err(error);
            },
        };
        let node = TypecastExpression { left_paren, type_, right_paren, ident };
        assert(node.leaves() =~= tokens.subrange(buffer.position(), fork.position()));
        *buffer = fork;
        Ok(node)
    }
}

/// An arithmetic expression: `term [term-extension]`.
#[derive(Debug)]
pub struct ArithmeticExpression {
    pub lhs_term: Term,
    pub extend: Option<TermExtend>,
}

/// The extension of an arithmetic expression: `+ expression | - expression`.
///
/// The operand is the rest of the chain, with its own extension if it has
/// one.
#[derive(Debug)]
pub enum TermExtend {
    Add(Plus, Box<ArithmeticExpression>),
    Subtract(Minus, Box<ArithmeticExpression>),
}

/// A copy of an arithmetic expression.
fn clone_arithmetic(node: &ArithmeticExpression) -> (copy: ArithmeticExpression)
    decreases node,
{
    let extend = match &node.extend {
        None => None,
        Some(TermExtend::Add(operator, operand)) => Some(
            TermExtend::Add(operator.clone(), Box::new(clone_arithmetic(operand))),
        ),
        Some(TermExtend::Subtract(operator, operand)) => Some(
            TermExtend::Subtract(operator.clone(), Box::new(clone_arithmetic(operand))),
        ),
    };
    ArithmeticExpression { lhs_term: node.lhs_term.clone(), extend }
}

impl Clone for ArithmeticExpression {
    fn clone(&self) -> (copy: Self) {
        clone_arithmetic(self)
    }
}

impl Clone for TermExtend {
    fn clone(&self) -> (copy: Self) {
        match self {
            TermExtend::Add(operator, operand) => {
                TermExtend::Add(operator.clone(), Box::new(clone_arithmetic(operand)))
            },
            TermExtend::Subtract(operator, operand) => {
                TermExtend::Subtract(operator.clone(), Box::new(clone_arithmetic(operand)))
            },
        }
    }
}

/// Whether an arithmetic expression and every operand under it have the shape of their
/// rules.
pub open spec fn arithmetic_shaped(node: ArithmeticExpression) -> bool
    decreases node,
{
    node.lhs_term.shaped() && match node.extend {
        None => true,
        Some(TermExtend::Add(operator, operand)) => {
            operator.shaped() && arithmetic_shaped(*operand)
        },
        Some(TermExtend::Subtract(operator, operand)) => {
            operator.shaped() && arithmetic_shaped(*operand)
        },
    }
}

/// The tokens under what follows the first operand of an arithmetic expression.
pub open spec fn arithmetic_tail(node: ArithmeticExpression) -> Seq<(Token, String)>
    decreases node, 0int,
{
    match node.extend {
        None => Seq::empty(),
        Some(TermExtend::Add(operator, operand)) => operator.leaves() + arithmetic_leaves(*operand),
        Some(TermExtend::Subtract(operator, operand)) => {
            operator.leaves() + arithmetic_leaves(*operand)
        },
    }
}

/// The tokens under an arithmetic expression, in source order.
pub open spec fn arithmetic_leaves(node: ArithmeticExpression) -> Seq<(Token, String)>
    decreases node, 1int,
{
    node.lhs_term.leaves() + arithmetic_tail(node)
}

/// The lines of a chain: its first operand, then every operator with the
/// operand behind it, all at the same depth.
pub open spec fn arithmetic_chain_rendering(node: ArithmeticExpression, depth: nat) -> Seq<
    Seq<char>,
>
    decreases node,
{
    node.lhs_term.rendering(depth, None) + match node.extend {
        None => Seq::empty(),
        Some(TermExtend::Add(operator, operand)) => {
            seq![headline(depth, "Operator"@, operator.lexeme@)]
                + arithmetic_chain_rendering(*operand, depth)
        },
        Some(TermExtend::Subtract(operator, operand)) => {
            seq![headline(depth, "Operator"@, operator.lexeme@)]
                + arithmetic_chain_rendering(*operand, depth)
        },
    }
}

/// What parsing an arithmetic expression at `position` comes to: its first
/// operand, then its extension, which is read where the operand ends (never
/// before the place where the operand began, nor behind the end of the
/// stream).
pub open spec fn arithmetic_outcome(tokens: Seq<(Token, String)>, position: int) -> Result<
    int,
    ParseErrorView,
>
    decreases tokens.len() - position, 1int,
    when 0 <= position <= tokens.len()
    via arithmetic_outcome_decreases
{
    if position >= tokens.len() {
        Err(ParseErrorView::NothingFound { expected: "Arithmetic Expression"@ })
    } else {
        match Term::outcome(tokens, position) {
            Err(e) => Err(e),
            Ok(after_operand) => if position <= after_operand <= tokens.len() {
                arithmetic_extension_outcome(tokens, after_operand)
            } else {
                Ok(after_operand)
            },
        }
    }
}

/// What parsing the extension of an arithmetic expression at `position` comes
/// to: nothing is read at the end of the stream or where neither operator
/// stands; behind an operator the rest of the chain has to come.
pub open spec fn arithmetic_extension_outcome(
    tokens: Seq<(Token, String)>,
    position: int,
) -> Result<int, ParseErrorView>
    decreases tokens.len() - position, 0int,
    when 0 <= position <= tokens.len()
    via arithmetic_extension_outcome_decreases
{
    if position >= tokens.len() {
        Ok(position)
    } else {
        match Plus::outcome(tokens, position) {
            Ok(after_operator) => arithmetic_outcome(tokens, after_operator),
            Err(_) => match Minus::outcome(tokens, position) {
                Ok(after_operator) => arithmetic_outcome(tokens, after_operator),
                Err(_) => Ok(position),
            },
        }
    }
}

/// Whether `node` is the tree that the tokens at `position` spell: its first
/// operand is what the operand's rule reads there, it has an extension
/// exactly where an operator follows, under the first operator that does,
/// and the operand of the extension is the tree of the whole rest of the
/// chain. So a chain of operators groups to the right.
pub open spec fn arithmetic_built(
    node: ArithmeticExpression,
    tokens: Seq<(Token, String)>,
    position: int,
) -> bool
    decreases node,
{
    &&& Term::outcome(tokens, position) matches Ok(after_operand)
    &&& node.lhs_term.leaves() == tokens.subrange(position, after_operand)
    &&& match node.extend {
        None => arithmetic_extension_outcome(tokens, after_operand) == Ok::<int, ParseErrorView>(
            after_operand,
        ),
        Some(TermExtend::Add(_, operand)) => {
            &&& Plus::outcome(tokens, after_operand) is Ok
            &&& arithmetic_built(*operand, tokens, after_operand + 1)
        },
        Some(TermExtend::Subtract(_, operand)) => {
            &&& Plus::outcome(tokens, after_operand) is Err
            &&& Minus::outcome(tokens, after_operand) is Ok
            &&& arithmetic_built(*operand, tokens, after_operand + 1)
        },
    }
}

/// Whether `found` is the extension that the tokens at `position` spell.
pub open spec fn arithmetic_extension_built(
    found: Option<TermExtend>,
    tokens: Seq<(Token, String)>,
    position: int,
) -> bool {
    match found {
        None => {
            arithmetic_extension_outcome(tokens, position) == Ok::<int, ParseErrorView>(position)
        },
        Some(TermExtend::Add(_, operand)) => {
            &&& Plus::outcome(tokens, position) is Ok
            &&& arithmetic_built(*operand, tokens, position + 1)
        },
        Some(TermExtend::Subtract(_, operand)) => {
            &&& Plus::outcome(tokens, position) is Err
            &&& Minus::outcome(tokens, position) is Ok
            &&& arithmetic_built(*operand, tokens, position + 1)
        },
    }
}

/// The rule reads its extension only at or behind the place where it began.
#[via_fn]
proof fn arithmetic_outcome_decreases(tokens: Seq<(Token, String)>, position: int) {
}

/// The rest of a chain is read behind an operator, which is one token.
#[via_fn]
proof fn arithmetic_extension_outcome_decreases(tokens: Seq<(Token, String)>, position: int) {
}

/// Where parsing an arithmetic expression succeeds, it ends inside the token stream.
pub proof fn lemma_arithmetic_outcome_in_bounds(tokens: Seq<(Token, String)>, position: int)
    requires
        0 <= position <= tokens.len(),
    ensures
        arithmetic_outcome(tokens, position) matches Ok(end) ==> position <= end <= tokens.len(),
    decreases tokens.len() - position, 1int,
{
    Term::lemma_outcome_in_bounds(tokens, position);
    if position < tokens.len() {
        if let Ok(after_operand) = Term::outcome(tokens, position) {
            lemma_arithmetic_extension_outcome_in_bounds(tokens, after_operand);
        }
    }
}

/// A successfully parsed extension ends inside the token stream.
pub proof fn lemma_arithmetic_extension_outcome_in_bounds(
    tokens: Seq<(Token, String)>,
    position: int,
)
    requires
        0 <= position <= tokens.len(),
    ensures
        arithmetic_extension_outcome(tokens, position) matches Ok(end) ==> position <= end
            <= tokens.len(),
    decreases tokens.len() - position, 0int,
{
    if position < tokens.len() {
        if let Ok(after_operator) = Plus::outcome(tokens, position) {
            lemma_arithmetic_outcome_in_bounds(tokens, after_operator);
        } else if let Ok(after_operator) = Minus::outcome(tokens, position) {
            lemma_arithmetic_outcome_in_bounds(tokens, after_operator);
        }
    }
}

/// Whether neither operator of an arithmetic expression stands at `end`.
pub open spec fn arithmetic_ends(tokens: Seq<(Token, String)>, end: int) -> bool {
    end >= tokens.len() || (Plus::outcome(tokens, end) is Err && Minus::outcome(tokens, end) is Err)
}

/// Whether the rule, having read an arithmetic expression, reads no further than `end`.
pub open spec fn arithmetic_stops_at(
    node: ArithmeticExpression,
    tokens: Seq<(Token, String)>,
    end: int,
) -> bool
    decreases node,
{
    match node.extend {
        None => Term::stops_at(node.lhs_term, tokens, end) && arithmetic_ends(tokens, end),
        Some(TermExtend::Add(operator, operand)) => {
            &&& arithmetic_stops_at(*operand, tokens, end)
            &&& Term::stops_at(node.lhs_term, tokens, end - arithmetic_tail(node).len())
        },
        Some(TermExtend::Subtract(operator, operand)) => {
            &&& arithmetic_stops_at(*operand, tokens, end)
            &&& Term::stops_at(node.lhs_term, tokens, end - arithmetic_tail(node).len())
        },
    }
}

/// An arithmetic expression of the rule's shape is parsed back from its own leaves.
pub proof fn lemma_arithmetic_parses_back(
    node: ArithmeticExpression,
    tokens: Seq<(Token, String)>,
    position: int,
)
    requires
        arithmetic_shaped(node),
        stands_at(arithmetic_leaves(node), tokens, position),
        arithmetic_stops_at(node, tokens, position + arithmetic_leaves(node).len()),
    ensures
        arithmetic_outcome(tokens, position) == Ok::<int, ParseErrorView>(
            position + arithmetic_leaves(node).len(),
        ),
    decreases node,
{
    lemma_parts_stand(node.lhs_term.leaves(), arithmetic_tail(node), tokens, position);
    let middle = position + node.lhs_term.leaves().len();
    Term::lemma_parses_back(node.lhs_term, tokens, position);
    Term::lemma_outcome_in_bounds(tokens, position);
    match node.extend {
        None => {},
        Some(TermExtend::Add(operator, operand)) => {
            lemma_parts_stand(operator.leaves(), arithmetic_leaves(*operand), tokens, middle);
            Plus::lemma_parses_back(operator, tokens, middle);
            lemma_arithmetic_parses_back(*operand, tokens, middle + 1);
        },
        Some(TermExtend::Subtract(operator, operand)) => {
            lemma_parts_stand(operator.leaves(), arithmetic_leaves(*operand), tokens, middle);
            Minus::lemma_parses_back(operator, tokens, middle);
            lemma_arithmetic_parses_back(*operand, tokens, middle + 1);
        },
    }
}

/// Parses an arithmetic expression: its first operand, then its extension.
fn parse_arithmetic(buffer: &mut ParseBuffer) -> (r: Result<ArithmeticExpression, ParseError>)
    ensures
        final(buffer).tokens() == old(buffer).tokens(),
        match arithmetic_outcome(old(buffer).tokens(), old(buffer).position()) {
            Ok(end) => {
                &&& r matches Ok(node)
                &&& final(buffer).position() == end
                &&& arithmetic_shaped(node)
                &&& arithmetic_leaves(node) == old(buffer).tokens().subrange(
                    old(buffer).position(),
                    end,
                )
                &&& arithmetic_built(node, old(buffer).tokens(), old(buffer).position())
            },
            Err(e) => {
                &&& r matches Err(error)
                &&& error@ == e
                &&& *final(buffer) == *old(buffer)
            },
        },
    decreases old(buffer).tokens().len() - old(buffer).position(), 1int,
{
    match buffer.peek() {
        None => {
            return Err(
                ParseError::NothingFound { expected: String::from_str("Arithmetic Expression") },
            );
        },
        Some(_) => {},
    }
    let mut fork = buffer.fork();
    let ghost tokens = buffer.tokens();
    proof {
        Term::lemma_outcome_in_bounds(tokens, fork.position());
    }
    let lhs_term = match Term::parse(&mut fork) {
        Ok(node) => node,
        Err(error) => {
            return Err(error);
        },
    };
    proof {
        lemma_arithmetic_extension_outcome_in_bounds(tokens, fork.position());
    }
    let extend = match parse_arithmetic_extension(&mut fork) {
        Ok(node) => node,
        Err(error) => {
            return Err(error);
        },
    };
    let node = ArithmeticExpression { lhs_term, extend };
    assert(arithmetic_leaves(node) =~= tokens.subrange(buffer.position(), fork.position()));
    *buffer = fork;
    Ok(node)
}

/// Parses the extension of an arithmetic expression: the first operator that stands here,
/// and the rest of the chain behind it.
fn parse_arithmetic_extension(buffer: &mut ParseBuffer) -> (r: Result<
    Option<TermExtend>,
    ParseError,
>)
    ensures
        final(buffer).tokens() == old(buffer).tokens(),
        match arithmetic_extension_outcome(old(buffer).tokens(), old(buffer).position()) {
            Ok(end) => {
                &&& r matches Ok(found)
                &&& final(buffer).position() == end
                &&& found.shaped()
                &&& found.leaves() == old(buffer).tokens().subrange(old(buffer).position(), end)
                &&& found is None <==> end == old(buffer).position()
                &&& arithmetic_extension_built(found, old(buffer).tokens(), old(buffer).position())
            },
            Err(e) => {
                &&& r matches Err(error)
                &&& error@ == e
                &&& *final(buffer) == *old(buffer)
            },
        },
    decreases old(buffer).tokens().len() - old(buffer).position(), 0int,
{
    let ghost tokens = buffer.tokens();
    match buffer.peek() {
        None => {
            assert(tokens.subrange(buffer.position(), buffer.position()) =~= Seq::empty());
            return Ok(None);
        },
        Some(_) => {},
    }
    let mut fork = buffer.fork();
    match Plus::parse(&mut fork) {
        Ok(operator) => {
            proof {
                lemma_arithmetic_outcome_in_bounds(tokens, fork.position());
            }
            return match parse_arithmetic(&mut fork) {
                Ok(operand) => {
                    let node = TermExtend::Add(operator, Box::new(operand));
                    assert(node.leaves() =~= tokens.subrange(buffer.position(), fork.position()));
                    *buffer = fork;
                    Ok(Some(node))
                },
                Err(error) => Err(error),
            };
        },
        Err(_) => {},
    }
    let mut fork = buffer.fork();
    match Minus::parse(&mut fork) {
        Ok(operator) => {
            proof {
                lemma_arithmetic_outcome_in_bounds(tokens, fork.position());
            }
            return match parse_arithmetic(&mut fork) {
                Ok(operand) => {
                    let node = TermExtend::Subtract(operator, Box::new(operand));
                    assert(node.leaves() =~= tokens.subrange(buffer.position(), fork.position()));
                    *buffer = fork;
                    Ok(Some(node))
                },
                Err(error) => Err(error),
            };
        },
        Err(_) => {},
    }
    assert(tokens.subrange(buffer.position(), buffer.position()) =~= Seq::empty());
    Ok(None)
}

/// The (token, lexeme) pairs under an arithmetic expression, in source order.
fn arithmetic_lexemes(node: &ArithmeticExpression) -> (pairs: Vec<(Token, String)>)
    ensures
        pairs@ == arithmetic_leaves(*node),
    decreases node,
{
    let mut pairs = node.lhs_term.lexemes();
    match &node.extend {
        None => {
            assert(pairs@ + Seq::<(Token, String)>::empty() =~= pairs@);
        },
        Some(TermExtend::Add(operator, operand)) => {
            let mut of_operator = operator.lexemes();
            let mut of_operand = arithmetic_lexemes(operand);
            pairs.append(&mut of_operator);
            pairs.append(&mut of_operand);
            assert(pairs@ =~= arithmetic_leaves(*node));
        },
        Some(TermExtend::Subtract(operator, operand)) => {
            let mut of_operator = operator.lexemes();
            let mut of_operand = arithmetic_lexemes(operand);
            pairs.append(&mut of_operator);
            pairs.append(&mut of_operand);
            assert(pairs@ =~= arithmetic_leaves(*node));
        },
    }
    pairs
}

/// Renders a chain: its first operand, then every operator with the operand
/// behind it, all at the same depth.
fn display_arithmetic_chain(node: &ArithmeticExpression, depth: usize) -> (lines: Vec<String>)
    requires
        depth + Term::depth_below() <= usize::MAX,
    ensures
        views(lines@) == arithmetic_chain_rendering(*node, depth as nat),
    decreases node,
{
    let mut lines = node.lhs_term.display(depth, None);
    let ghost first = lines@;
    match &node.extend {
        None => {
            assert(views(first) + Seq::<Seq<char>>::empty() =~= views(first));
        },
        Some(TermExtend::Add(operator, operand)) => {
            lines.push(make_headline(depth, "Operator", operator.lexeme.as_str()));
            let mut more = display_arithmetic_chain(operand, depth);
            let ghost added = more@;
            lines.append(&mut more);
            assert(views(lines@) =~= views(first) + (seq![
                headline(depth as nat, "Operator"@, operator.lexeme@),
            ] + views(added)));
        },
        Some(TermExtend::Subtract(operator, operand)) => {
            lines.push(make_headline(depth, "Operator", operator.lexeme.as_str()));
            let mut more = display_arithmetic_chain(operand, depth);
            let ghost added = more@;
            lines.append(&mut more);
            assert(views(lines@) =~= views(first) + (seq![
                headline(depth as nat, "Operator"@, operator.lexeme@),
            ] + views(added)));
        },
    }
    lines
}

impl ParseDisplay for ArithmeticExpression {
    open spec fn shaped(&self) -> bool {
        arithmetic_shaped(*self)
    }

    open spec fn leaves(&self) -> Seq<(Token, String)> {
        arithmetic_leaves(*self)
    }

    open spec fn label() -> Seq<char> {
        "Arithmetic Expression"@
    }

    open spec fn depth_below() -> nat {
        1 + Term::depth_below()
    }

    open spec fn rendering(&self, depth: nat, label: Option<Seq<char>>) -> Seq<Seq<char>> {
        seq![headline(depth, Self::label(), joined(self.leaves()))] + arithmetic_chain_rendering(
            *self,
            depth + 1,
        )
    }

    fn lexemes(&self) -> (pairs: Vec<(Token, String)>) {
        arithmetic_lexemes(self)
    }

    fn lexeme_signature(&self) -> (sigg: String) {
        join_lexemes(&self.lexemes())
    }

    fn parse_label() -> (label: String) {
        String::from_str("Arithmetic Expression")
    }

    fn display(&self, depth: usize, label: Option<String>) -> (lines: Vec<String>) {
        let mut lines: Vec<String> = Vec::new();
        lines.push(
            make_headline(depth, Self::parse_label().as_str(), self.lexeme_signature().as_str()),
        );
        let ghost before = lines@;
        assert(
            views(before) =~= seq![headline(depth as nat, Self::label(), joined(self.leaves()))]
        );
        let mut more = display_arithmetic_chain(self, depth + 1);
        let ghost added = more@;
        lines.append(&mut more);
        assert(views(lines@) =~= views(before) + views(added));
        lines
    }
}

impl Parse for ArithmeticExpression {
    open spec fn outcome(tokens: Seq<(Token, String)>, position: int) -> Result<
        int,
        ParseErrorView,
    > {
        arithmetic_outcome(tokens, position)
    }

    proof fn lemma_outcome_in_bounds(tokens: Seq<(Token, String)>, position: int) {
        lemma_arithmetic_outcome_in_bounds(tokens, position);
    }

    open spec fn stops_at(node: Self, tokens: Seq<(Token, String)>, end: int) -> bool {
        arithmetic_stops_at(node, tokens, end)
    }

    proof fn lemma_parses_back(node: Self, tokens: Seq<(Token, String)>, position: int) {
        lemma_arithmetic_parses_back(node, tokens, position);
    }

    /// Reads the first operand and, behind an operator, the rest of the
    /// chain as the operand of the extension.
    fn parse(buffer: &mut ParseBuffer) -> (r: Result<Self, ParseError>)
        ensures
            r matches Ok(node) ==> arithmetic_built(
                node,
                old(buffer).tokens(),
                old(buffer).position(),
            ),
    {
        parse_arithmetic(buffer)
    }
}

impl ParseDisplay for TermExtend {
    open spec fn shaped(&self) -> bool {
        match self {
            TermExtend::Add(operator, operand) => operator.shaped() && arithmetic_shaped(**operand),
            TermExtend::Subtract(operator, operand) => {
                operator.shaped() && arithmetic_shaped(**operand)
            },
        }
    }

    open spec fn leaves(&self) -> Seq<(Token, String)> {
        match self {
            TermExtend::Add(operator, operand) => operator.leaves() + arithmetic_leaves(**operand),
            TermExtend::Subtract(operator, operand) => {
                operator.leaves() + arithmetic_leaves(**operand)
            },
        }
    }

    open spec fn label() -> Seq<char> {
        "Term Extention"@
    }

    open spec fn depth_below() -> nat {
        Term::depth_below()
    }

    open spec fn rendering(&self, depth: nat, label: Option<Seq<char>>) -> Seq<Seq<char>> {
        match self {
            TermExtend::Add(operator, operand) => {
                seq![headline(depth, "Operator"@, operator.lexeme@)]
                    + arithmetic_chain_rendering(**operand, depth)
            },
            TermExtend::Subtract(operator, operand) => {
                seq![headline(depth, "Operator"@, operator.lexeme@)]
                    + arithmetic_chain_rendering(**operand, depth)
            },
        }
    }

    fn lexemes(&self) -> (pairs: Vec<(Token, String)>) {
        match self {
            TermExtend::Add(operator, operand) => {
                let mut pairs = operator.lexemes();
                let mut more = arithmetic_lexemes(operand);
                pairs.append(&mut more);
                pairs
            },
            TermExtend::Subtract(operator, operand) => {
                let mut pairs = operator.lexemes();
                let mut more = arithmetic_lexemes(operand);
                pairs.append(&mut more);
                pairs
            },
        }
    }

    fn lexeme_signature(&self) -> (sigg: String) {
        join_lexemes(&self.lexemes())
    }

    fn parse_label() -> (label: String) {
        String::from_str("Term Extention")
    }

    fn display(&self, depth: usize, label: Option<String>) -> (lines: Vec<String>) {
        let mut lines: Vec<String> = Vec::new();
        match self {
            TermExtend::Add(operator, operand) => {
                lines.push(make_headline(depth, "Operator", operator.lexeme.as_str()));
                let ghost before = lines@;
                let mut more = display_arithmetic_chain(operand, depth);
                let ghost added = more@;
                lines.append(&mut more);
                assert(views(lines@) =~= views(before) + views(added));
                assert(
                    views(before) =~= seq![headline(depth as nat, "Operator"@, operator.lexeme@)]
                );
            },
            TermExtend::Subtract(operator, operand) => {
                lines.push(make_headline(depth, "Operator", operator.lexeme.as_str()));
                let ghost before = lines@;
                let mut more = display_arithmetic_chain(operand, depth);
                let ghost added = more@;
                lines.append(&mut more);
                assert(views(lines@) =~= views(before) + views(added));
                assert(
                    views(before) =~= seq![headline(depth as nat, "Operator"@, operator.lexeme@)]
                );
            },
        }
        lines
    }
}

impl Parse<Option<TermExtend>> for TermExtend {
    open spec fn outcome(tokens: Seq<(Token, String)>, position: int) -> Result<
        int,
        ParseErrorView,
    > {
        arithmetic_extension_outcome(tokens, position)
    }

    proof fn lemma_outcome_in_bounds(tokens: Seq<(Token, String)>, position: int) {
        lemma_arithmetic_extension_outcome_in_bounds(tokens, position);
    }

    open spec fn stops_at(node: Option<Self>, tokens: Seq<(Token, String)>, end: int) -> bool {
        match node {
            None => arithmetic_ends(tokens, end),
            Some(TermExtend::Add(operator, operand)) => arithmetic_stops_at(*operand, tokens, end),
            Some(TermExtend::Subtract(operator, operand)) => {
                arithmetic_stops_at(*operand, tokens, end)
            },
        }
    }

    proof fn lemma_parses_back(node: Option<Self>, tokens: Seq<(Token, String)>, position: int) {
        match node {
            None => {},
            Some(TermExtend::Add(operator, operand)) => {
                lemma_parts_stand(operator.leaves(), arithmetic_leaves(*operand), tokens, position);
                Plus::lemma_parses_back(operator, tokens, position);
                lemma_arithmetic_parses_back(*operand, tokens, position + 1);
            },
            Some(TermExtend::Subtract(operator, operand)) => {
                lemma_parts_stand(operator.leaves(), arithmetic_leaves(*operand), tokens, position);
                Minus::lemma_parses_back(operator, tokens, position);
                lemma_arithmetic_parses_back(*operand, tokens, position + 1);
            },
        }
    }

    /// Reads the extension that the first operator found announces; there
    /// is none at the end of the stream or where neither operator stands.
    fn parse(buffer: &mut ParseBuffer) -> (r: Result<Option<Self>, ParseError>)
        ensures
            r matches Ok(found) ==> arithmetic_extension_built(
                found,
                old(buffer).tokens(),
                old(buffer).position(),
            ),
    {
        parse_arithmetic_extension(buffer)
    }
}


/// A term: `factor [factor-extension]`.
#[derive(Debug)]
pub struct Term {
    pub factor: Factor,
    pub extend: Option<FactorExtend>,
}

/// The extension of a term: `* term | / term`.
///
/// The operand is the rest of the chain, with its own extension if it has
/// one.
#[derive(Debug)]
pub enum FactorExtend {
    Multiply(Multiply, Box<Term>),
    Divide(Divide, Box<Term>),
}

/// A copy of a term.
fn clone_term(node: &Term) -> (copy: Term)
    decreases node,
{
    let extend = match &node.extend {
        None => None,
        Some(FactorExtend::Multiply(operator, operand)) => Some(
            FactorExtend::Multiply(operator.clone(), Box::new(clone_term(operand))),
        ),
        Some(FactorExtend::Divide(operator, operand)) => Some(
            FactorExtend::Divide(operator.clone(), Box::new(clone_term(operand))),
        ),
    };
    Term { factor: node.factor.clone(), extend }
}

impl Clone for Term {
    fn clone(&self) -> (copy: Self) {
        clone_term(self)
    }
}

impl Clone for FactorExtend {
    fn clone(&self) -> (copy: Self) {
        match self {
            FactorExtend::Multiply(operator, operand) => {
                FactorExtend::Multiply(operator.clone(), Box::new(clone_term(operand)))
            },
            FactorExtend::Divide(operator, operand) => {
                FactorExtend::Divide(operator.clone(), Box::new(clone_term(operand)))
            },
        }
    }
}

/// Whether a term and every operand under it have the shape of their
/// rules.
pub open spec fn term_shaped(node: Term) -> bool
    decreases node,
{
    node.factor.shaped() && match node.extend {
        None => true,
        Some(FactorExtend::Multiply(operator, operand)) => {
            operator.shaped() && term_shaped(*operand)
        },
        Some(FactorExtend::Divide(operator, operand)) => operator.shaped() && term_shaped(*operand),
    }
}

/// The tokens under what follows the first operand of a term.
pub open spec fn term_tail(node: Term) -> Seq<(Token, String)>
    decreases node, 0int,
{
    match node.extend {
        None => Seq::empty(),
        Some(FactorExtend::Multiply(operator, operand)) => {
            operator.leaves() + term_leaves(*operand)
        },
        Some(FactorExtend::Divide(operator, operand)) => operator.leaves() + term_leaves(*operand),
    }
}

/// The tokens under a term, in source order.
pub open spec fn term_leaves(node: Term) -> Seq<(Token, String)>
    decreases node, 1int,
{
    node.factor.leaves() + term_tail(node)
}

/// The lines of a chain: its first operand, then every operator with the
/// operand behind it, all at the same depth.
pub open spec fn term_chain_rendering(node: Term, depth: nat) -> Seq<
    Seq<char>,
>
    decreases node,
{
    node.factor.rendering(depth, None) + match node.extend {
        None => Seq::empty(),
        Some(FactorExtend::Multiply(operator, operand)) => {
            seq![headline(depth, "Operator"@, operator.lexeme@)]
                + term_chain_rendering(*operand, depth)
        },
        Some(FactorExtend::Divide(operator, operand)) => {
            seq![headline(depth, "Operator"@, operator.lexeme@)]
                + term_chain_rendering(*operand, depth)
        },
    }
}

/// What parsing a term at `position` comes to: its first
/// operand, then its extension, which is read where the operand ends (never
/// before the place where the operand began, nor behind the end of the
/// stream).
pub open spec fn term_outcome(tokens: Seq<(Token, String)>, position: int) -> Result<
    int,
    ParseErrorView,
>
    decreases tokens.len() - position, 1int,
    when 0 <= position <= tokens.len()
    via term_outcome_decreases
{
    if position >= tokens.len() {
        Err(ParseErrorView::NothingFound { expected: "Term"@ })
    } else {
        match Factor::outcome(tokens, position) {
            Err(e) => Err(e),
            Ok(after_operand) => if position <= after_operand <= tokens.len() {
                term_extension_outcome(tokens, after_operand)
            } else {
                Ok(after_operand)
            },
        }
    }
}

/// What parsing the extension of a term at `position` comes
/// to: nothing is read at the end of the stream or where neither operator
/// stands; behind an operator the rest of the chain has to come.
pub open spec fn term_extension_outcome(
    tokens: Seq<(Token, String)>,
    position: int,
) -> Result<int, ParseErrorView>
    decreases tokens.len() - position, 0int,
    when 0 <= position <= tokens.len()
    via term_extension_outcome_decreases
{
    if position >= tokens.len() {
        Ok(position)
    } else {
        match Multiply::outcome(tokens, position) {
            Ok(after_operator) => term_outcome(tokens, after_operator),
            Err(_) => match Divide::outcome(tokens, position) {
                Ok(after_operator) => term_outcome(tokens, after_operator),
                Err(_) => Ok(position),
            },
        }
    }
}

/// Whether `node` is the tree that the tokens at `position` spell: its first
/// operand is what the operand's rule reads there, it has an extension
/// exactly where an operator follows, under the first operator that does,
/// and the operand of the extension is the tree of the whole rest of the
/// chain. So a chain of operators groups to the right.
pub open spec fn term_built(
    node: Term,
    tokens: Seq<(Token, String)>,
    position: int,
) -> bool
    decreases node,
{
    &&& Factor::outcome(tokens, position) matches Ok(after_operand)
    &&& node.factor.leaves() == tokens.subrange(position, after_operand)
    &&& match node.extend {
        None => term_extension_outcome(tokens, after_operand) == Ok::<int, ParseErrorView>(
            after_operand,
        ),
        Some(FactorExtend::Multiply(_, operand)) => {
            &&& Multiply::outcome(tokens, after_operand) is Ok
            &&& term_built(*operand, tokens, after_operand + 1)
        },
        Some(FactorExtend::Divide(_, operand)) => {
            &&& Multiply::outcome(tokens, after_operand) is Err
            &&& Divide::outcome(tokens, after_operand) is Ok
            &&& term_built(*operand, tokens, after_operand + 1)
        },
    }
}

/// Whether `found` is the extension that the tokens at `position` spell.
pub open spec fn term_extension_built(
    found: Option<FactorExtend>,
    tokens: Seq<(Token, String)>,
    position: int,
) -> bool {
    match found {
        None => term_extension_outcome(tokens, position) == Ok::<int, ParseErrorView>(position),
        Some(FactorExtend::Multiply(_, operand)) => {
            &&& Multiply::outcome(tokens, position) is Ok
            &&& term_built(*operand, tokens, position + 1)
        },
        Some(FactorExtend::Divide(_, operand)) => {
            &&& Multiply::outcome(tokens, position) is Err
            &&& Divide::outcome(tokens, position) is Ok
            &&& term_built(*operand, tokens, position + 1)
        },
    }
}

/// The rule reads its extension only at or behind the place where it began.
#[via_fn]
proof fn term_outcome_decreases(tokens: Seq<(Token, String)>, position: int) {
}

/// The rest of a chain is read behind an operator, which is one token.
#[via_fn]
proof fn term_extension_outcome_decreases(tokens: Seq<(Token, String)>, position: int) {
}

/// Where parsing a term succeeds, it ends inside the token stream.
pub proof fn lemma_term_outcome_in_bounds(tokens: Seq<(Token, String)>, position: int)
    requires
        0 <= position <= tokens.len(),
    ensures
        term_outcome(tokens, position) matches Ok(end) ==> position <= end <= tokens.len(),
    decreases tokens.len() - position, 1int,
{
    Factor::lemma_outcome_in_bounds(tokens, position);
    if position < tokens.len() {
        if let Ok(after_operand) = Factor::outcome(tokens, position) {
            lemma_term_extension_outcome_in_bounds(tokens, after_operand);
        }
    }
}

/// A successfully parsed extension ends inside the token stream.
pub proof fn lemma_term_extension_outcome_in_bounds(tokens: Seq<(Token, String)>, position: int)
    requires
        0 <= position <= tokens.len(),
    ensures
        term_extension_outcome(tokens, position) matches Ok(end) ==> position <= end
            <= tokens.len(),
    decreases tokens.len() - position, 0int,
{
    if position < tokens.len() {
        if let Ok(after_operator) = Multiply::outcome(tokens, position) {
            lemma_term_outcome_in_bounds(tokens, after_operator);
        } else if let Ok(after_operator) = Divide::outcome(tokens, position) {
            lemma_term_outcome_in_bounds(tokens, after_operator);
        }
    }
}

/// Whether neither operator of a term stands at `end`.
pub open spec fn term_ends(tokens: Seq<(Token, String)>, end: int) -> bool {
    end >= tokens.len() || (Multiply::outcome(tokens, end) is Err
        && Divide::outcome(tokens, end) is Err)
}

/// Whether the rule, having read a term, reads no further than `end`.
pub open spec fn term_stops_at(
    node: Term,
    tokens: Seq<(Token, String)>,
    end: int,
) -> bool
    decreases node,
{
    match node.extend {
        None => Factor::stops_at(node.factor, tokens, end) && term_ends(tokens, end),
        Some(FactorExtend::Multiply(operator, operand)) => {
            &&& term_stops_at(*operand, tokens, end)
            &&& Factor::stops_at(node.factor, tokens, end - term_tail(node).len())
        },
        Some(FactorExtend::Divide(operator, operand)) => {
            &&& term_stops_at(*operand, tokens, end)
            &&& Factor::stops_at(node.factor, tokens, end - term_tail(node).len())
        },
    }
}

/// A term of the rule's shape is parsed back from its own leaves.
pub proof fn lemma_term_parses_back(node: Term, tokens: Seq<(Token, String)>, position: int)
    requires
        term_shaped(node),
        stands_at(term_leaves(node), tokens, position),
        term_stops_at(node, tokens, position + term_leaves(node).len()),
    ensures
        term_outcome(tokens, position) == Ok::<int, ParseErrorView>(
            position + term_leaves(node).len(),
        ),
    decreases node,
{
    lemma_parts_stand(node.factor.leaves(), term_tail(node), tokens, position);
    let middle = position + node.factor.leaves().len();
    Factor::lemma_parses_back(node.factor, tokens, position);
    Factor::lemma_outcome_in_bounds(tokens, position);
    match node.extend {
        None => {},
        Some(FactorExtend::Multiply(operator, operand)) => {
            lemma_parts_stand(operator.leaves(), term_leaves(*operand), tokens, middle);
            Multiply::lemma_parses_back(operator, tokens, middle);
            lemma_term_parses_back(*operand, tokens, middle + 1);
        },
        Some(FactorExtend::Divide(operator, operand)) => {
            lemma_parts_stand(operator.leaves(), term_leaves(*operand), tokens, middle);
            Divide::lemma_parses_back(operator, tokens, middle);
            lemma_term_parses_back(*operand, tokens, middle + 1);
        },
    }
}

/// Parses a term: its first operand, then its extension.
fn parse_term(buffer: &mut ParseBuffer) -> (r: Result<Term, ParseError>)
    ensures
        final(buffer).tokens() == old(buffer).tokens(),
        match term_outcome(old(buffer).tokens(), old(buffer).position()) {
            Ok(end) => {
                &&& r matches Ok(node)
                &&& final(buffer).position() == end
                &&& term_shaped(node)
                &&& term_leaves(node) == old(buffer).tokens().subrange(
                    old(buffer).position(),
                    end,
                )
                &&& term_built(node, old(buffer).tokens(), old(buffer).position())
            },
            Err(e) => {
                &&& r matches Err(error)
                &&& error@ == e
                &&& *final(buffer) == *old(buffer)
            },
        },
    decreases old(buffer).tokens().len() - old(buffer).position(), 1int,
{
    match buffer.peek() {
        None => {
            return Err(ParseError::NothingFound { expected: String::from_str("Term") });
        },
        Some(_) => {},
    }
    let mut fork = buffer.fork();
    let ghost tokens = buffer.tokens();
    proof {
        Factor::lemma_outcome_in_bounds(tokens, fork.position());
    }
    let factor = match Factor::parse(&mut fork) {
        Ok(node) => node,
        Err(error) => {
            return Err(error);
        },
    };
    proof {
        lemma_term_extension_outcome_in_bounds(tokens, fork.position());
    }
    let extend = match parse_term_extension(&mut fork) {
        Ok(node) => node,
        Err(error) => {
            return Err(error);
        },
    };
    let node = Term { factor, extend };
    assert(term_leaves(node) =~= tokens.subrange(buffer.position(), fork.position()));
    *buffer = fork;
    Ok(node)
}

/// Parses the extension of a term: the first operator that stands here,
/// and the rest of the chain behind it.
fn parse_term_extension(buffer: &mut ParseBuffer) -> (r: Result<
    Option<FactorExtend>,
    ParseError,
>)
    ensures
        final(buffer).tokens() == old(buffer).tokens(),
        match term_extension_outcome(old(buffer).tokens(), old(buffer).position()) {
            Ok(end) => {
                &&& r matches Ok(found)
                &&& final(buffer).position() == end
                &&& found.shaped()
                &&& found.leaves() == old(buffer).tokens().subrange(old(buffer).position(), end)
                &&& found is None <==> end == old(buffer).position()
                &&& term_extension_built(found, old(buffer).tokens(), old(buffer).position())
            },
            Err(e) => {
                &&& r matches Err(error)
                &&& error@ == e
                &&& *final(buffer) == *old(buffer)
            },
        },
    decreases old(buffer).tokens().len() - old(buffer).position(), 0int,
{
    let ghost tokens = buffer.tokens();
    match buffer.peek() {
        None => {
            assert(tokens.subrange(buffer.position(), buffer.position()) =~= Seq::empty());
            return Ok(None);
        },
        Some(_) => {},
    }
    let mut fork = buffer.fork();
    match Multiply::parse(&mut fork) {
        Ok(operator) => {
            proof {
                lemma_term_outcome_in_bounds(tokens, fork.position());
            }
            return match parse_term(&mut fork) {
                Ok(operand) => {
                    let node = FactorExtend::Multiply(operator, Box::new(operand));
                    assert(node.leaves() =~= tokens.subrange(buffer.position(), fork.position()));
                    *buffer = fork;
                    Ok(Some(node))
                },
                Err(error) => Err(error),
            };
        },
        Err(_) => {},
    }
    let mut fork = buffer.fork();
    match Divide::parse(&mut fork) {
        Ok(operator) => {
            proof {
                lemma_term_outcome_in_bounds(tokens, fork.position());
            }
            return match parse_term(&mut fork) {
                Ok(operand) => {
                    let node = FactorExtend::Divide(operator, Box::new(operand));
                    assert(node.leaves() =~= tokens.subrange(buffer.position(), fork.position()));
                    *buffer = fork;
                    Ok(Some(node))
                },
                Err(error) => Err(error),
            };
        },
        Err(_) => {},
    }
    assert(tokens.subrange(buffer.position(), buffer.position()) =~= Seq::empty());
    Ok(None)
}

/// The (token, lexeme) pairs under a term, in source order.
fn term_lexemes(node: &Term) -> (pairs: Vec<(Token, String)>)
    ensures
        pairs@ == term_leaves(*node),
    decreases node,
{
    let mut pairs = node.factor.lexemes();
    match &node.extend {
        None => {
            assert(pairs@ + Seq::<(Token, String)>::empty() =~= pairs@);
        },
        Some(FactorExtend::Multiply(operator, operand)) => {
            let mut of_operator = operator.lexemes();
            let mut of_operand = term_lexemes(operand);
            pairs.append(&mut of_operator);
            pairs.append(&mut of_operand);
            assert(pairs@ =~= term_leaves(*node));
        },
        Some(FactorExtend::Divide(operator, operand)) => {
            let mut of_operator = operator.lexemes();
            let mut of_operand = term_lexemes(operand);
            pairs.append(&mut of_operator);
            pairs.append(&mut of_operand);
            assert(pairs@ =~= term_leaves(*node));
        },
    }
    pairs
}

/// Renders a chain: its first operand, then every operator with the operand
/// behind it, all at the same depth.
fn display_term_chain(node: &Term, depth: usize) -> (lines: Vec<String>)
    requires
        depth + Factor::depth_below() <= usize::MAX,
    ensures
        views(lines@) == term_chain_rendering(*node, depth as nat),
    decreases node,
{
    let mut lines = node.factor.display(depth, None);
    let ghost first = lines@;
    match &node.extend {
        None => {
            assert(views(first) + Seq::<Seq<char>>::empty() =~= views(first));
        },
        Some(FactorExtend::Multiply(operator, operand)) => {
            lines.push(make_headline(depth, "Operator", operator.lexeme.as_str()));
            let mut more = display_term_chain(operand, depth);
            let ghost added = more@;
            lines.append(&mut more);
            assert(views(lines@) =~= views(first) + (seq![
                headline(depth as nat, "Operator"@, operator.lexeme@),
            ] + views(added)));
        },
        Some(FactorExtend::Divide(operator, operand)) => {
            lines.push(make_headline(depth, "Operator", operator.lexeme.as_str()));
            let mut more = display_term_chain(operand, depth);
            let ghost added = more@;
            lines.append(&mut more);
            assert(views(lines@) =~= views(first) + (seq![
                headline(depth as nat, "Operator"@, operator.lexeme@),
            ] + views(added)));
        },
    }
    lines
}

impl ParseDisplay for Term {
    open spec fn shaped(&self) -> bool {
        term_shaped(*self)
    }

    open spec fn leaves(&self) -> Seq<(Token, String)> {
        term_leaves(*self)
    }

    open spec fn label() -> Seq<char> {
        "Term"@
    }

    open spec fn depth_below() -> nat {
        1 + Factor::depth_below()
    }

    open spec fn rendering(&self, depth: nat, label: Option<Seq<char>>) -> Seq<Seq<char>> {
        seq![headline(depth, Self::label(), joined(self.leaves()))] + term_chain_rendering(
            *self,
            depth + 1,
        )
    }

    fn lexemes(&self) -> (pairs: Vec<(Token, String)>) {
        term_lexemes(self)
    }

    fn lexeme_signature(&self) -> (sigg: String) {
        join_lexemes(&self.lexemes())
    }

    fn parse_label() -> (label: String) {
        String::from_str("Term")
    }

    fn display(&self, depth: usize, label: Option<String>) -> (lines: Vec<String>) {
        let mut lines: Vec<String> = Vec::new();
        lines.push(
            make_headline(depth, Self::parse_label().as_str(), self.lexeme_signature().as_str()),
        );
        let ghost before = lines@;
        assert(
            views(before) =~= seq![headline(depth as nat, Self::label(), joined(self.leaves()))]
        );
        let mut more = display_term_chain(self, depth + 1);
        let ghost added = more@;
        lines.append(&mut more);
        assert(views(lines@) =~= views(before) + views(added));
        lines
    }
}

impl Parse for Term {
    open spec fn outcome(tokens: Seq<(Token, String)>, position: int) -> Result<
        int,
        ParseErrorView,
    > {
        term_outcome(tokens, position)
    }

    proof fn lemma_outcome_in_bounds(tokens: Seq<(Token, String)>, position: int) {
        lemma_term_outcome_in_bounds(tokens, position);
    }

    open spec fn stops_at(node: Self, tokens: Seq<(Token, String)>, end: int) -> bool {
        term_stops_at(node, tokens, end)
    }

    proof fn lemma_parses_back(node: Self, tokens: Seq<(Token, String)>, position: int) {
        lemma_term_parses_back(node, tokens, position);
    }

    /// Reads the first operand and, behind an operator, the rest of the
    /// chain as the operand of the extension.
    fn parse(buffer: &mut ParseBuffer) -> (r: Result<Self, ParseError>)
        ensures
            r matches Ok(node) ==> term_built(
                node,
                old(buffer).tokens(),
                old(buffer).position(),
            ),
    {
        parse_term(buffer)
    }
}

impl ParseDisplay for FactorExtend {
    open spec fn shaped(&self) -> bool {
        match self {
            FactorExtend::Multiply(operator, operand) => {
                operator.shaped() && term_shaped(**operand)
            },
            FactorExtend::Divide(operator, operand) => operator.shaped() && term_shaped(**operand),
        }
    }

    open spec fn leaves(&self) -> Seq<(Token, String)> {
        match self {
            FactorExtend::Multiply(operator, operand) => operator.leaves() + term_leaves(**operand),
            FactorExtend::Divide(operator, operand) => operator.leaves() + term_leaves(**operand),
        }
    }

    open spec fn label() -> Seq<char> {
        "Factor Extention"@
    }

    open spec fn depth_below() -> nat {
        Factor::depth_below()
    }

    open spec fn rendering(&self, depth: nat, label: Option<Seq<char>>) -> Seq<Seq<char>> {
        match self {
            FactorExtend::Multiply(operator, operand) => {
                seq![headline(depth, "Operator"@, operator.lexeme@)]
                    + term_chain_rendering(**operand, depth)
            },
            FactorExtend::Divide(operator, operand) => {
                seq![headline(depth, "Operator"@, operator.lexeme@)]
                    + term_chain_rendering(**operand, depth)
            },
        }
    }

    fn lexemes(&self) -> (pairs: Vec<(Token, String)>) {
        match self {
            FactorExtend::Multiply(operator, operand) => {
                let mut pairs = operator.lexemes();
                let mut more = term_lexemes(operand);
                pairs.append(&mut more);
                pairs
            },
            FactorExtend::Divide(operator, operand) => {
                let mut pairs = operator.lexemes();
                let mut more = term_lexemes(operand);
                pairs.append(&mut more);
                pairs
            },
        }
    }

    fn lexeme_signature(&self) -> (sigg: String) {
        join_lexemes(&self.lexemes())
    }

    fn parse_label() -> (label: String) {
        String::from_str("Factor Extention")
    }

    fn display(&self, depth: usize, label: Option<String>) -> (lines: Vec<String>) {
        let mut lines: Vec<String> = Vec::new();
        match self {
            FactorExtend::Multiply(operator, operand) => {
                lines.push(make_headline(depth, "Operator", operator.lexeme.as_str()));
                let ghost before = lines@;
                let mut more = display_term_chain(operand, depth);
                let ghost added = more@;
                lines.append(&mut more);
                assert(views(lines@) =~= views(before) + views(added));
                assert(
                    views(before) =~= seq![headline(depth as nat, "Operator"@, operator.lexeme@)]
                );
            },
            FactorExtend::Divide(operator, operand) => {
                lines.push(make_headline(depth, "Operator", operator.lexeme.as_str()));
                let ghost before = lines@;
                let mut more = display_term_chain(operand, depth);
                let ghost added = more@;
                lines.append(&mut more);
                assert(views(lines@) =~= views(before) + views(added));
                assert(
                    views(before) =~= seq![headline(depth as nat, "Operator"@, operator.lexeme@)]
                );
            },
        }
        lines
    }
}

impl Parse<Option<FactorExtend>> for FactorExtend {
    open spec fn outcome(tokens: Seq<(Token, String)>, position: int) -> Result<
        int,
        ParseErrorView,
    > {
        term_extension_outcome(tokens, position)
    }

    proof fn lemma_outcome_in_bounds(tokens: Seq<(Token, String)>, position: int) {
        lemma_term_extension_outcome_in_bounds(tokens, position);
    }

    open spec fn stops_at(node: Option<Self>, tokens: Seq<(Token, String)>, end: int) -> bool {
        match node {
            None => term_ends(tokens, end),
            Some(FactorExtend::Multiply(operator, operand)) => term_stops_at(*operand, tokens, end),
            Some(FactorExtend::Divide(operator, operand)) => term_stops_at(*operand, tokens, end),
        }
    }

    proof fn lemma_parses_back(node: Option<Self>, tokens: Seq<(Token, String)>, position: int) {
        match node {
            None => {},
            Some(FactorExtend::Multiply(operator, operand)) => {
                lemma_parts_stand(operator.leaves(), term_leaves(*operand), tokens, position);
                Multiply::lemma_parses_back(operator, tokens, position);
                lemma_term_parses_back(*operand, tokens, position + 1);
            },
            Some(FactorExtend::Divide(operator, operand)) => {
                lemma_parts_stand(operator.leaves(), term_leaves(*operand), tokens, position);
                Divide::lemma_parses_back(operator, tokens, position);
                lemma_term_parses_back(*operand, tokens, position + 1);
            },
        }
    }

    /// Reads the extension that the first operator found announces; there
    /// is none at the end of the stream or where neither operator stands.
    fn parse(buffer: &mut ParseBuffer) -> (r: Result<Option<Self>, ParseError>)
        ensures
            r matches Ok(found) ==> term_extension_built(
                found,
                old(buffer).tokens(),
                old(buffer).position(),
            ),
    {
        parse_term_extension(buffer)
    }
}


/// A factor: `identifier | literal`.
#[derive(Clone, Debug)]
pub enum Factor {
    Identifier(Identifier),
    Literal(Literal),
}

impl ParseDisplay for Factor {
    open spec fn shaped(&self) -> bool {
        match self {
            Factor::Identifier(node) => node.shaped(),
            Factor::Literal(node) => node.shaped(),
        }
    }

    open spec fn leaves(&self) -> Seq<(Token, String)> {
        match self {
            Factor::Identifier(node) => node.leaves(),
            Factor::Literal(node) => node.leaves(),
        }
    }

    open spec fn label() -> Seq<char> {
        "Factor"@
    }

    open spec fn depth_below() -> nat {
        1
    }

    open spec fn rendering(&self, depth: nat, label: Option<Seq<char>>) -> Seq<Seq<char>> {
        seq![headline(depth, Self::label(), joined(self.leaves()))] + match self {
            Factor::Identifier(node) => node.rendering(depth + 1, Some("Variable"@)),
            Factor::Literal(node) => node.rendering(depth + 1, Some("Literal"@)),
        }
    }

    fn lexemes(&self) -> (pairs: Vec<(Token, String)>) {
        match self {
            Factor::Identifier(node) => node.lexemes(),
            Factor::Literal(node) => node.lexemes(),
        }
    }

    fn lexeme_signature(&self) -> (sigg: String) {
        join_lexemes(&self.lexemes())
    }

    fn parse_label() -> (label: String) {
        String::from_str("Factor")
    }

    fn display(&self, depth: usize, label: Option<String>) -> (lines: Vec<String>) {
        let mut lines: Vec<String> = Vec::new();
        lines.push(
            make_headline(depth, Self::parse_label().as_str(), self.lexeme_signature().as_str()),
        );
        let ghost before = lines@;
        assert(
            views(before) =~= seq![headline(depth as nat, Self::label(), joined(self.leaves()))]
        );
        let mut more = match self {
            Factor::Identifier(node) => node.display(depth + 1, Some(String::from_str("Variable"))),
            Factor::Literal(node) => node.display(depth + 1, Some(String::from_str("Literal"))),
        };
        let ghost added = more@;
        lines.append(&mut more);
        assert(views(lines@) =~= views(before) + views(added));
        lines
    }
}

impl Parse for Factor {
    open spec fn outcome(tokens: Seq<(Token, String)>, position: int) -> Result<
        int,
        ParseErrorView,
    > {
        if position >= tokens.len() {
            Err(ParseErrorView::NothingFound { expected: Self::label() })
        } else {
            match Identifier::outcome(tokens, position) {
                Ok(end) => Ok(end),
                Err(_) => match Literal::outcome(tokens, position) {
                    Ok(end) => Ok(end),
                    Err(_) => Err(
                        ParseErrorView::NoAlternative {
                            alternatives: seq![Identifier::label(), Literal::label()],
                            found: tokens[position].1@,
                            rule: Self::label(),
                        },
                    ),
                },
            }
        }
    }

    proof fn lemma_outcome_in_bounds(tokens: Seq<(Token, String)>, position: int) {
        Identifier::lemma_outcome_in_bounds(tokens, position);
        Literal::lemma_outcome_in_bounds(tokens, position);
    }

    open spec fn stops_at(node: Self, tokens: Seq<(Token, String)>, end: int) -> bool {
        match node {
            Factor::Identifier(inner) => Identifier::stops_at(inner, tokens, end),
            Factor::Literal(inner) => Literal::stops_at(inner, tokens, end),
        }
    }

    proof fn lemma_parses_back(node: Self, tokens: Seq<(Token, String)>, position: int) {
        match node {
            Factor::Identifier(inner) => {
                Identifier::lemma_parses_back(inner, tokens, position);
            },
            Factor::Literal(inner) => {
                Literal::lemma_parses_back(inner, tokens, position);
            },
        }
    }

    /// Tries the alternatives in their order and returns the first that
    /// parses.
    fn parse(buffer: &mut ParseBuffer) -> (r: Result<Self, ParseError>)
        ensures
            r matches Ok(node) ==> (node is Identifier <==> Identifier::outcome(
                old(buffer).tokens(),
                old(buffer).position(),
            ) is Ok),
    {
        let next = match buffer.peek() {
            None => {
                return Err(ParseError::NothingFound { expected: Self::parse_label() });
            },
            Some(pair) => pair,
        };
        let mut fork = buffer.fork();
        match Identifier::parse(&mut fork) {
            Ok(node) => {
                *buffer = fork;
                return Ok(Factor::Identifier(node));
            },
            Err(_) => {},
        }
        let mut fork = buffer.fork();
        match Literal::parse(&mut fork) {
            Ok(node) => {
                *buffer = fork;
                return Ok(Factor::Literal(node));
            },
            Err(_) => {},
        }
        let mut alternatives: Vec<String> = Vec::new();
        alternatives.push(Identifier::parse_label());
        alternatives.push(Literal::parse_label());
        assert(views(alternatives@) =~= seq![Identifier::label(), Literal::label()]);
        Err(
            ParseError::NoAlternative {
                alternatives,
                found: next.1.clone(),
                rule: Self::parse_label(),
            },
        )
    }
}

/// Whether no arithmetic operator stands at `position`.
pub open spec fn no_operator_at(tokens: Seq<(Token, String)>, position: int) -> bool {
    position >= tokens.len() || !(Plus::accepts(tokens[position].0) || Minus::accepts(
        tokens[position].0,
    ) || Multiply::accepts(tokens[position].0) || Divide::accepts(tokens[position].0))
}

/// A term stops before whatever is neither `*` nor `/`.
pub proof fn lemma_term_stops(node: Term, tokens: Seq<(Token, String)>, end: int)
    requires
        end >= tokens.len() || !(Multiply::accepts(tokens[end].0) || Divide::accepts(
            tokens[end].0,
        )),
    ensures
        term_stops_at(node, tokens, end),
    decreases node,
{
    match node.extend {
        None => {},
        Some(FactorExtend::Multiply(_, operand)) => {
            lemma_term_stops(*operand, tokens, end);
        },
        Some(FactorExtend::Divide(_, operand)) => {
            lemma_term_stops(*operand, tokens, end);
        },
    }
}

/// An arithmetic expression stops before whatever is no arithmetic operator.
pub proof fn lemma_arithmetic_stops(
    node: ArithmeticExpression,
    tokens: Seq<(Token, String)>,
    position: int,
)
    requires
        arithmetic_shaped(node),
        stands_at(arithmetic_leaves(node), tokens, position),
        no_operator_at(tokens, position + arithmetic_leaves(node).len()),
    ensures
        arithmetic_stops_at(node, tokens, position + arithmetic_leaves(node).len()),
    decreases node,
{
    let end = position + arithmetic_leaves(node).len();
    lemma_parts_stand(node.lhs_term.leaves(), arithmetic_tail(node), tokens, position);
    let middle = position + node.lhs_term.leaves().len();
    match node.extend {
        None => {
            lemma_term_stops(node.lhs_term, tokens, end);
        },
        Some(TermExtend::Add(operator, operand)) => {
            lemma_first_leaf(arithmetic_tail(node), tokens, middle);
            assert(arithmetic_tail(node)[0] == operator.leaves()[0]);
            lemma_term_stops(node.lhs_term, tokens, middle);
            lemma_parts_stand(operator.leaves(), arithmetic_leaves(*operand), tokens, middle);
            lemma_arithmetic_stops(*operand, tokens, middle + 1);
        },
        Some(TermExtend::Subtract(operator, operand)) => {
            lemma_first_leaf(arithmetic_tail(node), tokens, middle);
            assert(arithmetic_tail(node)[0] == operator.leaves()[0]);
            lemma_term_stops(node.lhs_term, tokens, middle);
            lemma_parts_stand(operator.leaves(), arithmetic_leaves(*operand), tokens, middle);
            lemma_arithmetic_stops(*operand, tokens, middle + 1);
        },
    }
}

/// An expression stops before whatever is no arithmetic operator.
pub proof fn lemma_expression_stops(
    node: Expression,
    tokens: Seq<(Token, String)>,
    position: int,
)
    requires
        node.shaped(),
        stands_at(node.leaves(), tokens, position),
        no_operator_at(tokens, position + node.leaves().len()),
    ensures
        Expression::stops_at(node, tokens, position + node.leaves().len()),
{
    match node {
        Expression::Arithmetic(inner) => {
            lemma_arithmetic_stops(inner, tokens, position);
        },
        Expression::Typecast(_) => {},
    }
}

/// A statement stops before whatever is no arithmetic operator.
pub proof fn lemma_statement_stops(node: Statement, tokens: Seq<(Token, String)>, position: int)
    requires
        node.shaped(),
        stands_at(node.leaves(), tokens, position),
        no_operator_at(tokens, position + node.leaves().len()),
    ensures
        Statement::stops_at(node, tokens, position + node.leaves().len()),
{
    match node {
        Statement::Assignment(inner) => {
            lemma_parts_stand(
                inner.lhs_identifier.leaves() + inner.equals.leaves(),
                inner.expression.leaves(),
                tokens,
                position,
            );
            lemma_expression_stops(
                inner.expression,
                tokens,
                position + inner.lhs_identifier.leaves().len() + inner.equals.leaves().len(),
            );
        },
        Statement::Return(inner) => {
            lemma_parts_stand(inner.return_.leaves(), inner.expression.leaves(), tokens, position);
            lemma_expression_stops(
                inner.expression,
                tokens,
                position + inner.return_.leaves().len(),
            );
        },
    }
}

/// Inside a list of statements, every statement stops at its semicolon.
pub proof fn lemma_statements_stop(
    items: Seq<(Statement, Semicolon)>,
    tokens: Seq<(Token, String)>,
    position: int,
)
    requires
        terminated_shaped(items),
        stands_at(terminated_leaves(items), tokens, position),
    ensures
        terminated_parts_stop::<Statement, Semicolon>(
            items,
            tokens,
            position + terminated_leaves(items).len(),
        ),
    decreases items.len(),
{
    if items.len() > 0 {
        let front = items.drop_last();
        let statement = items.last().0;
        let semicolon = items.last().1;
        assert(items[items.len() - 1].0.shaped());
        assert forall|i: int| 0 <= i < front.len() implies (#[trigger] front[i]).0.shaped()
            && front[i].1.shaped() by {
            assert(front[i] == items[i]);
        }
        lemma_parts_stand(
            terminated_leaves(front) + statement.leaves(),
            semicolon.leaves(),
            tokens,
            position,
        );
        lemma_parts_stand(terminated_leaves(front), statement.leaves(), tokens, position);
        lemma_statements_stop(front, tokens, position);
        let here = position + terminated_leaves(front).len();
        lemma_first_leaf(semicolon.leaves(), tokens, here + statement.leaves().len());
        lemma_statement_stops(statement, tokens, here);
    }
}

/// Inside a list of parameters, every part stops where the next begins.
pub proof fn lemma_parameters_stop(
    items: Seq<(FunctionParameter, Option<Comma>)>,
    tokens: Seq<(Token, String)>,
    end: int,
)
    ensures
        delimited_parts_stop::<FunctionParameter, Comma>(items, tokens, end),
    decreases items.len(),
{
    if items.len() > 0 {
        let last = items.last();
        lemma_parameters_stop(
            items.drop_last(),
            tokens,
            end - last.1.leaves().len() - last.0.leaves().len(),
        );
    }
}

/// Every program of the grammar parses: the leaves of a function definition
/// of the grammar's shape, taken as a token stream, are parsed from the
/// start as a function definition that consumes the whole stream.
pub proof fn lemma_valid_program_parses(root: FunctionDefinition)
    requires
        root.shaped(),
    ensures
        FunctionDefinition::outcome(root.leaves(), 0) == Ok::<int, ParseErrorView>(
            root.leaves().len() as int,
        ),
{
    let tokens = root.leaves();
    assert(tokens.subrange(0, tokens.len() as int) =~= tokens);
    let l1 = root.type_.leaves();
    let l2 = root.function_name.leaves();
    let l3 = root.left_paren.leaves();
    let l4 = root.parameters.leaves();
    let l5 = root.right_paren.leaves();
    let l6 = root.left_curly.leaves();
    let l7 = root.compound_statements.leaves();
    let l8 = root.right_curly.leaves();
    lemma_parts_stand(l1 + l2 + l3 + l4 + l5 + l6 + l7, l8, tokens, 0);
    lemma_parts_stand(l1 + l2 + l3 + l4 + l5 + l6, l7, tokens, 0);
    lemma_parts_stand(l1 + l2 + l3 + l4 + l5, l6, tokens, 0);
    lemma_parts_stand(l1 + l2 + l3 + l4, l5, tokens, 0);
    lemma_parts_stand(l1 + l2 + l3, l4, tokens, 0);
    let parameters_start = (l1 + l2 + l3).len() as int;
    let parameters_end = parameters_start + l4.len();
    let statements_start = parameters_end + l5.len() + l6.len();
    let statements_end = statements_start + l7.len();
    lemma_first_leaf(l5, tokens, parameters_end);
    lemma_first_leaf(l8, tokens, statements_end);
    lemma_parameters_stop(root.parameters@, tokens, parameters_end);
    lemma_statements_stop(root.compound_statements@, tokens, statements_start);
    FunctionDefinition::lemma_parses_back(root, tokens, 0);
}

/// A valid program is tokenized and parsed in full, and only its whitespace
/// changes on the way.
///
/// Where `tokens` is the token stream of `input`, and a function definition
/// of the grammar's shape has exactly these tokens as its leaves, parsing a
/// function definition at the start of `tokens` succeeds and consumes every
/// token; the signature of that definition is the lexemes of the stream
/// joined by single spaces; and these lexemes, written one after the other,
/// are the input without its whitespace.
pub proof fn lemma_valid_program_round_trip(
    input: Seq<u8>,
    tokens: Seq<(Token, String)>,
    root: FunctionDefinition,
)
    requires
        lex(input) == Ok::<_, (int, LexErrorView)>(texts(tokens)),
        root.shaped(),
        root.leaves() == tokens,
    ensures
        FunctionDefinition::outcome(tokens, 0) == Ok::<int, ParseErrorView>(tokens.len() as int),
        joined(root.leaves()) == join(texts(tokens)),
        spelled(texts(tokens)) == visible(input),
{
    lemma_valid_program_parses(root);
    lemma_signature_spells_input(input, tokens, root);
}

/// Every source text of a program of the grammar is tokenized and parsed
/// in full, and gives the program back.
///
/// Take a function definition of the grammar's shape and any layout of its
/// lexemes as a source text: well spelled, with whatever whitespace between
/// them, and none where a symbol keeps two of them apart. That text
/// tokenizes to the leaves of the definition; a function definition is
/// parsed from them and consumes them all; and the signature of the
/// definition is the lexemes of the text joined by single spaces.
pub proof fn lemma_program_round_trip(
    lead: Seq<u8>,
    pieces: Seq<Piece>,
    tokens: Seq<(Token, String)>,
    root: FunctionDefinition,
)
    requires
        root.shaped(),
        root.leaves() == tokens,
        texts(tokens) == pairs_of(pieces),
        blank(lead),
        laid_out(pieces),
    ensures
        lex(source(lead, pieces)) == Ok::<_, (int, LexErrorView)>(texts(tokens)),
        FunctionDefinition::outcome(tokens, 0) == Ok::<int, ParseErrorView>(tokens.len() as int),
        joined(root.leaves()) == join(pairs_of(pieces)),
        spelled(pairs_of(pieces)) == visible(source(lead, pieces)),
{
    lemma_source_lexes(lead, pieces);
    lemma_valid_program_round_trip(source(lead, pieces), tokens, root);
}

} // verus!
