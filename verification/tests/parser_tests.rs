use syntactical_analyzer::lexer::get_lexemes;
use syntactical_analyzer::lexer::Symbol;
use syntactical_analyzer::lexer::Token;
use syntactical_analyzer::make_indent;
use syntactical_analyzer::modulars::Delimited;
use syntactical_analyzer::modulars::Terminated;
use syntactical_analyzer::non_terminals::ArithmeticExpression;
use syntactical_analyzer::non_terminals::AssignmentStatement;
use syntactical_analyzer::non_terminals::CompoundStatements;
use syntactical_analyzer::non_terminals::Expression;
use syntactical_analyzer::non_terminals::Factor;
use syntactical_analyzer::non_terminals::FactorExtend;
use syntactical_analyzer::non_terminals::FunctionDefinition;
use syntactical_analyzer::non_terminals::FunctionParameter;
use syntactical_analyzer::non_terminals::FunctionParameters;
use syntactical_analyzer::non_terminals::ReturnStatement;
use syntactical_analyzer::non_terminals::Statement;
use syntactical_analyzer::non_terminals::Term;
use syntactical_analyzer::non_terminals::TermExtend;
use syntactical_analyzer::non_terminals::TypecastExpression;
use syntactical_analyzer::terminals::Comma;
use syntactical_analyzer::terminals::Identifier;
use syntactical_analyzer::terminals::Literal;
use syntactical_analyzer::terminals::Plus;
use syntactical_analyzer::terminals::Semicolon;
use syntactical_analyzer::terminals::Type;
use syntactical_analyzer::Parse;
use syntactical_analyzer::ParseBuffer;
use syntactical_analyzer::ParseDisplay;
use syntactical_analyzer::ParseError;

fn lex(source: &str) -> Vec<(Token, String)> {
    get_lexemes(source.as_bytes()).unwrap()
}

fn peeked(buffer: &ParseBuffer) -> Option<(Token, String)> {
    buffer.peek().cloned()
}

#[test]
fn make_indent_is_four_spaces_a_level() {
    assert_eq!(make_indent(0), "");
    assert_eq!(make_indent(1), "    ");
    assert_eq!(make_indent(3), "            ");
}

#[test]
fn buffer_peek_next_and_fork() {
    let tokens = lex("a b");
    let mut buffer = ParseBuffer::new(&tokens);
    assert_eq!(peeked(&buffer), Some((Token::Identifier, "a".to_string())));
    let mut fork = buffer.fork();
    assert_eq!(fork.next().cloned(), Some((Token::Identifier, "a".to_string())));
    assert_eq!(fork.next().cloned(), Some((Token::Identifier, "b".to_string())));
    assert_eq!(fork.next(), None);
    assert_eq!(fork.next(), None);
    assert_eq!(fork.peek(), None);
    assert_eq!(peeked(&buffer), Some((Token::Identifier, "a".to_string())));
    assert_eq!(buffer.next().cloned(), Some((Token::Identifier, "a".to_string())));
    assert_eq!(peeked(&buffer), Some((Token::Identifier, "b".to_string())));
}

#[test]
fn terminal_consumes_exactly_one_matching_token() {
    let tokens = lex("abc = 1");
    let mut buffer = ParseBuffer::new(&tokens);
    let identifier = Identifier::parse(&mut buffer).unwrap();
    assert_eq!(identifier.token, Token::Identifier);
    assert_eq!(identifier.lexeme, "abc");
    assert_eq!(identifier.lexeme_signature(), "abc");
    assert_eq!(peeked(&buffer), Some((Token::Symbol(Symbol::Equal), "=".to_string())));
}

#[test]
fn terminal_mismatch_consumes_nothing() {
    let tokens = lex("abc = 1");
    let mut buffer = ParseBuffer::new(&tokens);
    match Literal::parse(&mut buffer) {
        Err(ParseError::Mismatch { expected, found }) => {
            assert_eq!(expected, "{literal}");
            assert_eq!(found, "abc");
        }
        other => panic!("unexpected result {:?}", other),
    }
    assert_eq!(peeked(&buffer), Some((Token::Identifier, "abc".to_string())));
}

#[test]
fn terminal_at_end_of_input_finds_nothing() {
    let tokens = lex("");
    let mut buffer = ParseBuffer::new(&tokens);
    match Semicolon::parse(&mut buffer) {
        Err(ParseError::NothingFound { expected }) => assert_eq!(expected, ";"),
        other => panic!("unexpected result {:?}", other),
    }
}

#[test]
fn literal_takes_both_kinds_of_number() {
    let tokens = lex("1 2.5");
    let mut buffer = ParseBuffer::new(&tokens);
    assert_eq!(Literal::parse(&mut buffer).unwrap().token, Token::LiteralInt);
    assert_eq!(Literal::parse(&mut buffer).unwrap().token, Token::LiteralFloat);
}

#[test]
fn terminal_labels() {
    assert_eq!(Identifier::parse_label(), "{identifier}");
    assert_eq!(Type::parse_label(), "{type}");
    assert_eq!(Literal::parse_label(), "{literal}");
    assert_eq!(Plus::parse_label(), "+");
    assert_eq!(Comma::parse_label(), ",");
    assert_eq!(FunctionDefinition::parse_label(), "Function Definition");
    assert_eq!(TermExtend::parse_label(), "Term Extention");
    assert_eq!(FactorExtend::parse_label(), "Factor Extention");
    assert_eq!(
        FunctionParameters::parse_label(),
        "Delimited Sequence of `Function Parameter` by `,`"
    );
    assert_eq!(CompoundStatements::parse_label(), "Terminated Sequence of `Statement` by `;`");
}

#[test]
fn delimited_on_empty_input_is_an_empty_list() {
    let tokens = lex("");
    let mut buffer = ParseBuffer::new(&tokens);
    let list = FunctionParameters::parse(&mut buffer).unwrap();
    assert!(list.items().is_empty());
    assert_eq!(list.lexeme_signature(), "");
}

#[test]
fn delimited_stops_before_what_is_no_item() {
    let tokens = lex(") {");
    let mut buffer = ParseBuffer::new(&tokens);
    let list = FunctionParameters::parse(&mut buffer).unwrap();
    assert!(list.items().is_empty());
    assert_eq!(peeked(&buffer), Some((Token::Symbol(Symbol::RightParen), ")".to_string())));
}

#[test]
fn delimited_two_items_without_trailing_comma() {
    let tokens = lex("int x, float y");
    let mut buffer = ParseBuffer::new(&tokens);
    let list = FunctionParameters::parse(&mut buffer).unwrap();
    let items = list.items();
    assert_eq!(items.len(), 2);
    assert_eq!(items[0].0.type_.lexeme, "int");
    assert_eq!(items[0].0.identifier.lexeme, "x");
    assert_eq!(items[0].1.as_ref().unwrap().lexeme, ",");
    assert_eq!(items[1].0.type_.lexeme, "float");
    assert_eq!(items[1].0.identifier.lexeme, "y");
    assert!(items[1].1.is_none());
    assert_eq!(buffer.peek(), None);
    assert_eq!(list.lexeme_signature(), "int x , float y");
}

#[test]
fn delimited_leaves_what_follows_the_last_item() {
    let tokens = lex("int x ) {");
    let mut buffer = ParseBuffer::new(&tokens);
    let list = FunctionParameters::parse(&mut buffer).unwrap();
    assert_eq!(list.items().len(), 1);
    assert_eq!(peeked(&buffer), Some((Token::Symbol(Symbol::RightParen), ")".to_string())));
}

#[test]
fn delimited_dangling_delimiter_is_a_hard_error() {
    let tokens = lex("int x,");
    let mut buffer = ParseBuffer::new(&tokens);
    match FunctionParameters::parse(&mut buffer) {
        Err(ParseError::InList { list, cause }) => {
            assert_eq!(list, "Delimited Sequence of `Function Parameter` by `,`");
            match *cause {
                ParseError::NothingFound { expected } => assert_eq!(expected, "Function Parameter"),
                other => panic!("unexpected cause {:?}", other),
            }
        }
        other => panic!("unexpected result {:?}", other),
    }
    assert_eq!(peeked(&buffer), Some((Token::Type(syntactical_analyzer::lexer::Type::Int), "int".to_string())));
}

#[test]
fn delimited_dangling_delimiter_before_other_tokens() {
    let tokens = lex("int x, )");
    let mut buffer = ParseBuffer::new(&tokens);
    match FunctionParameters::parse(&mut buffer) {
        Err(ParseError::InList { cause, .. }) => match *cause {
            ParseError::Mismatch { expected, found } => {
                assert_eq!(expected, "{type}");
                assert_eq!(found, ")");
            }
            other => panic!("unexpected cause {:?}", other),
        },
        other => panic!("unexpected result {:?}", other),
    }
}

#[test]
fn terminated_two_statements() {
    let tokens = lex("x = 1; y = 2;");
    let mut buffer = ParseBuffer::new(&tokens);
    let list = CompoundStatements::parse(&mut buffer).unwrap();
    let items = list.items();
    assert_eq!(items.len(), 2);
    assert_eq!(items[0].0.lexeme_signature(), "x = 1");
    assert_eq!(items[0].1.lexeme, ";");
    assert_eq!(items[1].0.lexeme_signature(), "y = 2");
    assert_eq!(items[1].1.lexeme, ";");
    assert_eq!(buffer.peek(), None);
    assert_eq!(list.lexeme_signature(), "x = 1 ; y = 2 ;");
}

#[test]
fn terminated_missing_final_delimiter_is_a_hard_error() {
    let tokens = lex("x = 1; y = 2");
    let mut buffer = ParseBuffer::new(&tokens);
    match CompoundStatements::parse(&mut buffer) {
        Err(ParseError::InList { list, cause }) => {
            assert_eq!(list, "Terminated Sequence of `Statement` by `;`");
            match *cause {
                ParseError::NothingFound { expected } => assert_eq!(expected, ";"),
                other => panic!("unexpected cause {:?}", other),
            }
        }
        other => panic!("unexpected result {:?}", other),
    }
    assert_eq!(peeked(&buffer), Some((Token::Identifier, "x".to_string())));
}

#[test]
fn terminated_on_empty_input_is_an_empty_list() {
    let tokens = lex("}");
    let mut buffer = ParseBuffer::new(&tokens);
    let list = CompoundStatements::parse(&mut buffer).unwrap();
    assert!(list.items().is_empty());
    assert_eq!(list.lexeme_signature(), "");
    assert_eq!(peeked(&buffer), Some((Token::Symbol(Symbol::RightCurly), "}".to_string())));
}

#[test]
fn terminated_ends_at_the_first_item_that_fails() {
    let tokens = lex("x = 1; }");
    let mut buffer = ParseBuffer::new(&tokens);
    let list = CompoundStatements::parse(&mut buffer).unwrap();
    assert_eq!(list.items().len(), 1);
    assert_eq!(peeked(&buffer), Some((Token::Symbol(Symbol::RightCurly), "}".to_string())));
}

#[test]
fn lists_from_items() {
    let tokens = lex("int x");
    let mut buffer = ParseBuffer::new(&tokens);
    let parameter = FunctionParameter::parse(&mut buffer).unwrap();
    let list: Delimited<FunctionParameter, Comma> = Delimited::from(vec![(parameter, None)]);
    assert_eq!(list.items().len(), 1);
    assert_eq!(list.lexeme_signature(), "int x");
    let none: Terminated<Statement, Semicolon> = Terminated::from(Vec::new());
    assert!(none.items().is_empty());
}

#[test]
fn failed_alternative_leaves_the_cursor_unchanged() {
    // The assignment alternative takes `x` and `=` on its fork and fails at `;`.
    let tokens = lex("x = ;");
    let mut buffer = ParseBuffer::new(&tokens);
    let before = peeked(&buffer);
    assert!(AssignmentStatement::parse(&mut buffer).is_err());
    assert_eq!(peeked(&buffer), before);
    match Statement::parse(&mut buffer) {
        Err(ParseError::NoAlternative { alternatives, found, rule }) => {
            assert_eq!(alternatives, vec!["Assignment Statement", "Return Statement"]);
            assert_eq!(found, "x");
            assert_eq!(rule, "Statement");
        }
        other => panic!("unexpected result {:?}", other),
    }
    assert_eq!(peeked(&buffer), before);
    assert_eq!(before, Some((Token::Identifier, "x".to_string())));
}

#[test]
fn failed_product_leaves_the_cursor_unchanged() {
    let tokens = lex("int f ( int x { }");
    let mut buffer = ParseBuffer::new(&tokens);
    match FunctionDefinition::parse(&mut buffer) {
        Err(ParseError::Mismatch { expected, found }) => {
            assert_eq!(expected, ")");
            assert_eq!(found, "{");
        }
        other => panic!("unexpected result {:?}", other),
    }
    assert_eq!(
        peeked(&buffer),
        Some((Token::Type(syntactical_analyzer::lexer::Type::Int), "int".to_string()))
    );
}

#[test]
fn statement_takes_the_second_alternative() {
    let tokens = lex("return x");
    let mut buffer = ParseBuffer::new(&tokens);
    match Statement::parse(&mut buffer).unwrap() {
        Statement::Return(statement) => {
            assert_eq!(statement.return_.lexeme, "return");
            assert_eq!(statement.lexeme_signature(), "return x");
        }
        other => panic!("unexpected statement {:?}", other),
    }
    assert_eq!(buffer.peek(), None);
}

#[test]
fn expression_tries_arithmetic_before_typecast() {
    let tokens = lex("y");
    let mut buffer = ParseBuffer::new(&tokens);
    assert!(matches!(Expression::parse(&mut buffer).unwrap(), Expression::Arithmetic(_)));
    let tokens = lex("(float) y");
    let mut buffer = ParseBuffer::new(&tokens);
    match Expression::parse(&mut buffer).unwrap() {
        Expression::Typecast(cast) => {
            assert_eq!(cast.type_.lexeme, "float");
            assert_eq!(cast.ident.lexeme, "y");
            assert_eq!(cast.lexeme_signature(), "( float ) y");
        }
        other => panic!("unexpected expression {:?}", other),
    }
    assert_eq!(buffer.peek(), None);
}

#[test]
fn expression_with_no_alternative() {
    let tokens = lex(";");
    let mut buffer = ParseBuffer::new(&tokens);
    match Expression::parse(&mut buffer) {
        Err(ParseError::NoAlternative { alternatives, found, rule }) => {
            assert_eq!(alternatives, vec!["Arithmetic Expression", "Typecast Expression"]);
            assert_eq!(found, ";");
            assert_eq!(rule, "Expression");
        }
        other => panic!("unexpected result {:?}", other),
    }
    let tokens = lex("");
    let mut buffer = ParseBuffer::new(&tokens);
    match Expression::parse(&mut buffer) {
        Err(ParseError::NothingFound { expected }) => assert_eq!(expected, "Expression"),
        other => panic!("unexpected result {:?}", other),
    }
}

#[test]
fn factor_alternatives() {
    let tokens = lex("a 1 ;");
    let mut buffer = ParseBuffer::new(&tokens);
    assert!(matches!(Factor::parse(&mut buffer).unwrap(), Factor::Identifier(_)));
    assert!(matches!(Factor::parse(&mut buffer).unwrap(), Factor::Literal(_)));
    match Factor::parse(&mut buffer) {
        Err(ParseError::NoAlternative { alternatives, found, rule }) => {
            assert_eq!(alternatives, vec!["{identifier}", "{literal}"]);
            assert_eq!(found, ";");
            assert_eq!(rule, "Factor");
        }
        other => panic!("unexpected result {:?}", other),
    }
}

#[test]
fn extensions_are_optional() {
    let tokens = lex("; x");
    let mut buffer = ParseBuffer::new(&tokens);
    assert!(TermExtend::parse(&mut buffer).unwrap().is_none());
    assert!(FactorExtend::parse(&mut buffer).unwrap().is_none());
    assert_eq!(peeked(&buffer), Some((Token::Symbol(Symbol::Semicolon), ";".to_string())));
    let tokens = lex("");
    let mut buffer = ParseBuffer::new(&tokens);
    assert!(TermExtend::parse(&mut buffer).unwrap().is_none());
    assert!(FactorExtend::parse(&mut buffer).unwrap().is_none());
}

#[test]
fn extension_operator_without_operand_is_an_error() {
    let tokens = lex("+ ;");
    let mut buffer = ParseBuffer::new(&tokens);
    match TermExtend::parse(&mut buffer) {
        Err(ParseError::NoAlternative { found, rule, .. }) => {
            assert_eq!(found, ";");
            assert_eq!(rule, "Factor");
        }
        other => panic!("unexpected result {:?}", other),
    }
    assert_eq!(peeked(&buffer), Some((Token::Symbol(Symbol::Plus), "+".to_string())));
    let tokens = lex("/");
    let mut buffer = ParseBuffer::new(&tokens);
    match FactorExtend::parse(&mut buffer) {
        Err(ParseError::NothingFound { expected }) => assert_eq!(expected, "Term"),
        other => panic!("unexpected result {:?}", other),
    }
}

#[test]
fn term_with_multiplication_and_division() {
    let tokens = lex("a * 2");
    let mut buffer = ParseBuffer::new(&tokens);
    let term = Term::parse(&mut buffer).unwrap();
    assert!(matches!(term.factor, Factor::Identifier(_)));
    match &term.extend {
        Some(FactorExtend::Multiply(operator, operand)) => {
            assert_eq!(operator.lexeme, "*");
            match &operand.factor {
                Factor::Literal(literal) => assert_eq!(literal.lexeme, "2"),
                other => panic!("unexpected factor {:?}", other),
            }
            assert!(operand.extend.is_none());
        }
        other => panic!("unexpected extension {:?}", other),
    }
    assert_eq!(term.lexeme_signature(), "a * 2");
    let tokens = lex("a / b");
    let mut buffer = ParseBuffer::new(&tokens);
    let term = Term::parse(&mut buffer).unwrap();
    assert!(matches!(term.extend, Some(FactorExtend::Divide(_, _))));
    assert_eq!(buffer.peek(), None);
}

#[test]
fn subtraction_chain_groups_to_the_right() {
    // `a - b - c` is `a - (b - c)`: the operand of the first `-` holds the
    // second, and `(a - b) - c` is never built.
    let tokens = lex("a - b - c");
    let mut buffer = ParseBuffer::new(&tokens);
    let expression = ArithmeticExpression::parse(&mut buffer).unwrap();
    assert_eq!(buffer.peek(), None);
    assert_eq!(expression.lhs_term.lexeme_signature(), "a");
    assert!(expression.lhs_term.extend.is_none());
    let outer = match &expression.extend {
        Some(TermExtend::Subtract(minus, operand)) => {
            assert_eq!(minus.lexeme, "-");
            operand
        }
        other => panic!("unexpected extension {:?}", other),
    };
    assert_eq!(outer.lexeme_signature(), "b - c");
    assert_eq!(outer.lhs_term.lexeme_signature(), "b");
    assert!(outer.lhs_term.extend.is_none());
    let inner = match &outer.extend {
        Some(TermExtend::Subtract(minus, operand)) => {
            assert_eq!(minus.lexeme, "-");
            operand
        }
        other => panic!("unexpected extension {:?}", other),
    };
    assert_eq!(inner.lexeme_signature(), "c");
    assert!(inner.extend.is_none());
    assert_eq!(expression.lexeme_signature(), "a - b - c");
}

#[test]
fn mixed_precedence_keeps_the_product_under_the_right_term() {
    let tokens = lex("a + b * c");
    let mut buffer = ParseBuffer::new(&tokens);
    let expression = ArithmeticExpression::parse(&mut buffer).unwrap();
    assert!(expression.lhs_term.extend.is_none());
    match &expression.extend {
        Some(TermExtend::Add(plus, operand)) => {
            assert_eq!(plus.lexeme, "+");
            assert_eq!(operand.lexeme_signature(), "b * c");
            assert!(matches!(operand.lhs_term.extend, Some(FactorExtend::Multiply(_, _))));
            assert!(operand.extend.is_none());
        }
        other => panic!("unexpected extension {:?}", other),
    }
    assert_eq!(buffer.peek(), None);
    assert_eq!(expression.lexeme_signature(), "a + b * c");
}

#[test]
fn product_before_a_sum_stays_under_the_left_term() {
    let tokens = lex("a * b + c / d - e");
    let mut buffer = ParseBuffer::new(&tokens);
    let expression = ArithmeticExpression::parse(&mut buffer).unwrap();
    assert_eq!(buffer.peek(), None);
    assert_eq!(expression.lhs_term.lexeme_signature(), "a * b");
    match &expression.extend {
        Some(TermExtend::Add(_, operand)) => {
            assert_eq!(operand.lhs_term.lexeme_signature(), "c / d");
            match &operand.extend {
                Some(TermExtend::Subtract(_, last)) => assert_eq!(last.lexeme_signature(), "e"),
                other => panic!("unexpected extension {:?}", other),
            }
        }
        other => panic!("unexpected extension {:?}", other),
    }
}

#[test]
fn return_statement_requires_an_expression() {
    let tokens = lex("return ;");
    let mut buffer = ParseBuffer::new(&tokens);
    assert!(matches!(ReturnStatement::parse(&mut buffer), Err(ParseError::NoAlternative { .. })));
    assert_eq!(peeked(&buffer), Some((Token::Return, "return".to_string())));
}

#[test]
fn typecast_is_a_product_of_four_terminals() {
    let tokens = lex("( int ) x");
    let mut buffer = ParseBuffer::new(&tokens);
    let cast = TypecastExpression::parse(&mut buffer).unwrap();
    assert_eq!(cast.left_paren.lexeme, "(");
    assert_eq!(cast.right_paren.lexeme, ")");
    assert_eq!(cast.lexeme_signature(), "( int ) x");
    let tokens = lex("( int x");
    let mut buffer = ParseBuffer::new(&tokens);
    match TypecastExpression::parse(&mut buffer) {
        Err(ParseError::Mismatch { expected, found }) => {
            assert_eq!(expected, ")");
            assert_eq!(found, "x");
        }
        other => panic!("unexpected result {:?}", other),
    }
}

#[test]
fn whole_program_parses_and_its_signature_spells_the_input() {
    let source = "int  main(int a,\tfloat b)\n{\n  x = a + b * 2.5;\n  y = (float) x;\n  return y / 2;\n}\n";
    let tokens = lex(source);
    let mut buffer = ParseBuffer::new(&tokens);
    let function = FunctionDefinition::parse(&mut buffer).unwrap();
    assert_eq!(buffer.peek(), None);
    assert_eq!(function.type_.lexeme, "int");
    assert_eq!(function.function_name.lexeme, "main");
    assert_eq!(function.parameters.items().len(), 2);
    assert_eq!(function.compound_statements.items().len(), 3);
    let signature = function.lexeme_signature();
    assert_eq!(
        signature,
        "int main ( int a , float b ) { x = a + b * 2.5 ; y = ( float ) x ; return y / 2 ; }"
    );
    let joined: Vec<&str> = tokens.iter().map(|pair| pair.1.as_str()).collect();
    assert_eq!(signature, joined.join(" "));
    let squeezed: String = signature.chars().filter(|c| *c != ' ').collect();
    let lexemes: String = tokens.iter().map(|pair| pair.1.as_str()).collect();
    let input: String = source.chars().filter(|c| !c.is_ascii_whitespace() && *c != '\x0B').collect();
    assert_eq!(squeezed, lexemes);
    assert_eq!(squeezed, input);
}

#[test]
fn function_without_parameters_or_statements() {
    let tokens = lex("float f(){}");
    let mut buffer = ParseBuffer::new(&tokens);
    let function = FunctionDefinition::parse(&mut buffer).unwrap();
    assert!(function.parameters.items().is_empty());
    assert!(function.compound_statements.items().is_empty());
    assert_eq!(function.lexeme_signature(), "float f ( ) { }");
}

#[test]
fn function_definition_on_empty_input() {
    let tokens = lex("");
    let mut buffer = ParseBuffer::new(&tokens);
    match FunctionDefinition::parse(&mut buffer) {
        Err(ParseError::NothingFound { expected }) => assert_eq!(expected, "Function Definition"),
        other => panic!("unexpected result {:?}", other),
    }
}

#[test]
fn function_definition_with_statement_missing_its_semicolon() {
    let tokens = lex("int f() { x = 1 }");
    let mut buffer = ParseBuffer::new(&tokens);
    match FunctionDefinition::parse(&mut buffer) {
        Err(ParseError::InList { list, cause }) => {
            assert_eq!(list, "Terminated Sequence of `Statement` by `;`");
            match *cause {
                ParseError::Mismatch { expected, found } => {
                    assert_eq!(expected, ";");
                    assert_eq!(found, "}");
                }
                other => panic!("unexpected cause {:?}", other),
            }
        }
        other => panic!("unexpected result {:?}", other),
    }
}

#[test]
fn display_renders_an_indented_tree() {
    let tokens = lex("int main() { return 0; }");
    let mut buffer = ParseBuffer::new(&tokens);
    let function = FunctionDefinition::parse(&mut buffer).unwrap();
    let lines = function.display(0, None);
    let expected = vec![
        "Function Definition: int main ( ) { return 0 ; }",
        "    Funtion Return Type: int",
        "    Function Identifier: main",
        "    Left Paren: (",
        "    Function Parameters: ",
        "    Right Paren: )",
        "    Left Curly: {",
        "    Compound Statements: return 0 ;",
        "        Statement:",
        "            Return Statement: return 0",
        "                Return: return",
        "                Expression:",
        "                    Arithmetic Expression: 0",
        "                        Term: 0",
        "                            Factor: 0",
        "                                Literal: 0",
        "    Right Curly: }",
    ];
    assert_eq!(lines, expected);
}

#[test]
fn display_of_extensions_stays_at_the_operand_depth() {
    let tokens = lex("a + b * 2");
    let mut buffer = ParseBuffer::new(&tokens);
    let expression = ArithmeticExpression::parse(&mut buffer).unwrap();
    let lines = expression.display(1, Some("ignored".to_string()));
    let expected = vec![
        "    Arithmetic Expression: a + b * 2",
        "        Term: a",
        "            Factor: a",
        "                Variable: a",
        "        Operator: +",
        "        Term: b * 2",
        "            Factor: b",
        "                Variable: b",
        "            Operator: *",
        "            Factor: 2",
        "                Literal: 2",
    ];
    assert_eq!(lines, expected);
}

#[test]
fn display_of_a_terminal_takes_the_given_label() {
    let tokens = lex("x");
    let mut buffer = ParseBuffer::new(&tokens);
    let identifier = Identifier::parse(&mut buffer).unwrap();
    assert_eq!(identifier.display(2, None), vec!["        {identifier}: x"]);
    assert_eq!(identifier.display(0, Some("Name".to_string())), vec!["Name: x"]);
}

#[test]
fn display_of_a_parameter_list() {
    let tokens = lex("int x, float y");
    let mut buffer = ParseBuffer::new(&tokens);
    let list = FunctionParameters::parse(&mut buffer).unwrap();
    let expected = vec![
        "Delimited Sequence of `Function Parameter` by `,`: int x , float y",
        "    Function Parameter: int x",
        "        Parameter Type: int",
        "        Parameter Identifier: x",
        "    Function Parameter: float y",
        "        Parameter Type: float",
        "        Parameter Identifier: y",
    ];
    assert_eq!(list.display(0, None), expected);
}

#[test]
fn signature_of_a_program_parses_back_to_the_same_signature() {
    let sources = [
        "int main(){}",
        "float f(int a){return a;}",
        "int g(int a,float b,int c){x=a*b+c;y=(int)x;return y-1;}",
    ];
    for source in sources {
        let tokens = lex(source);
        let mut buffer = ParseBuffer::new(&tokens);
        let function = FunctionDefinition::parse(&mut buffer).unwrap();
        assert_eq!(buffer.peek(), None);
        let signature = function.lexeme_signature();
        let again = lex(&signature);
        assert_eq!(again, tokens);
        let mut buffer = ParseBuffer::new(&again);
        let reparsed = FunctionDefinition::parse(&mut buffer).unwrap();
        assert_eq!(buffer.peek(), None);
        assert_eq!(reparsed.lexeme_signature(), signature);
        assert_eq!(reparsed.display(0, None), function.display(0, None));
    }
}

#[test]
fn tokens_behind_the_function_are_left_unread() {
    let tokens = lex("int f(){} int");
    let mut buffer = ParseBuffer::new(&tokens);
    let function = FunctionDefinition::parse(&mut buffer).unwrap();
    assert_eq!(function.lexeme_signature(), "int f ( ) { }");
    assert_eq!(
        peeked(&buffer),
        Some((Token::Type(syntactical_analyzer::lexer::Type::Int), "int".to_string()))
    );
}

#[test]
fn statement_with_a_subtraction_chain_parses() {
    let tokens = lex("x = a - b - c;");
    let mut buffer = ParseBuffer::new(&tokens);
    let list = CompoundStatements::parse(&mut buffer).unwrap();
    assert_eq!(buffer.peek(), None);
    assert_eq!(list.items().len(), 1);
    assert_eq!(list.lexeme_signature(), "x = a - b - c ;");
}

#[test]
fn product_chain_groups_to_the_right() {
    let tokens = lex("a * b / c");
    let mut buffer = ParseBuffer::new(&tokens);
    let term = Term::parse(&mut buffer).unwrap();
    assert_eq!(buffer.peek(), None);
    assert_eq!(term.lexeme_signature(), "a * b / c");
    match &term.extend {
        Some(FactorExtend::Multiply(_, operand)) => {
            assert_eq!(operand.lexeme_signature(), "b / c");
            assert!(matches!(operand.extend, Some(FactorExtend::Divide(_, _))));
        }
        other => panic!("unexpected extension {:?}", other),
    }
}

#[test]
fn display_of_a_chain_lists_its_operands_at_one_depth() {
    let tokens = lex("a - b - c");
    let mut buffer = ParseBuffer::new(&tokens);
    let expression = ArithmeticExpression::parse(&mut buffer).unwrap();
    let expected = vec![
        "Arithmetic Expression: a - b - c",
        "    Term: a",
        "        Factor: a",
        "            Variable: a",
        "    Operator: -",
        "    Term: b",
        "        Factor: b",
        "            Variable: b",
        "    Operator: -",
        "    Term: c",
        "        Factor: c",
        "            Variable: c",
    ];
    assert_eq!(expression.display(0, None), expected);
}

#[test]
fn signature_is_the_lexemes_joined_by_single_spaces() {
    let tokens = lex("int f ( ) { return 0 ; }");
    let mut buffer = ParseBuffer::new(&tokens);
    let function = FunctionDefinition::parse(&mut buffer).unwrap();
    assert_eq!(function.lexeme_signature(), "int f ( ) { return 0 ; }");
    assert_eq!(function.lexemes(), tokens);
    let tokens = lex("int\tf(){return 0;}\n");
    let mut buffer = ParseBuffer::new(&tokens);
    let function = FunctionDefinition::parse(&mut buffer).unwrap();
    assert_eq!(function.lexeme_signature(), "int f ( ) { return 0 ; }");
}

#[test]
fn operator_at_the_end_of_a_chain_is_an_error() {
    let tokens = lex("a - b -");
    let mut buffer = ParseBuffer::new(&tokens);
    match ArithmeticExpression::parse(&mut buffer) {
        Err(ParseError::NothingFound { expected }) => assert_eq!(expected, "Arithmetic Expression"),
        other => panic!("unexpected result {:?}", other),
    }
    assert_eq!(peeked(&buffer), Some((Token::Identifier, "a".to_string())));
}
