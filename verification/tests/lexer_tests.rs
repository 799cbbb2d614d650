use syntactical_analyzer::lexer::get_lexemes;
use syntactical_analyzer::lexer::is_whitespace;
use syntactical_analyzer::lexer::CharClass;
use syntactical_analyzer::lexer::LexError;
use syntactical_analyzer::lexer::StateMachine;
use syntactical_analyzer::lexer::Symbol;
use syntactical_analyzer::lexer::Token;
use syntactical_analyzer::lexer::Type;

fn pair(token: Token, lexeme: &str) -> (Token, String) {
    (token, lexeme.to_string())
}

fn lex(source: &str) -> Vec<(Token, String)> {
    get_lexemes(source.as_bytes()).unwrap()
}

#[test]
fn classifier_maps_letters_and_digits() {
    for c in b'a'..=b'z' {
        assert_eq!(CharClass::parse(c), CharClass::Letter);
    }
    for c in b'A'..=b'Z' {
        assert_eq!(CharClass::parse(c), CharClass::Letter);
    }
    for c in b'0'..=b'9' {
        assert_eq!(CharClass::parse(c), CharClass::Digit);
    }
}

#[test]
fn classifier_maps_each_symbol() {
    let expected = [
        (b'+', Symbol::Plus),
        (b'-', Symbol::Minus),
        (b'*', Symbol::Multiply),
        (b'/', Symbol::Divide),
        (b'=', Symbol::Equal),
        (b';', Symbol::Semicolon),
        (b'(', Symbol::LeftParen),
        (b')', Symbol::RightParen),
        (b'{', Symbol::LeftCurly),
        (b'}', Symbol::RightCurly),
        (b'_', Symbol::Underscore),
        (b',', Symbol::Comma),
        (b'.', Symbol::Period),
    ];
    for (c, sym) in expected {
        assert_eq!(CharClass::parse(c), CharClass::Symbol(sym));
        assert_eq!(CharClass::from(sym), CharClass::Symbol(sym));
    }
}

#[test]
fn classifier_rejects_everything_else() {
    for c in 0u8..=0x20 {
        assert_eq!(CharClass::parse(c), CharClass::Unknown);
    }
    for c in 0x7Fu8..=0xFF {
        assert_eq!(CharClass::parse(c), CharClass::Unknown);
    }
    for c in [b'!', b'"', b'#', b'$', b'%', b'&', b'\'', b':', b'<', b'>', b'?', b'@', b'[', b'\\', b']', b'^', b'`', b'|', b'~'] {
        assert_eq!(CharClass::parse(c), CharClass::Unknown);
    }
}

#[test]
fn whitespace_set_is_exact() {
    for c in 0u8..=0xFF {
        let expected = matches!(c, 0x9 | 0xA | 0xB | 0xC | 0xD | 0x20);
        assert_eq!(is_whitespace(c), expected);
    }
}

#[test]
fn matches_compares_code_points() {
    assert!(syntactical_analyzer::lexer::matches('i', b'i'));
    assert!(!syntactical_analyzer::lexer::matches('i', b'j'));
    assert!(!syntactical_analyzer::lexer::matches('\u{169}', 0x69));
    assert!(syntactical_analyzer::lexer::matches('\u{e9}', 0xE9));
}

#[test]
fn token_conversions() {
    assert_eq!(Token::from(Symbol::Comma), Token::Symbol(Symbol::Comma));
    assert_eq!(Token::from(Type::Float), Token::Type(Type::Float));
}

#[test]
fn tick_returns_nothing_inside_a_lexeme() {
    let mut machine = StateMachine::new();
    assert!(machine.tick(b' ').unwrap().is_none());
    assert!(machine.tick(b'a').unwrap().is_none());
    assert!(machine.tick(b'b').unwrap().is_none());
    assert_eq!(machine.tick(b' ').unwrap(), Some(vec![pair(Token::Identifier, "ab")]));
    assert!(machine.tick(b' ').unwrap().is_none());
}

#[test]
fn tick_returns_two_pairs_on_a_symbol_after_a_lexeme() {
    let mut machine = StateMachine::new();
    assert!(machine.tick(b'x').unwrap().is_none());
    assert_eq!(
        machine.tick(b'=').unwrap(),
        Some(vec![pair(Token::Identifier, "x"), pair(Token::Symbol(Symbol::Equal), "=")])
    );
    assert_eq!(machine.tick(b';').unwrap(), Some(vec![pair(Token::Symbol(Symbol::Semicolon), ";")]));
}

#[test]
fn tick_error_leaves_the_machine_as_it_was() {
    let mut machine = StateMachine::new();
    assert!(machine.tick(b'1').unwrap().is_none());
    assert!(machine.tick(b'2').unwrap().is_none());
    match machine.tick(b'x') {
        Err(LexError::UnexpectedCharacter { byte, after }) => {
            assert_eq!(byte, b'x');
            assert_eq!(after, "12");
        }
        other => panic!("unexpected result {:?}", other),
    }
    assert_eq!(machine.tick(b' ').unwrap(), Some(vec![pair(Token::LiteralInt, "12")]));
}

#[test]
fn reset_drops_the_pending_lexeme() {
    let mut machine = StateMachine::new();
    assert!(machine.tick(b'a').unwrap().is_none());
    machine.reset();
    assert!(machine.finalize().is_none());
}

#[test]
fn finalize_flushes_the_pending_lexeme_once() {
    let mut machine = StateMachine::new();
    assert!(machine.tick(b'4').unwrap().is_none());
    assert!(machine.tick(b'2').unwrap().is_none());
    assert_eq!(machine.finalize(), Some(vec![pair(Token::LiteralInt, "42")]));
    assert!(StateMachine::new().finalize().is_none());
}

#[test]
fn keyword_fallback_intx_is_one_identifier() {
    assert_eq!(lex("intx"), vec![pair(Token::Identifier, "intx")]);
}

#[test]
fn keywords_are_recognised_only_when_complete() {
    assert_eq!(lex("int"), vec![pair(Token::Type(Type::Int), "int")]);
    assert_eq!(lex("float"), vec![pair(Token::Type(Type::Float), "float")]);
    assert_eq!(lex("return"), vec![pair(Token::Return, "return")]);
    for word in ["i", "in", "f", "fl", "flo", "floa", "r", "re", "ret", "retu", "retur"] {
        assert_eq!(lex(word), vec![pair(Token::Identifier, word)]);
    }
    for word in ["in1", "int_", "floats", "returns", "return5", "fload", "rat", "iint", "_int"] {
        assert_eq!(lex(word), vec![pair(Token::Identifier, word)]);
    }
}

#[test]
fn keyword_before_a_symbol_keeps_its_token() {
    assert_eq!(
        lex("int("),
        vec![pair(Token::Type(Type::Int), "int"), pair(Token::Symbol(Symbol::LeftParen), "(")]
    );
    assert_eq!(
        lex("return;"),
        vec![pair(Token::Return, "return"), pair(Token::Symbol(Symbol::Semicolon), ";")]
    );
    assert_eq!(
        lex("float)"),
        vec![pair(Token::Type(Type::Float), "float"), pair(Token::Symbol(Symbol::RightParen), ")")]
    );
    assert_eq!(
        lex("retur;"),
        vec![pair(Token::Identifier, "retur"), pair(Token::Symbol(Symbol::Semicolon), ";")]
    );
    assert_eq!(
        lex("abc+"),
        vec![pair(Token::Identifier, "abc"), pair(Token::Symbol(Symbol::Plus), "+")]
    );
}

#[test]
fn numeric_promotion_float_literal() {
    assert_eq!(lex("12.34"), vec![pair(Token::LiteralFloat, "12.34")]);
    assert_eq!(lex("12"), vec![pair(Token::LiteralInt, "12")]);
    assert_eq!(lex("12."), vec![pair(Token::LiteralFloat, "12.")]);
}

#[test]
fn numeric_promotion_second_period_is_fatal() {
    let failure = get_lexemes(b"12.34.5").unwrap_err();
    assert_eq!(failure.position, 5);
    match failure.error {
        LexError::UnexpectedCharacter { byte, after } => {
            assert_eq!(byte, b'.');
            assert_eq!(after, "12.34");
        }
        other => panic!("unexpected error {:?}", other),
    }
}

#[test]
fn number_before_a_symbol() {
    assert_eq!(
        lex("7;"),
        vec![pair(Token::LiteralInt, "7"), pair(Token::Symbol(Symbol::Semicolon), ";")]
    );
    assert_eq!(
        lex("7.5*"),
        vec![pair(Token::LiteralFloat, "7.5"), pair(Token::Symbol(Symbol::Multiply), "*")]
    );
    assert_eq!(
        lex("7_"),
        vec![pair(Token::LiteralInt, "7"), pair(Token::Symbol(Symbol::Underscore), "_")]
    );
}

#[test]
fn letter_after_a_number_is_fatal() {
    let failure = get_lexemes(b"x = 12a;").unwrap_err();
    assert_eq!(failure.position, 6);
    match failure.error {
        LexError::UnexpectedCharacter { byte, after } => {
            assert_eq!(byte, b'a');
            assert_eq!(after, "12");
        }
        other => panic!("unexpected error {:?}", other),
    }
}

#[test]
fn unknown_byte_between_lexemes_is_fatal() {
    let failure = get_lexemes(b"a = #").unwrap_err();
    assert_eq!(failure.position, 4);
    assert!(matches!(failure.error, LexError::UnknownCharacter { byte: b'#' }));
    let failure = get_lexemes(&[0x80]).unwrap_err();
    assert_eq!(failure.position, 0);
    assert!(matches!(failure.error, LexError::UnknownCharacter { byte: 0x80 }));
}

#[test]
fn unknown_byte_inside_a_word_is_fatal() {
    let failure = get_lexemes(b"ab$").unwrap_err();
    assert_eq!(failure.position, 2);
    match failure.error {
        LexError::UnexpectedCharacter { byte, after } => {
            assert_eq!(byte, b'$');
            assert_eq!(after, "ab");
        }
        other => panic!("unexpected error {:?}", other),
    }
}

#[test]
fn leading_period_is_a_symbol() {
    assert_eq!(
        lex(".5"),
        vec![pair(Token::Symbol(Symbol::Period), "."), pair(Token::LiteralInt, "5")]
    );
}

#[test]
fn empty_and_blank_inputs_have_no_tokens() {
    assert_eq!(lex(""), vec![]);
    assert_eq!(lex(" \t\r\n\x0B\x0C"), vec![]);
}

#[test]
fn trailing_whitespace_changes_nothing() {
    for source in ["int x", "a = 1;", "12.5", "return", "", "f(x)"] {
        let plain = lex(source);
        for extra in [" ", "\n", "\t \r\n", "   \x0B\x0C  "] {
            let padded = format!("{}{}", source, extra);
            assert_eq!(lex(&padded), plain);
        }
    }
    let plain = get_lexemes(b"1x").unwrap_err();
    let padded = get_lexemes(b"1x  \n").unwrap_err();
    assert_eq!(plain.position, padded.position);
    assert_eq!(format!("{:?}", plain.error), format!("{:?}", padded.error));
}

#[test]
fn whole_function_is_tokenized_in_source_order() {
    let tokens = lex("int main(float a_1) {\n    x = a_1 * 2.5;\n    return x;\n}\n");
    let expected = vec![
        pair(Token::Type(Type::Int), "int"),
        pair(Token::Identifier, "main"),
        pair(Token::Symbol(Symbol::LeftParen), "("),
        pair(Token::Type(Type::Float), "float"),
        pair(Token::Identifier, "a_1"),
        pair(Token::Symbol(Symbol::RightParen), ")"),
        pair(Token::Symbol(Symbol::LeftCurly), "{"),
        pair(Token::Identifier, "x"),
        pair(Token::Symbol(Symbol::Equal), "="),
        pair(Token::Identifier, "a_1"),
        pair(Token::Symbol(Symbol::Multiply), "*"),
        pair(Token::LiteralFloat, "2.5"),
        pair(Token::Symbol(Symbol::Semicolon), ";"),
        pair(Token::Return, "return"),
        pair(Token::Identifier, "x"),
        pair(Token::Symbol(Symbol::Semicolon), ";"),
        pair(Token::Symbol(Symbol::RightCurly), "}"),
    ];
    assert_eq!(tokens, expected);
}

fn is_word(text: &str) -> bool {
    let mut chars = text.chars();
    match chars.next() {
        Some(first) if first.is_ascii_alphabetic() || first == '_' => {}
        _ => return false,
    }
    chars.all(|c| c.is_ascii_alphanumeric() || c == '_')
}

fn is_number(text: &str, dots: usize) -> bool {
    text.starts_with(|c: char| c.is_ascii_digit())
        && text.chars().all(|c| c.is_ascii_digit() || c == '.')
        && text.chars().filter(|c| *c == '.').count() == dots
}

#[test]
fn every_lexeme_is_spelled_as_its_token_says() {
    let source = "int intx(float f1, int returned) { _ = 12.5 * f1 - 3. / floa; return (int) r_; } , . in";
    for (token, lexeme) in lex(source) {
        let fits = match token {
            Token::LiteralInt => is_number(&lexeme, 0),
            Token::LiteralFloat => is_number(&lexeme, 1),
            Token::Identifier => {
                is_word(&lexeme) && lexeme != "int" && lexeme != "float" && lexeme != "return"
            }
            Token::Symbol(_) => lexeme.len() == 1 && !lexeme.chars().all(|c| c.is_ascii_alphanumeric()),
            Token::Type(Type::Int) => lexeme == "int",
            Token::Type(Type::Float) => lexeme == "float",
            Token::Return => lexeme == "return",
        };
        assert!(fits, "{:?} `{}`", token, lexeme);
    }
}

#[test]
fn lexemes_written_with_a_space_behind_each_tokenize_to_themselves() {
    let source = "int main(float a_1){x=a_1*2.5;y=7.;return _x/2;}";
    let tokens = lex(source);
    let mut plain = String::new();
    for (_, lexeme) in &tokens {
        plain.push_str(lexeme);
        plain.push(' ');
    }
    assert_eq!(plain, "int main ( float a_1 ) { x = a_1 * 2.5 ; y = 7. ; return _x / 2 ; } ");
    assert_eq!(lex(&plain), tokens);
}

#[test]
fn lone_underscore_is_an_identifier() {
    assert_eq!(lex("_"), vec![pair(Token::Identifier, "_")]);
    assert_eq!(lex("_ _a"), vec![pair(Token::Identifier, "_"), pair(Token::Identifier, "_a")]);
}
