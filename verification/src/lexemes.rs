//! What the tokenizer promises of every lexeme: the text that each kind of
//! token stands for, and the proof that the state machine hands out only
//! such pairs.

use vstd::prelude::*;
use crate::lexer::idle;
use crate::lexer::keyword_step;
use crate::lexer::lemma_run_push;
use crate::lexer::lex;
use crate::lexer::pending_token;
use crate::lexer::run;
use crate::lexer::step;
use crate::lexer::symbol_of;
use crate::lexer::transition;
use crate::lexer::whitespace;
use crate::lexer::LexErrorView;
use crate::lexer::Machine;
use crate::lexer::Move;
use crate::lexer::State;
use crate::lexer::Symbol;
use crate::lexer::Token;
use crate::lexer::Type;

verus! {

/// Whether a character is an ASCII decimal digit.
pub open spec fn digit_char(ch: char) -> bool {
    '0' <= ch && ch <= '9'
}

/// Whether a character is an ASCII letter.
pub open spec fn letter_char(ch: char) -> bool {
    ('a' <= ch && ch <= 'z') || ('A' <= ch && ch <= 'Z')
}

/// Whether a character may stand inside a word.
pub open spec fn word_char(ch: char) -> bool {
    letter_char(ch) || digit_char(ch) || ch == '_'
}

/// Whether a text is a word: a letter or an underscore, then letters, digits
/// and underscores.
pub open spec fn word_text(text: Seq<char>) -> bool {
    &&& text.len() > 0
    &&& letter_char(text[0]) || text[0] == '_'
    &&& forall|i: int| 0 <= i < text.len() ==> word_char(#[trigger] text[i])
}

/// How many periods a text holds.
pub open spec fn periods(text: Seq<char>) -> nat
    decreases text.len(),
{
    if text.len() == 0 {
        0
    } else if text.last() == '.' {
        periods(text.drop_last()) + 1
    } else {
        periods(text.drop_last())
    }
}

/// Whether a text is a number with `dots` periods: it starts with a digit
/// and holds digits and periods only.
pub open spec fn number_text(text: Seq<char>, dots: nat) -> bool {
    &&& text.len() > 0
    &&& digit_char(text[0])
    &&& forall|i: int| 0 <= i < text.len() ==> digit_char(#[trigger] text[i]) || text[i] == '.'
    &&& periods(text) == dots
}

/// The text of the keyword `int`.
pub open spec fn int_text() -> Seq<char> {
    seq!['i', 'n', 't']
}

/// The text of the keyword `float`.
pub open spec fn float_text() -> Seq<char> {
    seq!['f', 'l', 'o', 'a', 't']
}

/// The text of the keyword `return`.
pub open spec fn return_text() -> Seq<char> {
    seq!['r', 'e', 't', 'u', 'r', 'n']
}

/// The character of a punctuation symbol.
pub open spec fn symbol_char(sym: Symbol) -> char {
    match sym {
        Symbol::Plus => '+',
        Symbol::Minus => '-',
        Symbol::Multiply => '*',
        Symbol::Divide => '/',
        Symbol::Equal => '=',
        Symbol::Semicolon => ';',
        Symbol::LeftParen => '(',
        Symbol::RightParen => ')',
        Symbol::LeftCurly => '{',
        Symbol::RightCurly => '}',
        Symbol::Underscore => '_',
        Symbol::Comma => ',',
        Symbol::Period => '.',
    }
}

/// Whether `text` is a lexeme of the kind that `token` names: a keyword is
/// tagged as such, and no identifier is a keyword.
pub open spec fn well_spelled(token: Token, text: Seq<char>) -> bool {
    match token {
        Token::LiteralInt => number_text(text, 0),
        Token::LiteralFloat => number_text(text, 1),
        Token::Identifier => word_text(text) && text != int_text() && text != float_text() && text
            != return_text(),
        Token::Symbol(sym) => text == seq![symbol_char(sym)],
        Token::Type(Type::Int) => text == int_text(),
        Token::Type(Type::Float) => text == float_text(),
        Token::Return => text == return_text(),
    }
}

/// Whether every pair of a run is well spelled.
pub open spec fn all_well_spelled(pairs: Seq<(Token, Seq<char>)>) -> bool {
    forall|i: int| 0 <= i < pairs.len() ==> well_spelled(#[trigger] pairs[i].0, pairs[i].1)
}

/// Whether a state is one of those that follow a reserved word.
pub open spec fn in_keyword(s: State) -> bool {
    s != State::ScrollToNext && s != State::NumberDigit && s != State::NumberFloat && s
        != State::Identifier
}

/// The part of its reserved word that has been read in a state.
pub open spec fn keyword_prefix(s: State) -> Seq<char> {
    match s {
        State::MaybeTypeInt2 => seq!['i'],
        State::MaybeTypeInt3 => seq!['i', 'n'],
        State::ConfirmTypeInt => seq!['i', 'n', 't'],
        State::MaybeTypeFloat2 => seq!['f'],
        State::MaybeTypeFloat3 => seq!['f', 'l'],
        State::MaybeTypeFloat4 => seq!['f', 'l', 'o'],
        State::MaybeTypeFloat5 => seq!['f', 'l', 'o', 'a'],
        State::ConfirmTypeFloat => seq!['f', 'l', 'o', 'a', 't'],
        State::MaybeKeywordReturn2 => seq!['r'],
        State::MaybeKeywordReturn3 => seq!['r', 'e'],
        State::MaybeKeywordReturn4 => seq!['r', 'e', 't'],
        State::MaybeKeywordReturn5 => seq!['r', 'e', 't', 'u'],
        State::MaybeKeywordReturn6 => seq!['r', 'e', 't', 'u', 'r'],
        State::ConfirmKeywordReturn => seq!['r', 'e', 't', 'u', 'r', 'n'],
        _ => Seq::empty(),
    }
}

/// Whether a text is the start of a reserved word, or a whole one.
pub open spec fn begins_keyword(text: Seq<char>) -> bool {
    exists|s: State| in_keyword(s) && text == #[trigger] keyword_prefix(s)
}

/// Whether the state of a machine says what its lexeme is: in a keyword
/// state the lexeme is that part of the keyword, and in the identifier
/// state it is a word that starts no keyword.
pub open spec fn coherent(m: Machine) -> bool {
    match m.state {
        State::ScrollToNext => m.lexeme.len() == 0,
        State::NumberDigit => number_text(m.lexeme, 0),
        State::NumberFloat => number_text(m.lexeme, 1),
        State::Identifier => word_text(m.lexeme) && !begins_keyword(m.lexeme),
        s => word_text(m.lexeme) && m.lexeme == keyword_prefix(s),
    }
}

/// Two texts that are equal after a character was appended to each were
/// equal before, and so were the characters.
proof fn lemma_push_injective(a: Seq<char>, x: char, b: Seq<char>, y: char)
    requires
        a.push(x) == b.push(y),
    ensures
        a == b,
        x == y,
{
    assert(a.push(x).len() == a.len() + 1);
    assert(b.push(y).len() == b.len() + 1);
    assert(a.push(x)[a.len() as int] == x);
    assert(b.push(y)[b.len() as int] == y);
    assert(a.push(x).drop_last() =~= a);
    assert(b.push(y).drop_last() =~= b);
}

/// The state before `s` inside its reserved word, for every state but the
/// first of a word.
pub open spec fn keyword_before(s: State) -> Option<State> {
    match s {
        State::MaybeTypeInt3 => Some(State::MaybeTypeInt2),
        State::ConfirmTypeInt => Some(State::MaybeTypeInt3),
        State::MaybeTypeFloat3 => Some(State::MaybeTypeFloat2),
        State::MaybeTypeFloat4 => Some(State::MaybeTypeFloat3),
        State::MaybeTypeFloat5 => Some(State::MaybeTypeFloat4),
        State::ConfirmTypeFloat => Some(State::MaybeTypeFloat5),
        State::MaybeKeywordReturn3 => Some(State::MaybeKeywordReturn2),
        State::MaybeKeywordReturn4 => Some(State::MaybeKeywordReturn3),
        State::MaybeKeywordReturn5 => Some(State::MaybeKeywordReturn4),
        State::MaybeKeywordReturn6 => Some(State::MaybeKeywordReturn5),
        State::ConfirmKeywordReturn => Some(State::MaybeKeywordReturn6),
        _ => None,
    }
}

/// One more letter of a reserved word extends the part read by that
/// letter.
proof fn lemma_keyword_grows(s: State)
    requires
        keyword_step(s) is Some,
    ensures
        keyword_step(s) matches Some((expected, next)) && keyword_prefix(next) == keyword_prefix(
            s,
        ).push(expected as char) && keyword_before(next) == Some(s),
{
    let (expected, next) = keyword_step(s)->Some_0;
    assert(keyword_prefix(next) =~= keyword_prefix(s).push(expected as char));
}

/// A state behind the first letter of a reserved word is reached from the
/// state before it, by the letter that the word has there.
proof fn lemma_keyword_shrinks(s: State)
    requires
        in_keyword(s),
    ensures
        match keyword_before(s) {
            Some(before) => {
                &&& in_keyword(before)
                &&& keyword_step(before) matches Some((expected, next))
                &&& next == s
                &&& keyword_prefix(s) == keyword_prefix(before).push(expected as char)
            },
            None => keyword_prefix(s).len() == 1,
        },
{
    match keyword_before(s) {
        Some(before) => {
            lemma_keyword_grows(before);
        },
        None => {},
    }
}

/// How many letters of its reserved word have been read in a state.
pub open spec fn keyword_progress(s: State) -> nat {
    match keyword_before(s) {
        None => 1,
        Some(before) => match keyword_before(before) {
            None => 2,
            Some(second) => match keyword_before(second) {
                None => 3,
                Some(third) => match keyword_before(third) {
                    None => 4,
                    Some(fourth) => match keyword_before(fourth) {
                        None => 5,
                        Some(_) => 6,
                    },
                },
            },
        },
    }
}

/// The first letter of the reserved word that a state follows.
pub open spec fn keyword_initial(s: State) -> char {
    match s {
        State::MaybeTypeInt2 | State::MaybeTypeInt3 | State::ConfirmTypeInt => 'i',
        State::MaybeTypeFloat2
        | State::MaybeTypeFloat3
        | State::MaybeTypeFloat4
        | State::MaybeTypeFloat5
        | State::ConfirmTypeFloat => 'f',
        _ => 'r',
    }
}

/// The part of a reserved word read in a state has as many letters as the
/// state is far into the word, and starts with the word's first letter.
proof fn lemma_keyword_prefix_length(s: State)
    requires
        in_keyword(s),
    ensures
        keyword_prefix(s).len() == keyword_progress(s),
        keyword_prefix(s)[0] == keyword_initial(s),
{
}

/// No two states stand for the same part of a reserved word.
proof fn lemma_keyword_prefix_injective(a: State, b: State)
    requires
        in_keyword(a),
        in_keyword(b),
        keyword_prefix(a) == keyword_prefix(b),
    ensures
        a == b,
{
    lemma_keyword_prefix_length(a);
    lemma_keyword_prefix_length(b);
    assert(keyword_progress(a) == keyword_progress(b));
    assert(keyword_initial(a) == keyword_initial(b));
}

/// Every part of a reserved word is a word.
proof fn lemma_keyword_prefix_is_word(s: State)
    requires
        in_keyword(s),
    ensures
        word_text(keyword_prefix(s)),
{
    let text = keyword_prefix(s);
    assert forall|i: int| 0 <= i < text.len() implies word_char(#[trigger] text[i]) by {
        if i == 0 {
        } else if i == 1 {
        } else if i == 2 {
        } else if i == 3 {
        } else if i == 4 {
        } else {
        }
    }
}

/// A word with one more word character is a word.
proof fn lemma_word_grows(text: Seq<char>, ch: char)
    requires
        word_text(text),
        word_char(ch),
    ensures
        word_text(text.push(ch)),
{
    assert(text.push(ch)[0] == text[0]);
}

/// A number with one more digit or period is a number, with one more period
/// in the second case.
proof fn lemma_number_grows(text: Seq<char>, dots: nat, ch: char)
    requires
        number_text(text, dots),
        digit_char(ch) || ch == '.',
    ensures
        number_text(
            text.push(ch),
            if ch == '.' {
                dots + 1
            } else {
                dots
            },
        ),
{
    assert(text.push(ch)[0] == text[0]);
    assert(text.push(ch).drop_last() =~= text);
}

/// A word that continues no reserved word starts none after one more
/// character; neither does a part of a reserved word after a character
/// that the word does not have there.
proof fn lemma_fallback_begins_no_keyword(m: Machine, ch: char)
    requires
        coherent(m),
        m.state == State::Identifier || in_keyword(m.state),
        in_keyword(m.state) ==> match keyword_step(m.state) {
            Some((expected, _)) => ch != expected as char,
            None => true,
        },
    ensures
        !begins_keyword(m.lexeme.push(ch)),
{
    let grown = m.lexeme.push(ch);
    assert forall|s: State| in_keyword(s) implies grown != #[trigger] keyword_prefix(s) by {
        if grown == keyword_prefix(s) {
            lemma_keyword_shrinks(s);
            match keyword_before(s) {
                None => {
                    assert(grown.len() == m.lexeme.len() + 1);
                },
                Some(before) => {
                    let expected = keyword_step(before)->Some_0.0;
                    lemma_push_injective(
                        m.lexeme,
                        ch,
                        keyword_prefix(before),
                        expected as char,
                    );
                    if in_keyword(m.state) {
                        lemma_keyword_prefix_injective(m.state, before);
                    }
                },
            }
        }
    }
}

/// One step keeps a machine coherent, and every pair that it completes is
/// well spelled.
pub proof fn lemma_step_spells_well(m: Machine, c: u8)
    requires
        coherent(m),
    ensures
        step(m, c) matches Ok((next, out)) ==> coherent(next) && all_well_spelled(out),
{
    let ch = c as char;
    match transition(m.state, c) {
        Move::Skip => {},
        Move::Extend(next) => {
            let grown = m.lexeme.push(ch);
            if m.state == State::ScrollToNext {
                assert(m.lexeme =~= Seq::<char>::empty());
                assert(grown =~= seq![ch]);
                assert(periods(grown.drop_last()) == 0);
                if next == State::Identifier {
                    assert forall|s: State| in_keyword(s) implies grown
                        != #[trigger] keyword_prefix(s) by {
                        if grown == keyword_prefix(s) {
                            assert(grown[0] == keyword_prefix(s)[0]);
                            assert(grown.len() == keyword_prefix(s).len());
                        }
                    }
                } else if in_keyword(next) {
                    assert(grown =~= keyword_prefix(next));
                }
            } else if m.state == State::NumberDigit || m.state == State::NumberFloat {
                lemma_number_grows(m.lexeme, periods(m.lexeme), ch);
            } else {
                lemma_word_grows(m.lexeme, ch);
                if next == State::Identifier {
                    lemma_fallback_begins_no_keyword(m, ch);
                } else {
                    lemma_keyword_grows(m.state);
                }
            }
        },
        Move::Flush => {
            lemma_pending_is_well_spelled(m);
        },
        Move::Punctuate(sym) => {
            if m.state != State::ScrollToNext {
                lemma_pending_is_well_spelled(m);
            }
        },
        _ => {},
    }
}

/// The lexeme of a coherent machine that is not at rest is well spelled for
/// the token under which it is handed out.
proof fn lemma_pending_is_well_spelled(m: Machine)
    requires
        coherent(m),
        m.state != State::ScrollToNext,
    ensures
        well_spelled(pending_token(m.state), m.lexeme),
{
    if m.state == State::Identifier {
        assert(in_keyword(State::ConfirmTypeInt));
        assert(m.lexeme != keyword_prefix(State::ConfirmTypeInt));
        assert(m.lexeme != keyword_prefix(State::ConfirmTypeFloat));
        assert(m.lexeme != keyword_prefix(State::ConfirmKeywordReturn));
    } else if in_keyword(m.state) {
        if pending_token(m.state) == Token::Identifier {
            assert(m.lexeme.len() != int_text().len() || m.lexeme[0] != int_text()[0]);
            assert(m.lexeme.len() != float_text().len() || m.lexeme[0] != float_text()[0]);
            assert(m.lexeme.len() != return_text().len() || m.lexeme[0] != return_text()[0]);
        }
    }
}

/// At every point of a run the machine is coherent and the completed pairs
/// are well spelled.
pub proof fn lemma_run_spells_well(input: Seq<u8>)
    ensures
        run(input) matches Ok((m, done)) ==> coherent(m) && all_well_spelled(done),
    decreases input.len(),
{
    if input.len() > 0 {
        lemma_run_spells_well(input.drop_last());
        if let Ok((m, done)) = run(input.drop_last()) {
            lemma_step_spells_well(m, input.last());
        }
    }
}

/// Every pair of a token stream is well spelled: numbers are numbers,
/// symbols are their own character, the three reserved words are tagged as
/// such wherever they stand alone, and an identifier is a word that is none
/// of them.
pub proof fn lemma_lex_spells_well(input: Seq<u8>)
    ensures
        lex(input) matches Ok(pairs) ==> all_well_spelled(pairs),
{
    lemma_run_push(input, 0xAu8);
    lemma_run_spells_well(input);
    if let Ok((m, done)) = run(input) {
        lemma_step_spells_well(m, 0xAu8);
    }
}

/// The characters of a run of bytes.
pub open spec fn chars(bytes: Seq<u8>) -> Seq<char> {
    Seq::new(bytes.len(), |i: int| bytes[i] as char)
}

/// A machine fed a run of bytes: the machine reached and the pairs
/// completed on the way, or nothing where a byte is refused.
pub open spec fn feed(m: Machine, bytes: Seq<u8>) -> Option<(Machine, Seq<(Token, Seq<char>)>)>
    decreases bytes.len(),
{
    if bytes.len() == 0 {
        Some((m, Seq::empty()))
    } else {
        match feed(m, bytes.drop_last()) {
            None => None,
            Some((before, done)) => match step(before, bytes.last()) {
                Ok((next, out)) => Some((next, done + out)),
                Err(_) => None,
            },
        }
    }
}

/// Feeding one more byte is one step from feeding the bytes before it.
pub proof fn lemma_feed_push(m: Machine, bytes: Seq<u8>, c: u8)
    ensures
        feed(m, bytes.push(c)) == match feed(m, bytes) {
            None => None,
            Some((before, done)) => match step(before, c) {
                Ok((next, out)) => Some((next, done + out)),
                Err(_) => None,
            },
        },
{
    assert(bytes.push(c).drop_last() =~= bytes);
}

/// Running over two inputs, one after the other, is feeding the second to
/// the machine that the first leaves.
pub proof fn lemma_run_feed(first: Seq<u8>, second: Seq<u8>)
    requires
        run(first) is Ok,
        feed(run(first)->Ok_0.0, second) is Some,
    ensures
        run(first + second) == Ok::<_, (int, LexErrorView)>(
            (
                feed(run(first)->Ok_0.0, second)->Some_0.0,
                run(first)->Ok_0.1 + feed(run(first)->Ok_0.0, second)->Some_0.1,
            ),
        ),
    decreases second.len(),
{
    let (m, done) = run(first)->Ok_0;
    if second.len() == 0 {
        assert(first + second =~= first);
        assert(done + Seq::<(Token, Seq<char>)>::empty() =~= done);
    } else {
        let front = second.drop_last();
        lemma_run_feed(first, front);
        assert((first + second).drop_last() =~= first + front);
        let (before, fed) = feed(m, front)->Some_0;
        let (next, out) = step(before, second.last())->Ok_0;
        assert((done + fed) + out =~= done + (fed + out));
    }
}

/// Whether a text is a number with at most one period.
pub open spec fn numberish(text: Seq<char>) -> bool {
    number_text(text, periods(text)) && periods(text) <= 1
}

/// A machine at rest that is fed a word or a number takes every byte into
/// its lexeme and completes nothing.
proof fn lemma_feed_reads(bytes: Seq<u8>)
    requires
        word_text(chars(bytes)) || numberish(chars(bytes)),
    ensures
        feed(idle(), bytes) matches Some((m, out)) && {
            &&& out.len() == 0
            &&& m.lexeme == chars(bytes)
            &&& coherent(m)
            &&& m.state != State::ScrollToNext
            &&& (m.state == State::NumberDigit || m.state == State::NumberFloat) == digit_char(
                chars(bytes)[0],
            )
        },
    decreases bytes.len(),
{
    let text = chars(bytes);
    let c = bytes.last();
    let front = bytes.drop_last();
    let nothing = Seq::<(Token, Seq<char>)>::empty();
    assert(bytes =~= front.push(c));
    lemma_feed_push(idle(), front, c);
    assert(text.last() == c as char);
    assert(text[0] == bytes[0] as char);
    assert(word_char(c as char) || digit_char(c as char) || c as char == '.');
    if bytes.len() == 1 {
        assert(feed(idle(), front) == Some((idle(), nothing)));
        lemma_step_spells_well(idle(), c);
        assert(transition(State::ScrollToNext, c) is Extend);
        assert(Seq::<char>::empty().push(c as char) =~= text);
        assert(nothing + nothing =~= nothing);
    } else {
        assert(chars(front) =~= text.drop_last());
        assert(chars(front)[0] == text[0]);
        assert forall|i: int| 0 <= i < chars(front).len() implies chars(front)[i] == text[i] by {}
        if word_text(text) {
            assert(word_text(chars(front)));
        } else {
            assert(periods(text) == periods(text.drop_last()) + if c as char == '.' {
                1nat
            } else {
                0nat
            });
            assert(numberish(chars(front)));
        }
        lemma_feed_reads(front);
        let (before, done) = feed(idle(), front)->Some_0;
        lemma_step_spells_well(before, c);
        assert(transition(before.state, c) is Extend);
        assert(before.lexeme.push(c as char) =~= text);
        assert(done + nothing =~= done);
    }
}

/// Whether a machine holds the lexeme `bytes` and will hand it out under
/// `token`.
pub open spec fn holds(m: Machine, token: Token, bytes: Seq<u8>) -> bool {
    &&& m.state != State::ScrollToNext
    &&& m.lexeme == chars(bytes)
    &&& pending_token(m.state) == token
}

/// A machine at rest that is fed a well-spelled word or number holds it as
/// its lexeme, in a state that will hand it out under its token.
proof fn lemma_word_is_pending(token: Token, bytes: Seq<u8>)
    requires
        well_spelled(token, chars(bytes)),
        !(token is Symbol),
    ensures
        feed(idle(), bytes) matches Some((m, out)) && holds(m, token, bytes) && out.len() == 0,
{
    let text = chars(bytes);
    if token is Type || token is Return {
        lemma_keyword_prefix_is_word(State::ConfirmTypeInt);
        lemma_keyword_prefix_is_word(State::ConfirmTypeFloat);
        lemma_keyword_prefix_is_word(State::ConfirmKeywordReturn);
    }
    lemma_feed_reads(bytes);
    let (m, out) = feed(idle(), bytes)->Some_0;
    assert(text[0] == bytes[0] as char);
    assert(in_keyword(State::ConfirmTypeInt) && in_keyword(State::ConfirmTypeFloat) && in_keyword(
        State::ConfirmKeywordReturn,
    ));
    if in_keyword(m.state) {
        if m.lexeme == keyword_prefix(State::ConfirmTypeInt) {
            lemma_keyword_prefix_injective(m.state, State::ConfirmTypeInt);
        }
        if m.lexeme == keyword_prefix(State::ConfirmTypeFloat) {
            lemma_keyword_prefix_injective(m.state, State::ConfirmTypeFloat);
        }
        if m.lexeme == keyword_prefix(State::ConfirmKeywordReturn) {
            lemma_keyword_prefix_injective(m.state, State::ConfirmKeywordReturn);
        }
    } else if m.state == State::Identifier {
        assert(m.lexeme != keyword_prefix(State::ConfirmTypeInt));
        assert(m.lexeme != keyword_prefix(State::ConfirmTypeFloat));
        assert(m.lexeme != keyword_prefix(State::ConfirmKeywordReturn));
    }
}

/// Whether every byte of a run is whitespace.
pub open spec fn blank(bytes: Seq<u8>) -> bool {
    forall|i: int| 0 <= i < bytes.len() ==> whitespace(#[trigger] bytes[i])
}

/// A machine at rest stays at rest over whitespace.
proof fn lemma_rest_over_blank(gap: Seq<u8>)
    requires
        blank(gap),
    ensures
        feed(idle(), gap) == Some((idle(), Seq::<(Token, Seq<char>)>::empty())),
    decreases gap.len(),
{
    let nothing = Seq::<(Token, Seq<char>)>::empty();
    if gap.len() > 0 {
        assert(whitespace(gap[gap.len() - 1]));
        assert forall|i: int| 0 <= i < gap.drop_last().len() implies whitespace(
            #[trigger] gap.drop_last()[i],
        ) by {
            assert(gap.drop_last()[i] == gap[i]);
        }
        lemma_rest_over_blank(gap.drop_last());
        assert(nothing + nothing =~= nothing);
    }
}

/// Whitespace behind a pending lexeme hands it out, once.
proof fn lemma_flush_over_blank(m: Machine, gap: Seq<u8>)
    requires
        m.state != State::ScrollToNext,
        blank(gap),
        gap.len() > 0,
    ensures
        feed(m, gap) == Some((idle(), seq![(pending_token(m.state), m.lexeme)])),
    decreases gap.len(),
{
    let nothing = Seq::<(Token, Seq<char>)>::empty();
    let one = seq![(pending_token(m.state), m.lexeme)];
    let front = gap.drop_last();
    let w = gap.last();
    assert(whitespace(gap[gap.len() - 1]));
    assert(gap =~= front.push(w));
    lemma_feed_push(m, front, w);
    if front.len() == 0 {
        assert(feed(m, front) == Some((m, nothing)));
        assert(nothing + one =~= one);
    } else {
        assert forall|i: int| 0 <= i < front.len() implies whitespace(#[trigger] front[i]) by {
            assert(front[i] == gap[i]);
        }
        lemma_flush_over_blank(m, front);
        assert(one + nothing =~= one);
    }
}

/// Feeding two runs of bytes, one after the other, is feeding the second
/// to the machine that the first leaves.
proof fn lemma_feed_concat(m: Machine, first: Seq<u8>, second: Seq<u8>)
    requires
        feed(m, first) is Some,
        feed(feed(m, first)->Some_0.0, second) is Some,
    ensures
        feed(m, first + second) == Some(
            (
                feed(feed(m, first)->Some_0.0, second)->Some_0.0,
                feed(m, first)->Some_0.1 + feed(feed(m, first)->Some_0.0, second)->Some_0.1,
            ),
        ),
    decreases second.len(),
{
    let (middle, done) = feed(m, first)->Some_0;
    if second.len() == 0 {
        assert(first + second =~= first);
        assert(done + Seq::<(Token, Seq<char>)>::empty() =~= done);
    } else {
        let front = second.drop_last();
        lemma_feed_concat(m, first, front);
        assert((first + second).drop_last() =~= first + front);
        let (before, fed) = feed(middle, front)->Some_0;
        let (next, out) = step(before, second.last())->Ok_0;
        assert((done + fed) + out =~= done + (fed + out));
    }
}

/// Whether a token is a symbol that can stand against a word or a number:
/// any but the underscore and the period.
pub open spec fn plain_symbol(token: Token) -> bool {
    token is Symbol && token != Token::Symbol(Symbol::Underscore) && token != Token::Symbol(
        Symbol::Period,
    )
}

/// One lexeme of a source text, with its token and the whitespace that
/// follows it.
pub struct Piece {
    pub token: Token,
    pub lexeme: Seq<u8>,
    pub gap: Seq<u8>,
}

/// The (token, lexeme text) pairs of the pieces of a source text.
pub open spec fn pairs_of(pieces: Seq<Piece>) -> Seq<(Token, Seq<char>)> {
    Seq::new(pieces.len(), |i: int| (pieces[i].token, chars(pieces[i].lexeme)))
}

/// The source text of a run of pieces behind the whitespace `lead`.
pub open spec fn source(lead: Seq<u8>, pieces: Seq<Piece>) -> Seq<u8>
    decreases pieces.len(),
{
    if pieces.len() == 0 {
        lead
    } else {
        source(lead, pieces.drop_last()) + pieces.last().lexeme + pieces.last().gap
    }
}

/// Whether a piece is a well-spelled lexeme, a plain symbol if it is one,
/// with whitespace behind it.
pub open spec fn sound_piece(piece: Piece) -> bool {
    &&& well_spelled(piece.token, chars(piece.lexeme))
    &&& piece.token is Symbol ==> plain_symbol(piece.token)
    &&& blank(piece.gap)
}

/// Whether a piece may stand directly before the next: it has whitespace
/// behind it, or one of the two is a symbol.
pub open spec fn may_touch(piece: Piece, next: Piece) -> bool {
    piece.gap.len() > 0 || piece.token is Symbol || next.token is Symbol
}

/// Whether a run of pieces is a layout of well-spelled lexemes: every symbol
/// is a plain one, every gap is whitespace, and a gap is empty only behind
/// a symbol, before a symbol, or at the end of the text.
pub open spec fn laid_out(pieces: Seq<Piece>) -> bool {
    &&& forall|i: int| 0 <= i < pieces.len() ==> sound_piece(#[trigger] pieces[i])
    &&& forall|i: int, j: int|
        0 <= i && j == i + 1 && j < pieces.len() ==> may_touch(
            #[trigger] pieces[i],
            #[trigger] pieces[j],
        )
}

/// Whether the last piece is still held by the machine at the end of the
/// text: a word or a number with no whitespace behind it.
pub open spec fn last_is_pending(pieces: Seq<Piece>) -> bool {
    pieces.len() > 0 && pieces.last().gap.len() == 0 && !(pieces.last().token is Symbol)
}

/// A plain symbol is handed out by the byte that spells it, behind the
/// lexeme that the machine held, if it held one.
proof fn lemma_symbol_is_read(m: Machine, token: Token, bytes: Seq<u8>)
    requires
        plain_symbol(token),
        well_spelled(token, chars(bytes)),
    ensures
        feed(m, bytes) == Some(
            (
                idle(),
                if m.state == State::ScrollToNext {
                    seq![(token, chars(bytes))]
                } else {
                    seq![(pending_token(m.state), m.lexeme), (token, chars(bytes))]
                },
            ),
        ),
{
    let nothing = Seq::<(Token, Seq<char>)>::empty();
    let text = chars(bytes);
    let c = bytes[0];
    let sym = token->Symbol_0;
    assert(text.len() == 1);
    assert(text[0] == c as char);
    assert(bytes =~= Seq::<u8>::empty().push(c));
    lemma_feed_push(m, Seq::<u8>::empty(), c);
    assert(feed(m, Seq::<u8>::empty()) == Some((m, nothing)));
    assert(symbol_of(c) == Some(sym));
    assert(transition(m.state, c) == Move::Punctuate(sym));
    assert(seq![c as char] =~= text);
    let out = step(m, c)->Ok_0.1;
    assert(nothing + out =~= out);
}

/// What the machine has done at the end of a laid-out text: it is at rest
/// with every lexeme completed, or it holds the last one.
pub open spec fn read_through(
    m: Machine,
    done: Seq<(Token, Seq<char>)>,
    pieces: Seq<Piece>,
) -> bool {
    if last_is_pending(pieces) {
        holds(m, pieces.last().token, pieces.last().lexeme) && done == pairs_of(
            pieces.drop_last(),
        )
    } else {
        m == idle() && done == pairs_of(pieces)
    }
}

/// One more piece behind a text that was read through: the machine reads
/// through the longer text.
proof fn lemma_piece_is_read(
    m: Machine,
    done: Seq<(Token, Seq<char>)>,
    front: Seq<Piece>,
    piece: Piece,
)
    requires
        read_through(m, done, front),
        sound_piece(piece),
        front.len() > 0 ==> may_touch(front.last(), piece),
    ensures
        feed(m, piece.lexeme + piece.gap) matches Some((next, out)) && read_through(
            next,
            done + out,
            front.push(piece),
        ),
{
    let nothing = Seq::<(Token, Seq<char>)>::empty();
    let pieces = front.push(piece);
    let pair = (piece.token, chars(piece.lexeme));
    assert(pieces.drop_last() =~= front);
    assert(pieces.last() == piece);
    assert(pairs_of(front).push(pair) =~= pairs_of(pieces));
    if piece.token is Symbol {
        lemma_symbol_is_read(m, piece.token, piece.lexeme);
        lemma_rest_over_blank(piece.gap);
        lemma_feed_concat(m, piece.lexeme, piece.gap);
        if last_is_pending(front) {
            let held = (front.last().token, chars(front.last().lexeme));
            assert(pairs_of(front.drop_last()).push(held) =~= pairs_of(front));
            assert(pairs_of(front.drop_last()) + (seq![held, pair] + nothing) =~= pairs_of(
                pieces,
            ));
        } else {
            assert(pairs_of(front) + (seq![pair] + nothing) =~= pairs_of(pieces));
        }
    } else {
        lemma_word_is_pending(piece.token, piece.lexeme);
        let (held, out) = feed(idle(), piece.lexeme)->Some_0;
        assert(out =~= nothing);
        if piece.gap.len() == 0 {
            assert(piece.lexeme + piece.gap =~= piece.lexeme);
            assert(pairs_of(front) + nothing =~= pairs_of(front));
        } else {
            lemma_flush_over_blank(held, piece.gap);
            lemma_feed_concat(idle(), piece.lexeme, piece.gap);
            assert(pairs_of(front) + (nothing + seq![pair]) =~= pairs_of(pieces));
        }
    }
}

/// Over a laid-out source text the machine completes the lexemes of the
/// text in order; at the end it is at rest, or holds the last lexeme.
proof fn lemma_source_runs(lead: Seq<u8>, pieces: Seq<Piece>)
    requires
        blank(lead),
        laid_out(pieces),
    ensures
        run(source(lead, pieces)) matches Ok((m, done)) && read_through(m, done, pieces),
    decreases pieces.len(),
{
    let nothing = Seq::<(Token, Seq<char>)>::empty();
    if pieces.len() == 0 {
        lemma_rest_over_blank(lead);
        lemma_run_feed(Seq::<u8>::empty(), lead);
        assert(Seq::<u8>::empty() + lead =~= lead);
        assert(nothing + nothing =~= nothing);
        assert(pairs_of(pieces) =~= nothing);
    } else {
        let front = pieces.drop_last();
        let piece = pieces.last();
        assert(pieces[pieces.len() - 1] == piece);
        assert forall|i: int| 0 <= i < front.len() implies sound_piece(#[trigger] front[i]) by {
            assert(front[i] == pieces[i]);
        }
        assert forall|i: int, j: int| 0 <= i && j == i + 1 && j < front.len() implies may_touch(
            #[trigger] front[i],
            #[trigger] front[j],
        ) by {
            assert(front[i] == pieces[i]);
            assert(front[j] == pieces[j]);
        }
        if front.len() > 0 {
            assert(front.last() == pieces[pieces.len() - 2]);
            assert(may_touch(pieces[pieces.len() - 2], pieces[pieces.len() - 1]));
        }
        lemma_source_runs(lead, front);
        let (m, done) = run(source(lead, front))->Ok_0;
        lemma_piece_is_read(m, done, front, piece);
        lemma_run_feed(source(lead, front), piece.lexeme + piece.gap);
        assert(source(lead, pieces) =~= source(lead, front) + (piece.lexeme + piece.gap));
        assert(front.push(piece) =~= pieces);
    }
}

/// The end of the input completes what the machine holds.
proof fn lemma_end_completes(m: Machine, done: Seq<(Token, Seq<char>)>, pieces: Seq<Piece>)
    requires
        read_through(m, done, pieces),
    ensures
        step(m, 0xAu8) matches Ok((_, out)) && done + out == pairs_of(pieces),
{
    if last_is_pending(pieces) {
        let pair = (pieces.last().token, chars(pieces.last().lexeme));
        assert(pairs_of(pieces.drop_last()) + seq![pair] =~= pairs_of(pieces));
    } else {
        assert(pairs_of(pieces) + Seq::<(Token, Seq<char>)>::empty() =~= pairs_of(pieces));
    }
}

/// Every layout of well-spelled lexemes tokenizes to exactly these lexemes:
/// whatever whitespace stands between them, and none where a symbol keeps
/// two of them apart.
pub proof fn lemma_source_lexes(lead: Seq<u8>, pieces: Seq<Piece>)
    requires
        blank(lead),
        laid_out(pieces),
    ensures
        lex(source(lead, pieces)) == Ok::<_, (int, LexErrorView)>(pairs_of(pieces)),
{
    lemma_source_runs(lead, pieces);
    lemma_run_push(source(lead, pieces), 0xAu8);
    let (m, done) = run(source(lead, pieces))->Ok_0;
    lemma_end_completes(m, done, pieces);
}

} // verus!
