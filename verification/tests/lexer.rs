use simple_json::json_lexer::{lex, lex_aborts, LexOutput, Lexeme};

fn s(text: &str) -> String {
    String::from(text)
}

#[test]
fn lex_empty_text_has_no_lexemes() {
    assert_eq!(lex(s("")), LexOutput::Lexemes(vec![]));
    assert_eq!(lex(s(" \t\n  ")), LexOutput::Lexemes(vec![]));
}

#[test]
fn lex_all_kinds_of_lexemes() {
    let out = lex(s("{\"a\": [1, -2, 3.5, true, false, null]}"));
    assert_eq!(
        out,
        LexOutput::Lexemes(vec![
            Lexeme::OpenBrace,
            Lexeme::String(s("a")),
            Lexeme::Colon,
            Lexeme::OpenBracket,
            Lexeme::Int(1),
            Lexeme::Comma,
            Lexeme::Int(-2),
            Lexeme::Comma,
            Lexeme::Float(s("3.5")),
            Lexeme::Comma,
            Lexeme::Bool(true),
            Lexeme::Comma,
            Lexeme::Bool(false),
            Lexeme::Comma,
            Lexeme::Null,
            Lexeme::CloseBracket,
            Lexeme::CloseBrace,
        ])
    );
}

#[test]
fn lex_string_keeps_its_backslashes() {
    assert_eq!(lex(s("\"a\\\"b\"")), LexOutput::Lexemes(vec![Lexeme::String(s("a\\\"b"))]));
    assert_eq!(lex(s("\"\\\\\"")), LexOutput::Lexemes(vec![Lexeme::String(s("\\\\"))]));
    assert_eq!(lex(s("\"é ü\"")), LexOutput::Lexemes(vec![Lexeme::String(s("é ü"))]));
}

#[test]
fn lex_unterminated_strings() {
    assert_eq!(lex(s("\"abc")), LexOutput::StringNotTerminated);
    assert_eq!(lex(s("\"ab\\")), LexOutput::StringNotTerminated);
    assert_eq!(lex(s("[\"ab\\\"]")), LexOutput::StringNotTerminated);
}

#[test]
fn lex_two_decimal_points() {
    assert_eq!(lex(s("1.2.3")), LexOutput::MultipleDecimalsInFloat);
    assert_eq!(lex(s("[-4.25.0]")), LexOutput::MultipleDecimalsInFloat);
}

#[test]
fn lex_unknown_characters() {
    assert_eq!(lex(s("0")), LexOutput::UnknownCharacter);
    assert_eq!(lex(s("x")), LexOutput::UnknownCharacter);
    assert_eq!(lex(s("trux")), LexOutput::UnknownCharacter);
    assert_eq!(lex(s("\r")), LexOutput::UnknownCharacter);
    assert_eq!(lex(s("12ab")), LexOutput::UnknownCharacter);
    assert_eq!(lex(s("1..")), LexOutput::UnknownCharacter);
}

#[test]
fn lex_numbers() {
    assert_eq!(lex(s("-.5")), LexOutput::Lexemes(vec![Lexeme::Float(s("-.5"))]));
    assert_eq!(
        lex(s("1.,")),
        LexOutput::Lexemes(vec![Lexeme::Float(s("1.")), Lexeme::Comma])
    );
    assert_eq!(lex(s("-0")), LexOutput::Lexemes(vec![Lexeme::Int(0)]));
    assert_eq!(lex(s("100")), LexOutput::Lexemes(vec![Lexeme::Int(100)]));
    assert_eq!(
        lex(s("9223372036854775807")),
        LexOutput::Lexemes(vec![Lexeme::Int(i64::MAX)])
    );
    assert_eq!(
        lex(s("-9223372036854775808")),
        LexOutput::Lexemes(vec![Lexeme::Int(i64::MIN)])
    );
}

#[test]
fn lex_keywords_at_the_end() {
    assert_eq!(lex(s("true")), LexOutput::Lexemes(vec![Lexeme::Bool(true)]));
    assert_eq!(lex(s(" false")), LexOutput::Lexemes(vec![Lexeme::Bool(false)]));
    assert_eq!(lex(s("null")), LexOutput::Lexemes(vec![Lexeme::Null]));
}

#[test]
fn lex_aborts_where_it_cannot_finish() {
    for text in ["t", "tru", "fals", "nul", "1.", "[2.", "-", "-.", "-.,", "99999999999999999999"] {
        assert!(lex_aborts(&s(text)), "{:?}", text);
    }
    for text in ["", "true", "1.5", "0", "\"abc", "1.2.3", "-1", "1.,"] {
        assert!(!lex_aborts(&s(text)), "{:?}", text);
    }
}
