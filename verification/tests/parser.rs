use simple_json::json_parser::{parse_json, parse_json_aborts, ParseOutput};
use simple_json::json_type::JSONtype;

fn s(text: &str) -> String {
    String::from(text)
}

fn parse(text: &str) -> ParseOutput {
    let text = s(text);
    assert!(!parse_json_aborts(&text));
    parse_json(text)
}

#[test]
fn parse_scalars() {
    assert_eq!(parse("true"), ParseOutput::JSONtype(JSONtype::Bool(true)));
    assert_eq!(parse("null"), ParseOutput::JSONtype(JSONtype::Null));
    assert_eq!(parse("\"hi\""), ParseOutput::JSONtype(JSONtype::String(s("hi"))));
    assert_eq!(parse("42"), ParseOutput::JSONtype(JSONtype::Int(42)));
    assert_eq!(parse("-7"), ParseOutput::JSONtype(JSONtype::Int(-7)));
    assert_eq!(parse("1.5"), ParseOutput::JSONtype(JSONtype::Float(s("1.5"))));
}

#[test]
fn parse_lists() {
    assert_eq!(parse("[]"), ParseOutput::JSONtype(JSONtype::List(vec![])));
    assert_eq!(
        parse("[1, 2]"),
        ParseOutput::JSONtype(JSONtype::List(vec![JSONtype::Int(1), JSONtype::Int(2)]))
    );
    assert_eq!(
        parse("[[true], []]"),
        ParseOutput::JSONtype(JSONtype::List(vec![
            JSONtype::List(vec![JSONtype::Bool(true)]),
            JSONtype::List(vec![]),
        ]))
    );
}

#[test]
fn parse_objects() {
    assert_eq!(parse("{}"), ParseOutput::JSONtype(JSONtype::Object(vec![])));
    assert_eq!(
        parse("{\"a\": 1, \"b\": [true]}"),
        ParseOutput::JSONtype(JSONtype::Object(vec![
            (s("a"), JSONtype::Int(1)),
            (s("b"), JSONtype::List(vec![JSONtype::Bool(true)])),
        ]))
    );
    assert_eq!(
        parse("{\"b\": 1, \"a\": 2}"),
        ParseOutput::JSONtype(JSONtype::Object(vec![
            (s("b"), JSONtype::Int(1)),
            (s("a"), JSONtype::Int(2)),
        ]))
    );
}

#[test]
fn parse_duplicate_keys_keep_the_first() {
    assert_eq!(
        parse("{\"a\": 1, \"a\": 2}"),
        ParseOutput::JSONtype(JSONtype::Object(vec![(s("a"), JSONtype::Int(1))]))
    );
    assert_eq!(
        parse("{\"a\": 1, \"b\": 2, \"a\": 3}"),
        ParseOutput::JSONtype(JSONtype::Object(vec![
            (s("a"), JSONtype::Int(1)),
            (s("b"), JSONtype::Int(2)),
        ]))
    );
}

#[test]
fn parse_lexing_errors() {
    assert_eq!(parse("0"), ParseOutput::LexError);
    assert_eq!(parse("\"abc"), ParseOutput::LexError);
    assert_eq!(parse("1.2.3"), ParseOutput::LexError);
    assert_eq!(parse("[x]"), ParseOutput::LexError);
}

#[test]
fn parse_trailing_commas() {
    assert_eq!(
        parse("[1,]"),
        ParseOutput::JSONtype(JSONtype::List(vec![JSONtype::Int(1)]))
    );
    assert_eq!(
        parse("[1, [2,],]"),
        ParseOutput::JSONtype(JSONtype::List(vec![
            JSONtype::Int(1),
            JSONtype::List(vec![JSONtype::Int(2)]),
        ]))
    );
    assert_eq!(
        parse("{\"a\":1,}"),
        ParseOutput::JSONtype(JSONtype::Object(vec![(s("a"), JSONtype::Int(1))]))
    );
    assert_eq!(
        parse("{\"a\": 1, \"b\": 2,}"),
        ParseOutput::JSONtype(JSONtype::Object(vec![
            (s("a"), JSONtype::Int(1)),
            (s("b"), JSONtype::Int(2)),
        ]))
    );
    let left = ParseOutput::ParseError(s("Unused lexemes left over"));
    for text in ["[,]", "[1,,]", "[1,}", "{\"a\": 1,]", "{,}", "{\"a\": 1,,}"] {
        assert_eq!(parse(text), left, "{:?}", text);
    }
}

#[test]
fn parse_errors_leave_lexemes() {
    let left = ParseOutput::ParseError(s("Unused lexemes left over"));
    assert_eq!(parse("]"), left);
    assert_eq!(parse("true false"), left);
    assert_eq!(parse("[1 2]"), left);
    assert_eq!(parse("{\"a\" 1}"), left);
    assert_eq!(parse("{1: 2}"), left);
    assert_eq!(parse(":"), left);
    assert_eq!(parse(","), left);
    assert_eq!(parse("}"), left);
}

#[test]
fn parse_aborts_where_a_lexeme_is_missing() {
    for text in ["", "  ", "[", "[1", "[1,", "{", "{\"a\"", "{\"a\":", "{\"a\": 1", "tru", "t", "fals", "nul", "1.", "-", "-.", "99999999999999999999", "-9223372036854775809"] {
        assert!(parse_json_aborts(&s(text)), "{:?}", text);
    }
    for text in ["true", "[1]", "0", "]", "-.5", "9223372036854775807"] {
        assert!(!parse_json_aborts(&s(text)), "{:?}", text);
    }
}
