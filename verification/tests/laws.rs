use simple_json::json_lexer::{lex, LexOutput, Lexeme};
use simple_json::json_parser::{parse_json, ParseOutput};
use simple_json::json_type::JSONtype;
use simple_json::json_writer::{write_json, write_value};

fn s(text: &str) -> String {
    String::from(text)
}

fn indent(text: &str, n: usize) -> String {
    text.split('\n')
        .map(|line| "\t".repeat(n) + line)
        .collect::<Vec<_>>()
        .join("\n")
}

fn nested() -> JSONtype {
    JSONtype::Object(vec![
        (s("a"), JSONtype::List(vec![JSONtype::Int(1), JSONtype::Float(s("2.5"))])),
        (s("b"), JSONtype::Object(vec![(s("c"), JSONtype::Null)])),
    ])
}

#[test]
fn clone_gives_an_equal_value() {
    let v = nested();
    assert_eq!(v.clone(), v);
    assert_eq!(JSONtype::String(s("x")).clone(), JSONtype::String(s("x")));
}

#[test]
fn leading_white_space_does_not_change_lexing() {
    for text in ["[1, {\"a\": true}]", "", "\"x\"", "1.5 2", "@", "\"open"] {
        let padded = String::from(" \t\n \n\t") + text;
        assert_eq!(lex(padded), lex(s(text)));
    }
}

#[test]
fn lexing_joined_texts_concatenates_lexemes() {
    let pieces = ["[1,", "2.5]", "{\"k\":", "null}", "true", "-3", ""];
    for a in pieces {
        for b in pieces {
            let (mut x, y) = match (lex(s(a)), lex(s(b))) {
                (LexOutput::Lexemes(x), LexOutput::Lexemes(y)) => (x, y),
                _ => panic!("pieces lex"),
            };
            x.extend(y);
            let joined = String::from(a) + " " + b;
            assert_eq!(lex(joined), LexOutput::Lexemes(x));
        }
    }
    assert_eq!(
        lex(s("1 2")),
        LexOutput::Lexemes(vec![Lexeme::Int(1), Lexeme::Int(2)])
    );
}

#[test]
fn writing_one_level_deeper_indents_every_line() {
    let v = nested();
    let inner = write_json(v.clone());
    let outer = write_json(JSONtype::List(vec![v]));
    assert_eq!(outer, String::from("[\n") + &indent(&inner, 1) + "\n]");
    let twice = write_json(JSONtype::List(vec![JSONtype::List(vec![nested()])]));
    assert_eq!(
        twice,
        String::from("[\n\t[\n") + &indent(&inner, 2) + "\n\t]\n]"
    );
}

#[test]
fn values_equal_as_maps_write_the_same_text() {
    let one = JSONtype::Object(vec![(s("k"), JSONtype::List(vec![JSONtype::Int(3)]))]);
    assert_eq!(write_json(one.clone()), write_json(one));
    let ab = write_json(JSONtype::Object(vec![
        (s("a"), JSONtype::Int(1)),
        (s("b"), JSONtype::Int(2)),
    ]));
    let ba = write_json(JSONtype::Object(vec![
        (s("b"), JSONtype::Int(2)),
        (s("a"), JSONtype::Int(1)),
    ]));
    assert_ne!(ab, ba);
    assert_eq!(ab.len(), ba.len());
    let mut ab_lines: Vec<&str> = ab.split('\n').map(|l| l.trim_end_matches(',')).collect();
    let mut ba_lines: Vec<&str> = ba.split('\n').map(|l| l.trim_end_matches(',')).collect();
    ab_lines.sort();
    ba_lines.sort();
    assert_eq!(ab_lines, ba_lines);
}

#[test]
fn parsed_values_are_well_formed() {
    let out = parse_json(s("{\"k\": [1.25, {\"k\": 2.0, \"k\": 3}], \"k\": 5.5}"));
    assert_eq!(
        out,
        ParseOutput::JSONtype(JSONtype::Object(vec![(
            s("k"),
            JSONtype::List(vec![
                JSONtype::Float(s("1.25")),
                JSONtype::Object(vec![(s("k"), JSONtype::Float(s("2.0")))]),
            ])
        )]))
    );
}

#[test]
fn write_value_at_depth_indents_every_line() {
    for v in [nested(), JSONtype::List(vec![]), JSONtype::Object(vec![]), JSONtype::Int(-5)] {
        let flat = write_json(v.clone());
        for n in 0..4 {
            let deep = write_value(&v, n).string().unwrap();
            assert_eq!(deep, indent(&flat, n));
        }
    }
}
