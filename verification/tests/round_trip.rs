use simple_json::json_parser::{parse_json, parse_json_aborts, ParseOutput};
use simple_json::json_type::JSONtype;
use simple_json::json_writer::write_json;

fn s(text: &str) -> String {
    String::from(text)
}

fn sample() -> JSONtype {
    JSONtype::Object(vec![
        (s("name"), JSONtype::String(s("a \\\"quoted\\\" word"))),
        (s("count"), JSONtype::Int(-12)),
        (s("ratio"), JSONtype::Float(s("-.25"))),
        (
            s("items"),
            JSONtype::List(vec![
                JSONtype::Bool(true),
                JSONtype::Null,
                JSONtype::List(vec![JSONtype::Int(7), JSONtype::Float(s("10.0"))]),
                JSONtype::Object(vec![(s("k"), JSONtype::Bool(false))]),
            ]),
        ),
    ])
}

#[test]
fn written_text_parses_back() {
    let text = write_json(sample());
    assert!(!parse_json_aborts(&text));
    assert_eq!(parse_json(text), ParseOutput::JSONtype(sample()));
}

#[test]
fn zero_does_not_read_back() {
    let text = write_json(JSONtype::List(vec![JSONtype::Int(0)]));
    assert_eq!(text, "[\n\t0\n]");
    assert_eq!(parse_json(text), ParseOutput::LexError);
}

#[test]
fn empty_collections_read_back() {
    for value in [
        JSONtype::List(vec![]),
        JSONtype::Object(vec![]),
        JSONtype::List(vec![JSONtype::List(vec![]), JSONtype::Object(vec![])]),
        JSONtype::Object(vec![(s("e"), JSONtype::Object(vec![]))]),
    ] {
        let text = write_json(value.clone());
        assert!(!parse_json_aborts(&text));
        assert_eq!(parse_json(text), ParseOutput::JSONtype(value));
    }
}

#[test]
fn decimal_point_last_reads_back_inside_a_list() {
    let value = JSONtype::List(vec![JSONtype::Float(s("1.")), JSONtype::Float(s("-2."))]);
    let text = write_json(JSONtype::List(vec![JSONtype::Float(s("1.")), JSONtype::Float(s("-2."))]));
    assert_eq!(text, "[\n\t1.,\n\t-2.\n]");
    assert!(!parse_json_aborts(&text));
    assert_eq!(parse_json(text), ParseOutput::JSONtype(value));
    assert!(parse_json_aborts(&write_json(JSONtype::Float(s("1.")))));
}

#[test]
fn top_level_names_are_reexported() {
    let value = simple_json::parse_json(s("[true]"));
    assert_eq!(
        value,
        ParseOutput::JSONtype(simple_json::JSONtype::List(vec![JSONtype::Bool(true)]))
    );
    assert_eq!(simple_json::write_json(JSONtype::Null), "null");
}
