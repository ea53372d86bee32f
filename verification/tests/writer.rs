use simple_json::json_type::JSONtype;
use simple_json::json_writer::write_json;

fn s(text: &str) -> String {
    String::from(text)
}

#[test]
fn write_scalars() {
    assert_eq!(write_json(JSONtype::Bool(true)), "true");
    assert_eq!(write_json(JSONtype::Bool(false)), "false");
    assert_eq!(write_json(JSONtype::Null), "null");
    assert_eq!(write_json(JSONtype::String(s("hi"))), "\"hi\"");
    assert_eq!(write_json(JSONtype::Float(s("1.5"))), "1.5");
}

#[test]
fn write_integers() {
    assert_eq!(write_json(JSONtype::Int(-42)), "-42");
    assert_eq!(write_json(JSONtype::Int(0)), "0");
    assert_eq!(write_json(JSONtype::Int(1234567890)), "1234567890");
    assert_eq!(write_json(JSONtype::Int(i64::MIN)), "-9223372036854775808");
    assert_eq!(write_json(JSONtype::Int(i64::MAX)), "9223372036854775807");
}

#[test]
fn write_lists() {
    assert_eq!(
        write_json(JSONtype::List(vec![JSONtype::Int(1), JSONtype::Int(2)])),
        "[\n\t1,\n\t2\n]"
    );
    assert_eq!(
        write_json(JSONtype::List(vec![JSONtype::List(vec![JSONtype::Bool(true)])])),
        "[\n\t[\n\t\ttrue\n\t]\n]"
    );
}

#[test]
fn write_empty_collections_between_brackets() {
    assert_eq!(write_json(JSONtype::List(vec![])), "[\n]");
    assert_eq!(write_json(JSONtype::Object(vec![])), "{\n}");
    assert_eq!(
        write_json(JSONtype::List(vec![JSONtype::List(vec![])])),
        "[\n\t[\n\t]\n]"
    );
    assert_eq!(
        write_json(JSONtype::Object(vec![(s("a"), JSONtype::Object(vec![]))])),
        "{\n\t\"a\":\n\t{\n\t}\n}"
    );
}

#[test]
fn write_objects() {
    assert_eq!(
        write_json(JSONtype::Object(vec![(s("a"), JSONtype::Int(1))])),
        "{\n\t\"a\":\n\t1\n}"
    );
    assert_eq!(
        write_json(JSONtype::Object(vec![
            (s("a"), JSONtype::Null),
            (s("b"), JSONtype::List(vec![JSONtype::String(s("x"))])),
        ])),
        "{\n\t\"a\":\n\tnull,\n\t\"b\":\n\t[\n\t\t\"x\"\n\t]\n}"
    );
}
