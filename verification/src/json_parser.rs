//! The parser: from lexemes to a JSON value, by recursive descent.

use vstd::prelude::*;
use crate::json_type::{JSONtype, JsonValue, json_members_view, well_formed, distinct_keys};
use crate::json_lexer::{Lexeme, LexemeV, LexOutput, LexResult};

verus! {

/// What parsing a text gives.
#[derive(Debug, PartialEq)]
pub enum ParseOutput {
    JSONtype(JSONtype),
    LexError,
    ParseError(String),
}

/// The model of a parse: `Aborts` stands for the texts on which parsing cannot
/// finish (see `spec_parse_json`).
pub enum ParseJsonResult {
    Json(JsonValue),
    LexError,
    ParseError(Seq<char>),
    Aborts,
}

impl View for ParseOutput {
    type V = ParseJsonResult;

    open spec fn view(&self) -> ParseJsonResult {
        match *self {
            ParseOutput::JSONtype(j) => ParseJsonResult::Json(j@),
            ParseOutput::LexError => ParseJsonResult::LexError,
            ParseOutput::ParseError(m) => ParseJsonResult::ParseError(m@),
        }
    }
}

/// The outcome of parsing one construct: a value, an error message, or
/// `Aborts` when a lexeme past the last one would be read.
pub enum ParseStep {
    Value(JsonValue),
    Error(Seq<char>),
    Aborts,
}

/// `ms` without its members whose key is `key`.
pub open spec fn without_key(ms: Seq<(Seq<char>, JsonValue)>, key: Seq<char>) -> Seq<(Seq<char>, JsonValue)>
    decreases ms.len(),
{
    if ms.len() == 0 {
        ms
    } else if ms.last().0 == key {
        without_key(ms.drop_last(), key)
    } else {
        without_key(ms.drop_last(), key).push(ms.last())
    }
}

/// The members `ms` with the member `key: v` put first, in place of any
/// member with the same key.
pub open spec fn member_insert(ms: Seq<(Seq<char>, JsonValue)>, key: Seq<char>, v: JsonValue) -> Seq<(Seq<char>, JsonValue)> {
    seq![(key, v)] + without_key(ms, key)
}

/// The members `rest` with the members of `m` inserted one after the other.
pub open spec fn merge_members(m: Seq<(Seq<char>, JsonValue)>, rest: Seq<(Seq<char>, JsonValue)>) -> Seq<(Seq<char>, JsonValue)>
    decreases m.len(),
{
    if m.len() == 0 {
        rest
    } else {
        member_insert(merge_members(m.drop_last(), rest), m.last().0, m.last().1)
    }
}

/// Parses a value at index `i` of `lx`; returns the outcome and the number of
/// lexemes read.
pub open spec fn parse_value_at(lx: Seq<LexemeV>, i: int) -> (ParseStep, nat)
    decreases lx.len() - i, 2int,
{
    if i < 0 || i >= lx.len() {
        (ParseStep::Aborts, 0)
    } else {
        match lx[i] {
            LexemeV::Null => (ParseStep::Value(JsonValue::Null), 1),
            LexemeV::Bool(b) => (ParseStep::Value(JsonValue::Bool(b)), 1),
            LexemeV::Int(v) => (ParseStep::Value(JsonValue::Int(v)), 1),
            LexemeV::Float(t) => (ParseStep::Value(JsonValue::Float(t)), 1),
            LexemeV::String(s) => (ParseStep::Value(JsonValue::Str(s)), 1),
            LexemeV::OpenBracket => parse_list_at(lx, i),
            LexemeV::OpenBrace => parse_object_at(lx, i),
            LexemeV::CloseBracket => (ParseStep::Error("Unexpected character ']'"@), 0),
            LexemeV::CloseBrace => (ParseStep::Error("Unexpected character '}'"@), 0),
            LexemeV::Comma => (ParseStep::Error("Unexpected character ','"@), 0),
            LexemeV::Colon => (ParseStep::Error("Unexpected character ':'"@), 0),
        }
    }
}

/// Parses a list `[ item, ... ]` at index `i`.
pub open spec fn parse_list_at(lx: Seq<LexemeV>, i: int) -> (ParseStep, nat)
    decreases lx.len() - i, 1int,
{
    if i < 0 || i >= lx.len() {
        (ParseStep::Aborts, 0)
    } else if !(lx[i] is OpenBracket) {
        (ParseStep::Error("Expected open bracket"@), 0)
    } else if i + 1 >= lx.len() {
        (ParseStep::Aborts, 1)
    } else if lx[i + 1] is CloseBracket {
        (ParseStep::Value(JsonValue::List(Seq::empty())), 2)
    } else {
        let (r, n) = parse_list_items_at(lx, i + 1);
        let k = i + 1 + n;
        match r {
            ParseStep::Value(v) => if k >= lx.len() {
                (ParseStep::Aborts, n + 1)
            } else if lx[k] is CloseBracket {
                (ParseStep::Value(v), n + 2)
            } else {
                (ParseStep::Error("Expected close bracket"@), n + 1)
            },
            other => (other, n + 1),
        }
    }
}

/// Parses the items of a list, separated by commas, at index `j`; the value
/// is the list of the items. A comma may end the items when `]` follows it.
pub open spec fn parse_list_items_at(lx: Seq<LexemeV>, j: int) -> (ParseStep, nat)
    decreases lx.len() - j, 3int,
{
    let (r, n) = parse_value_at(lx, j);
    let k = j + n;
    match r {
        ParseStep::Value(v) => if k < 0 || k >= lx.len() {
            (ParseStep::Aborts, n)
        } else if lx[k] is Comma {
            if k + 1 < lx.len() && lx[k + 1] is CloseBracket {
                (ParseStep::Value(JsonValue::List(seq![v])), n + 1)
            } else {
            let (r2, n2) = parse_list_items_at(lx, k + 1);
            match r2 {
                ParseStep::Value(JsonValue::List(rest)) => (
                    ParseStep::Value(JsonValue::List(seq![v] + rest)),
                    n + 1 + n2,
                ),
                ParseStep::Value(_) => (
                    ParseStep::Error(
                        "Should not be possible: parse_list_items returned not a list"@,
                    ),
                    n + 1 + n2,
                ),
                other => (other, n + 1 + n2),
            }
            }
        } else {
            (ParseStep::Value(JsonValue::List(seq![v])), n)
        },
        other => (other, n),
    }
}

/// Parses an object `{ member, ... }` at index `i`.
pub open spec fn parse_object_at(lx: Seq<LexemeV>, i: int) -> (ParseStep, nat)
    decreases lx.len() - i, 1int,
{
    if i < 0 || i >= lx.len() {
        (ParseStep::Aborts, 0)
    } else if !(lx[i] is OpenBrace) {
        (ParseStep::Error("Expected open brace"@), 0)
    } else if i + 1 >= lx.len() {
        (ParseStep::Aborts, 1)
    } else if lx[i + 1] is CloseBrace {
        (ParseStep::Value(JsonValue::Object(Seq::empty())), 2)
    } else {
        let (r, n) = parse_object_items_at(lx, i + 1);
        let k = i + 1 + n;
        match r {
            ParseStep::Value(v) => if k >= lx.len() {
                (ParseStep::Aborts, n + 1)
            } else if lx[k] is CloseBrace {
                (ParseStep::Value(v), n + 2)
            } else {
                (ParseStep::Error("Expected close brace"@), n + 1)
            },
            other => (other, n + 1),
        }
    }
}

/// Parses the members of an object, separated by commas, at index `j`; a
/// member comes before the later ones, and replaces a later one with the
/// same key. A comma may end the members when `}` follows it.
pub open spec fn parse_object_items_at(lx: Seq<LexemeV>, j: int) -> (ParseStep, nat)
    decreases lx.len() - j, 4int,
{
    let (r, n) = parse_object_item_at(lx, j);
    let k = j + n;
    match r {
        ParseStep::Value(first) => if k < 0 || k >= lx.len() {
            (ParseStep::Aborts, n)
        } else if lx[k] is Comma {
            if k + 1 < lx.len() && lx[k + 1] is CloseBrace {
                (ParseStep::Value(first), n + 1)
            } else {
            match first {
                JsonValue::Object(m) => {
                    let (r2, n2) = parse_object_items_at(lx, k + 1);
                    match r2 {
                        ParseStep::Value(JsonValue::Object(rest)) => (
                            ParseStep::Value(JsonValue::Object(merge_members(m, rest))),
                            n + 1 + n2,
                        ),
                        ParseStep::Value(_) => (
                            ParseStep::Error(
                                "Should not be reached, parse_object_items returned something other than a hashmap"@,
                            ),
                            n + 1 + n2,
                        ),
                        other => (other, n + 1 + n2),
                    }
                },
                _ => (
                    ParseStep::Error(
                        "Should not be reached, parse_object_item did not return a map"@,
                    ),
                    n + 1,
                ),
            }
            }
        } else {
            (ParseStep::Value(first), n)
        },
        other => (other, n),
    }
}

/// Parses one member `"key": value` at index `j`; the value is the object
/// with that one member.
pub open spec fn parse_object_item_at(lx: Seq<LexemeV>, j: int) -> (ParseStep, nat)
    decreases lx.len() - j, 3int,
{
    if j < 0 || j >= lx.len() {
        (ParseStep::Aborts, 0)
    } else {
        match lx[j] {
            LexemeV::String(key) => if j + 1 >= lx.len() {
                (ParseStep::Aborts, 1)
            } else if lx[j + 1] is Colon {
                let (r, n) = parse_value_at(lx, j + 2);
                match r {
                    ParseStep::Value(v) => (
                        ParseStep::Value(JsonValue::Object(seq![(key, v)])),
                        n + 2,
                    ),
                    other => (other, n + 2),
                }
            } else {
                (ParseStep::Error("Expected colon"@), 1)
            },
            _ => (ParseStep::Error("Expected string"@), 0),
        }
    }
}

/// The outcome of parsing the text `cs`: the value that its lexemes form when
/// they form exactly one; `LexError` when lexing fails; `Aborts` when lexing
/// or parsing cannot finish (a parse reads past the last lexeme, which is the
/// case of a text without lexemes, or of an unclosed list or object).
pub open spec fn spec_parse_json(cs: Seq<char>) -> ParseJsonResult {
    match crate::json_lexer::spec_lex(cs) {
        LexResult::Lexemes(lx) => {
            let (r, n) = parse_value_at(lx, 0);
            match r {
                ParseStep::Aborts => ParseJsonResult::Aborts,
                ParseStep::Value(v) => if n != lx.len() {
                    ParseJsonResult::ParseError("Unused lexemes left over"@)
                } else {
                    ParseJsonResult::Json(v)
                },
                ParseStep::Error(m) => if n != lx.len() {
                    ParseJsonResult::ParseError("Unused lexemes left over"@)
                } else {
                    ParseJsonResult::ParseError(m)
                },
            }
        },
        LexResult::Aborts => ParseJsonResult::Aborts,
        _ => ParseJsonResult::LexError,
    }
}

/// `ms` with the member `key: v` put first, in place of the members with the
/// same key.
fn insert_member(ms: Vec<(String, JSONtype)>, key: String, v: JSONtype) -> (r: Vec<(String, JSONtype)>)
    ensures
        json_members_view(r@) == member_insert(json_members_view(ms@), key@, v@),
{
    let ghost ms0 = ms@;
    let mut kept: Vec<(String, JSONtype)> = Vec::new();
    for e in it: ms.into_iter()
        invariant
            it.seq() == ms0,
            json_members_view(kept@) == without_key(json_members_view(ms0.take(it.index() as int)), key@),
    {
        let ghost k = it.index() as int;
        proof {
            assert(ms0.take(k + 1).drop_last() =~= ms0.take(k));
            assert(ms0.take(k + 1).last() == e);
        }
        let ghost pv = (e.0@, e.1@);
        let ghost kept_before = kept@;
        assert(json_members_view(ms0.take(k + 1)) == json_members_view(ms0.take(k)).push(pv));
        assert(json_members_view(ms0.take(k)).push(pv).drop_last() =~= json_members_view(ms0.take(k)));
        if !(e.0 == key) {
            kept.push(e);
            proof {
                assert(kept@.drop_last() =~= kept_before);
                assert(json_members_view(kept@) == json_members_view(kept_before).push(pv));
            }
        }
    }
    proof {
        assert(ms0.take(ms0.len() as int) =~= ms0);
    }
    assert(json_members_view(kept@) == without_key(json_members_view(ms0), key@));
    let mut r: Vec<(String, JSONtype)> = Vec::new();
    r.push((key, v));
    let ghost first = r@;
    let ghost rest = kept@;
    r.append(&mut kept);
    proof {
        crate::json_type::lemma_json_members_view(r@);
        crate::json_type::lemma_json_members_view(first);
        crate::json_type::lemma_json_members_view(rest);
        assert(json_members_view(r@) =~= seq![(key@, v@)] + without_key(json_members_view(ms0), key@));
    }
    r
}

/// `rest` with the members of `m` inserted one after the other.
fn merge_member_vecs(m: Vec<(String, JSONtype)>, rest: Vec<(String, JSONtype)>) -> (r: Vec<(String, JSONtype)>)
    ensures
        json_members_view(r@) == merge_members(json_members_view(m@), json_members_view(rest@)),
{
    let ghost m0 = m@;
    let ghost rest0 = json_members_view(rest@);
    let mut out = rest;
    proof {
        assert(json_members_view(m0.take(0)) =~= Seq::empty());
    }
    for e in it: m.into_iter()
        invariant
            it.seq() == m0,
            json_members_view(out@) == merge_members(json_members_view(m0.take(it.index() as int)), rest0),
    {
        let ghost k = it.index() as int;
        proof {
            assert(m0.take(k + 1).drop_last() =~= m0.take(k));
            assert(m0.take(k + 1).last() == e);
            let pv = (e.0@, e.1@);
            assert(json_members_view(m0.take(k + 1)) == json_members_view(m0.take(k)).push(pv));
            assert(json_members_view(m0.take(k)).push(pv).drop_last() =~= json_members_view(m0.take(k)));
        }
        let (key, v) = e;
        out = insert_member(out, key, v);
    }
    proof {
        assert(m0.take(m0.len() as int) =~= m0);
    }
    out
}

/// A parse in progress: a value, an error message, or a read past the last
/// lexeme.
enum Parsed {
    Value(JSONtype),
    Error(String),
    Aborts,
}

spec fn parsed_view(p: Parsed) -> ParseStep {
    match p {
        Parsed::Value(j) => ParseStep::Value(j@),
        Parsed::Error(m) => ParseStep::Error(m@),
        Parsed::Aborts => ParseStep::Aborts,
    }
}

/// The models of the lexemes in `ls`.
spec fn lx_of(ls: Seq<Lexeme>) -> Seq<LexemeV> {
    crate::json_lexer::lexemes_view(ls)
}

fn error(msg: &str) -> (r: Parsed)
    ensures
        r == Parsed::Error(r->Error_0) && r->Error_0@ == msg@,
{
    Parsed::Error(String::from_str(msg))
}

fn parse_value(lexemes: &Vec<Lexeme>, i: &mut usize) -> (r: Parsed)
    requires
        *old(i) <= lexemes@.len(),
    ensures
        parsed_view(r) == parse_value_at(lx_of(lexemes@), *old(i) as int).0,
        !(r is Aborts) ==> *final(i) == *old(i) + parse_value_at(lx_of(lexemes@), *old(i) as int).1
            && *final(i) <= lexemes@.len(),
    decreases lexemes@.len() - *old(i), 2int,
{
    if *i >= lexemes.len() {
        return Parsed::Aborts;
    }
    match &lexemes[*i] {
        Lexeme::Null => {
            *i += 1;
            Parsed::Value(JSONtype::Null)
        },
        Lexeme::Bool(val) => {
            *i += 1;
            Parsed::Value(JSONtype::Bool(*val))
        },
        Lexeme::Int(val) => {
            *i += 1;
            Parsed::Value(JSONtype::Int(*val))
        },
        Lexeme::Float(val) => {
            *i += 1;
            Parsed::Value(JSONtype::Float(val.clone()))
        },
        Lexeme::String(val) => {
            *i += 1;
            Parsed::Value(JSONtype::String(val.clone()))
        },
        Lexeme::OpenBracket => parse_list(lexemes, i),
        Lexeme::OpenBrace => parse_object(lexemes, i),
        Lexeme::CloseBracket => error("Unexpected character ']'"),
        Lexeme::CloseBrace => error("Unexpected character '}'"),
        Lexeme::Comma => error("Unexpected character ','"),
        Lexeme::Colon => error("Unexpected character ':'"),
    }
}

fn parse_list(lexemes: &Vec<Lexeme>, i: &mut usize) -> (r: Parsed)
    requires
        *old(i) <= lexemes@.len(),
    ensures
        parsed_view(r) == parse_list_at(lx_of(lexemes@), *old(i) as int).0,
        !(r is Aborts) ==> *final(i) == *old(i) + parse_list_at(lx_of(lexemes@), *old(i) as int).1
            && *final(i) <= lexemes@.len(),
    decreases lexemes@.len() - *old(i), 1int,
{
    if *i >= lexemes.len() {
        return Parsed::Aborts;
    }
    match lexemes[*i] {
        Lexeme::OpenBracket => {
            *i += 1;
        },
        _ => {
            return error("Expected open bracket");
        },
    }
    if *i >= lexemes.len() {
        return Parsed::Aborts;
    }
    if let Lexeme::CloseBracket = lexemes[*i] {
        *i += 1;
        return Parsed::Value(JSONtype::List(Vec::new()));
    }
    let list_items = parse_list_items(lexemes, i);
    match list_items {
        Parsed::Value(items) => {
            if *i >= lexemes.len() {
                return Parsed::Aborts;
            }
            match lexemes[*i] {
                Lexeme::CloseBracket => {
                    *i += 1;
                    Parsed::Value(items)
                },
                _ => error("Expected close bracket"),
            }
        },
        _ => list_items,
    }
}

fn parse_list_items(lexemes: &Vec<Lexeme>, i: &mut usize) -> (r: Parsed)
    requires
        *old(i) <= lexemes@.len(),
    ensures
        parsed_view(r) == parse_list_items_at(lx_of(lexemes@), *old(i) as int).0,
        !(r is Aborts) ==> *final(i) == *old(i) + parse_list_items_at(lx_of(lexemes@), *old(i) as int).1
            && *final(i) <= lexemes@.len(),
    decreases lexemes@.len() - *old(i), 3int,
{
    let value = parse_value(lexemes, i);
    match value {
        Parsed::Value(json) => {
            let mut json_vec: Vec<JSONtype> = Vec::new();
            json_vec.push(json);
            proof {
                crate::json_type::lemma_json_seq_view(json_vec@);
                assert(crate::json_type::json_seq_view(json_vec@) =~= seq![json_vec@[0]@]);
            }
            if *i >= lexemes.len() {
                return Parsed::Aborts;
            }
            match lexemes[*i] {
                Lexeme::Comma => {
                    *i += 1;
                    if *i < lexemes.len() {
                        if let Lexeme::CloseBracket = lexemes[*i] {
                            return Parsed::Value(JSONtype::List(json_vec));
                        }
                    }
                    let next_list_items = parse_list_items(lexemes, i);
                    match next_list_items {
                        Parsed::Value(JSONtype::List(mut next_json_vec)) => {
                            let ghost front = json_vec@;
                            let ghost back = next_json_vec@;
                            json_vec.append(&mut next_json_vec);
                            proof {
                                crate::json_type::lemma_json_seq_view(json_vec@);
                                crate::json_type::lemma_json_seq_view(front);
                                crate::json_type::lemma_json_seq_view(back);
                                assert(crate::json_type::json_seq_view(json_vec@) =~= crate::json_type::json_seq_view(front)
                                    + crate::json_type::json_seq_view(back));
                            }
                            Parsed::Value(JSONtype::List(json_vec))
                        },
                        Parsed::Value(_) => error(
                            "Should not be possible: parse_list_items returned not a list",
                        ),
                        _ => next_list_items,
                    }
                },
                _ => Parsed::Value(JSONtype::List(json_vec)),
            }
        },
        _ => value,
    }
}

fn parse_object(lexemes: &Vec<Lexeme>, i: &mut usize) -> (r: Parsed)
    requires
        *old(i) <= lexemes@.len(),
    ensures
        parsed_view(r) == parse_object_at(lx_of(lexemes@), *old(i) as int).0,
        !(r is Aborts) ==> *final(i) == *old(i) + parse_object_at(lx_of(lexemes@), *old(i) as int).1
            && *final(i) <= lexemes@.len(),
    decreases lexemes@.len() - *old(i), 1int,
{
    if *i >= lexemes.len() {
        return Parsed::Aborts;
    }
    match lexemes[*i] {
        Lexeme::OpenBrace => {
            *i += 1;
        },
        _ => {
            return error("Expected open brace");
        },
    }
    if *i >= lexemes.len() {
        return Parsed::Aborts;
    }
    if let Lexeme::CloseBrace = lexemes[*i] {
        *i += 1;
        return Parsed::Value(JSONtype::Object(Vec::new()));
    }
    let object_items = parse_object_items(lexemes, i);
    match object_items {
        Parsed::Value(items) => {
            if *i >= lexemes.len() {
                return Parsed::Aborts;
            }
            match lexemes[*i] {
                Lexeme::CloseBrace => {
                    *i += 1;
                    Parsed::Value(items)
                },
                _ => error("Expected close brace"),
            }
        },
        _ => object_items,
    }
}

fn parse_object_items(lexemes: &Vec<Lexeme>, i: &mut usize) -> (r: Parsed)
    requires
        *old(i) <= lexemes@.len(),
    ensures
        parsed_view(r) == parse_object_items_at(lx_of(lexemes@), *old(i) as int).0,
        !(r is Aborts) ==> *final(i) == *old(i) + parse_object_items_at(lx_of(lexemes@), *old(i) as int).1
            && *final(i) <= lexemes@.len(),
    decreases lexemes@.len() - *old(i), 4int,
{
    let json_object = parse_object_item(lexemes, i);
    match json_object {
        Parsed::Value(json_map) => {
            if *i >= lexemes.len() {
                return Parsed::Aborts;
            }
            match lexemes[*i] {
                Lexeme::Comma => {
                    *i += 1;
                    if *i < lexemes.len() {
                        if let Lexeme::CloseBrace = lexemes[*i] {
                            return Parsed::Value(json_map);
                        }
                    }
                    match json_map {
                        JSONtype::Object(map) => {
                            let next_json_object = parse_object_items(lexemes, i);
                            match next_json_object {
                                Parsed::Value(JSONtype::Object(next_map)) => {
                                    Parsed::Value(JSONtype::Object(merge_member_vecs(map, next_map)))
                                },
                                Parsed::Value(_) => error(
                                    "Should not be reached, parse_object_items returned something other than a hashmap",
                                ),
                                _ => next_json_object,
                            }
                        },
                        _ => error("Should not be reached, parse_object_item did not return a map"),
                    }
                },
                _ => Parsed::Value(json_map),
            }
        },
        _ => json_object,
    }
}

fn parse_object_item(lexemes: &Vec<Lexeme>, i: &mut usize) -> (r: Parsed)
    requires
        *old(i) <= lexemes@.len(),
    ensures
        parsed_view(r) == parse_object_item_at(lx_of(lexemes@), *old(i) as int).0,
        !(r is Aborts) ==> *final(i) == *old(i) + parse_object_item_at(lx_of(lexemes@), *old(i) as int).1
            && *final(i) <= lexemes@.len(),
    decreases lexemes@.len() - *old(i), 3int,
{
    if *i >= lexemes.len() {
        return Parsed::Aborts;
    }
    match &lexemes[*i] {
        Lexeme::String(key) => {
            *i += 1;
            if *i >= lexemes.len() {
                return Parsed::Aborts;
            }
            match lexemes[*i] {
                Lexeme::Colon => {
                    *i += 1;
                    let next_val = parse_value(lexemes, i);
                    match next_val {
                        Parsed::Value(value) => {
                            let mut map: Vec<(String, JSONtype)> = Vec::new();
                            map.push((key.clone(), value));
                            proof {
                                crate::json_type::lemma_json_members_view(map@);
                                assert(json_members_view(map@) =~= seq![(map@[0].0@, map@[0].1@)]);
                            }
                            Parsed::Value(JSONtype::Object(map))
                        },
                        _ => next_val,
                    }
                },
                _ => error("Expected colon"),
            }
        },
        _ => error("Expected string"),
    }
}

/// The outcome that a run of the parser stands for: `None` for a text on
/// which it cannot finish.
pub open spec fn parse_outcome(r: Option<ParseOutput>) -> ParseJsonResult {
    match r {
        Some(o) => o@,
        None => ParseJsonResult::Aborts,
    }
}

/// Lexes and parses the characters `cs`.
fn parse_chars(cs: &Vec<char>) -> (r: Option<ParseOutput>)
    ensures
        parse_outcome(r) == spec_parse_json(cs@),
{
    let lexemes = match crate::json_lexer::lex_chars(cs) {
        Some(LexOutput::Lexemes(lexemes)) => lexemes,
        Some(_) => {
            return Some(ParseOutput::LexError);
        },
        None => {
            return None;
        },
    };
    let mut i: usize = 0;
    let out = parse_value(&lexemes, &mut i);
    if let Parsed::Aborts = out {
        return None;
    }
    if i != lexemes.len() {
        Some(ParseOutput::ParseError(String::from_str("Unused lexemes left over")))
    } else {
        match out {
            Parsed::Value(json) => Some(ParseOutput::JSONtype(json)),
            Parsed::Error(msg) => Some(ParseOutput::ParseError(msg)),
            Parsed::Aborts => None,
        }
    }
}

/// Parses a JSON text.
///
/// The text is split into lexemes, which must form exactly one value: a
/// lexing error gives `LexError`, lexemes left over after the value give
/// `ParseError("Unused lexemes left over")`, and a malformed value gives a
/// `ParseError` that says what was expected. A comma may stand after the last
/// item of a list or the last member of an object. Of an object with two
/// members of the same key, the first is kept.
pub fn parse_json(json_string: String) -> (out: ParseOutput)
    requires
        !(spec_parse_json(json_string@) is Aborts),
    ensures
        out@ == spec_parse_json(json_string@),
        out@ matches ParseJsonResult::Json(v) ==> well_formed(v),
{
    proof {
        law_parsed_values_are_well_formed(json_string@);
    }
    let cs = crate::text::chars_of(json_string.as_str());
    match parse_chars(&cs) {
        Some(out) => out,
        None => {
            proof { assert(false); }
            ParseOutput::LexError
        },
    }
}

/// Whether `parse_json` cannot finish on this text (see `spec_parse_json`):
/// the condition that callers of `parse_json` must rule out.
pub fn parse_json_aborts(json_string: &String) -> (r: bool)
    ensures
        r == (spec_parse_json(json_string@) is Aborts),
{
    let cs = crate::text::chars_of(json_string.as_str());
    match parse_chars(&cs) {
        Some(_) => false,
        None => true,
    }
}

/// The items of a list parse, when they parse, as a list; the members of an
/// object, one or several, as an object.
pub proof fn law_items_parse_as_collections(lx: Seq<LexemeV>, j: int)
    ensures
        parse_list_items_at(lx, j).0 matches ParseStep::Value(v) ==> v is List,
        parse_object_items_at(lx, j).0 matches ParseStep::Value(v) ==> v is Object,
        parse_object_item_at(lx, j).0 matches ParseStep::Value(v) ==> v is Object,
{
}

/// A parse that ends in an error stops on a lexeme: before the last one has
/// been passed. `rank` picks the parse function, in an order that calls at
/// the same index go down: 1 a list, 2 an object, 3 a value, 4 list items,
/// 5 an object member, 6 object members.
proof fn lemma_error_before_end(lx: Seq<LexemeV>, i: int, rank: int)
    requires
        0 <= i,
        1 <= rank <= 6,
    ensures
        rank == 3 ==> (parse_value_at(lx, i).0 is Error ==> i + parse_value_at(lx, i).1 < lx.len()),
        rank == 1 ==> (parse_list_at(lx, i).0 is Error ==> i + parse_list_at(lx, i).1 < lx.len()),
        rank == 4 ==> (parse_list_items_at(lx, i).0 is Error ==> i + parse_list_items_at(lx, i).1
            < lx.len()),
        rank == 2 ==> (parse_object_at(lx, i).0 is Error ==> i + parse_object_at(lx, i).1 < lx.len()),
        rank == 6 ==> (parse_object_items_at(lx, i).0 is Error ==> i + parse_object_items_at(lx, i).1
            < lx.len()),
        rank == 5 ==> (parse_object_item_at(lx, i).0 is Error ==> i + parse_object_item_at(lx, i).1
            < lx.len()),
    decreases lx.len() - i, rank,
{
    if i < lx.len() {
        if rank == 3 {
            if lx[i] is OpenBracket {
                lemma_error_before_end(lx, i, 1);
            } else if lx[i] is OpenBrace {
                lemma_error_before_end(lx, i, 2);
            }
        } else if rank == 1 {
            if lx[i] is OpenBracket && i + 1 < lx.len() {
                lemma_error_before_end(lx, i + 1, 4);
            }
        } else if rank == 4 {
            lemma_error_before_end(lx, i, 3);
            let (r, n) = parse_value_at(lx, i);
            let k = i + n;
            if r is Value && k < lx.len() && lx[k] is Comma {
                lemma_error_before_end(lx, k + 1, 4);
                law_items_parse_as_collections(lx, k + 1);
            }
        } else if rank == 2 {
            if lx[i] is OpenBrace && i + 1 < lx.len() {
                lemma_error_before_end(lx, i + 1, 6);
            }
        } else if rank == 6 {
            lemma_error_before_end(lx, i, 5);
            law_items_parse_as_collections(lx, i);
            let (r, n) = parse_object_item_at(lx, i);
            let k = i + n;
            if r is Value && k < lx.len() && lx[k] is Comma {
                lemma_error_before_end(lx, k + 1, 6);
                law_items_parse_as_collections(lx, k + 1);
            }
        } else {
            if lx[i] is String && i + 1 < lx.len() && lx[i + 1] is Colon {
                lemma_error_before_end(lx, i + 2, 3);
            }
        }
    }
}

/// A text that lexes but whose lexemes do not form exactly one value always
/// gets the message "Unused lexemes left over": an error is met on a lexeme,
/// which is then left unused.
pub proof fn law_parse_errors_leave_lexemes(cs: Seq<char>)
    ensures
        spec_parse_json(cs) matches ParseJsonResult::ParseError(m) ==> m
            == "Unused lexemes left over"@,
{
    if let LexResult::Lexemes(lx) = crate::json_lexer::spec_lex(cs) {
        lemma_error_before_end(lx, 0, 3);
    }
}


/// What is left of `ms` without key `key` has no member of that key, keeps
/// only members of `ms`, and holds each key once when `ms` does.
proof fn lemma_without_key(ms: Seq<(Seq<char>, JsonValue)>, key: Seq<char>)
    ensures
        forall|a: int|
            0 <= a < without_key(ms, key).len() ==> (#[trigger] without_key(ms, key)[a]).0 != key
                && ms.contains(without_key(ms, key)[a]),
        distinct_keys(ms) ==> distinct_keys(without_key(ms, key)),
    decreases ms.len(),
{
    if ms.len() > 0 {
        let dl = ms.drop_last();
        lemma_without_key(dl, key);
        let r0 = without_key(dl, key);
        assert forall|a: int| 0 <= a < r0.len() implies ms.contains(#[trigger] r0[a]) by {
            let b = choose|b: int| 0 <= b < dl.len() && dl[b] == r0[a];
            assert(ms[b] == dl[b]);
        }
        if ms.last().0 != key {
            let r = r0.push(ms.last());
            assert(ms[ms.len() - 1] == ms.last());
            assert forall|a: int| 0 <= a < r.len() implies (#[trigger] r[a]).0 != key && ms.contains(
                r[a],
            ) by {
                if a < r0.len() {
                    assert(r[a] == r0[a]);
                }
            }
            if distinct_keys(ms) {
                assert(distinct_keys(dl)) by {
                    assert forall|a: int, b: int| 0 <= a < b < dl.len() implies #[trigger] dl[a].0
                        != #[trigger] dl[b].0 by {
                        assert(dl[a] == ms[a] && dl[b] == ms[b]);
                    }
                }
                assert forall|a: int, b: int| 0 <= a < b < r.len() implies #[trigger] r[a].0
                    != #[trigger] r[b].0 by {
                    if b < r0.len() {
                        assert(r[a] == r0[a] && r[b] == r0[b]);
                    } else {
                        assert(r[a] == r0[a]);
                        let c = choose|c: int| 0 <= c < dl.len() && dl[c] == r0[a];
                        assert(ms[c] == dl[c]);
                        assert(ms[ms.len() - 1] == r[b]);
                    }
                }
            }
        } else {
            if distinct_keys(ms) {
                assert forall|a: int, b: int| 0 <= a < b < dl.len() implies #[trigger] dl[a].0
                    != #[trigger] dl[b].0 by {
                    assert(dl[a] == ms[a] && dl[b] == ms[b]);
                }
            }
        }
    }
}

/// Values that parsing gives are well formed, when the decimal texts among
/// the lexemes are. `rank` picks the parse function as in
/// `lemma_error_before_end`.
proof fn lemma_parsed_well_formed(lx: Seq<LexemeV>, i: int, rank: int)
    requires
        0 <= i,
        1 <= rank <= 6,
        crate::json_lexer::lexed_floats_ok(lx),
    ensures
        rank == 3 ==> (parse_value_at(lx, i).0 matches ParseStep::Value(v) ==> well_formed(v)),
        rank == 1 ==> (parse_list_at(lx, i).0 matches ParseStep::Value(v) ==> well_formed(v)),
        rank == 4 ==> (parse_list_items_at(lx, i).0 matches ParseStep::Value(v) ==> well_formed(v)),
        rank == 2 ==> (parse_object_at(lx, i).0 matches ParseStep::Value(v) ==> well_formed(v)),
        rank == 6 ==> (parse_object_items_at(lx, i).0 matches ParseStep::Value(v) ==> well_formed(v)),
        rank == 5 ==> (parse_object_item_at(lx, i).0 matches ParseStep::Value(v) ==> well_formed(v)),
    decreases lx.len() - i, rank,
{
    if i < lx.len() {
        if rank == 3 {
            if lx[i] is OpenBracket {
                lemma_parsed_well_formed(lx, i, 1);
            } else if lx[i] is OpenBrace {
                lemma_parsed_well_formed(lx, i, 2);
            }
        } else if rank == 1 {
            if lx[i] is OpenBracket && i + 1 < lx.len() {
                lemma_parsed_well_formed(lx, i + 1, 4);
            }
        } else if rank == 4 {
            lemma_parsed_well_formed(lx, i, 3);
            let (r, n) = parse_value_at(lx, i);
            let k = i + n;
            if let ParseStep::Value(v) = r {
                if k < lx.len() && lx[k] is Comma {
                    lemma_parsed_well_formed(lx, k + 1, 4);
                    if let ParseStep::Value(JsonValue::List(rest)) = parse_list_items_at(lx, k + 1).0 {
                        let all = seq![v] + rest;
                        assert forall|m: int| 0 <= m < all.len() implies well_formed(#[trigger] all[m]) by {
                            if m > 0 {
                                assert(all[m] == rest[m - 1]);
                            }
                        }
                    }
                } else {
                    assert(seq![v][0] == v);
                }
            }
        } else if rank == 2 {
            if lx[i] is OpenBrace && i + 1 < lx.len() {
                lemma_parsed_well_formed(lx, i + 1, 6);
            }
        } else if rank == 6 {
            lemma_parsed_well_formed(lx, i, 5);
            let (r, n) = parse_object_item_at(lx, i);
            let k = i + n;
            if let ParseStep::Value(JsonValue::Object(m)) = r {
                if k < lx.len() && lx[k] is Comma {
                    lemma_parsed_well_formed(lx, k + 1, 6);
                    if let ParseStep::Value(JsonValue::Object(rest)) = parse_object_items_at(lx, k + 1).0 {
                        let key = m[0].0;
                        let v = m[0].1;
                        assert(m == seq![(key, v)]);
                        assert(m.drop_last() =~= Seq::<(Seq<char>, JsonValue)>::empty());
                        assert(merge_members(m.drop_last(), rest) == rest);
                        lemma_without_key(rest, key);
                        let w = without_key(rest, key);
                        let all = seq![(key, v)] + w;
                        assert(merge_members(m, rest) == all);
                        assert forall|a: int| 0 <= a < all.len() implies well_formed(#[trigger] all[a].1) by {
                            if a > 0 {
                                assert(all[a] == w[a - 1]);
                                assert(rest.contains(w[a - 1]));
                                let b = choose|b: int| 0 <= b < rest.len() && rest[b] == w[a - 1];
                                assert(well_formed(rest[b].1));
                            } else {
                                assert(well_formed(m[0].1));
                            }
                        }
                        assert forall|a: int, b: int| 0 <= a < b < all.len() implies #[trigger] all[a].0
                            != #[trigger] all[b].0 by {
                            assert(all[b] == w[b - 1]);
                            if a > 0 {
                                assert(all[a] == w[a - 1]);
                            }
                        }
                    }
                }
            }
        } else {
            if lx[i] is String && i + 1 < lx.len() && lx[i + 1] is Colon {
                lemma_parsed_well_formed(lx, i + 2, 3);
            }
        }
    }
}

/// Every value that `parse_json` gives holds each key once in each of its
/// objects, and its decimal texts are decimal texts (`well_formed`).
pub proof fn law_parsed_values_are_well_formed(cs: Seq<char>)
    ensures
        spec_parse_json(cs) matches ParseJsonResult::Json(v) ==> well_formed(v),
{
    crate::json_lexer::lemma_lexed_floats(cs, 0);
    if let LexResult::Lexemes(lx) = crate::json_lexer::spec_lex(cs) {
        assert(crate::json_lexer::lexed_floats_ok(lx));
        lemma_parsed_well_formed(lx, 0, 3);
    }
}

/// A value parsed from index `i` of `lx` lies inside `lx`, and its kind and
/// its last lexeme follow from its first lexeme: a list is what opens with
/// `[`, and it is closed by `]`; an object is what opens with `{`, and it is
/// closed by `}`; every other value is a single lexeme.
pub proof fn law_brackets_match(lx: Seq<LexemeV>, i: int)
    requires
        0 <= i,
        parse_value_at(lx, i).0 is Value,
    ensures
        ({
            let (r, n) = parse_value_at(lx, i);
            let v = r->Value_0;
            &&& i < lx.len()
            &&& 1 <= n
            &&& i + n <= lx.len()
            &&& (v is List <==> lx[i] is OpenBracket)
            &&& (v is Object <==> lx[i] is OpenBrace)
            &&& lx[i] is OpenBracket ==> n >= 2 && lx[i + n - 1] is CloseBracket
            &&& lx[i] is OpenBrace ==> n >= 2 && lx[i + n - 1] is CloseBrace
            &&& !(lx[i] is OpenBracket || lx[i] is OpenBrace) ==> n == 1
        }),
{
    if i < lx.len() {
        if lx[i] is OpenBracket && i + 1 < lx.len() && !(lx[i + 1] is CloseBracket) {
            law_items_parse_as_collections(lx, i + 1);
        }
        if lx[i] is OpenBrace && i + 1 < lx.len() && !(lx[i + 1] is CloseBrace) {
            law_items_parse_as_collections(lx, i + 1);
        }
    }
}

/// A text that parses as a list lexes as lexemes that open with `[` and
/// close with `]`; one that parses as an object, as lexemes that open with
/// `{` and close with `}`.
pub proof fn law_parsed_text_brackets(cs: Seq<char>)
    requires
        spec_parse_json(cs) is Json,
    ensures
        crate::json_lexer::spec_lex(cs) is Lexemes,
        ({
            let lx = crate::json_lexer::spec_lex(cs)->Lexemes_0;
            let v = spec_parse_json(cs)->Json_0;
            &&& lx.len() > 0
            &&& v is List ==> lx[0] is OpenBracket && lx.last() is CloseBracket
            &&& v is Object ==> lx[0] is OpenBrace && lx.last() is CloseBrace
        }),
{
    let lx = crate::json_lexer::spec_lex(cs)->Lexemes_0;
    law_brackets_match(lx, 0);
}

} // verus!
