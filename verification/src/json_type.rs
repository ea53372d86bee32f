//! The JSON value type and its mathematical model.

use vstd::prelude::*;
use crate::text::is_digit;

verus! {

/// The mathematical model of a JSON value.
///
/// A number with a fractional part is kept as the text it was written with;
/// an object is the sequence of its members, each key appearing in the order
/// in which the members were first met.
pub enum JsonValue {
    Bool(bool),
    Str(Seq<char>),
    Int(int),
    Float(Seq<char>),
    List(Seq<JsonValue>),
    Object(Seq<(Seq<char>, JsonValue)>),
    Null,
}

/// Whether `t` is the text of a number with a decimal point that the lexer
/// reads as a whole when some character other than a digit or a `.` follows
/// it: a digit other than `0` or a minus sign, then digits with exactly one
/// `.`, and at least one digit.
pub open spec fn decimal_text(t: Seq<char>) -> bool {
    &&& t.len() >= 2
    &&& ('1' <= t[0] && t[0] <= '9') || t[0] == '-'
    &&& crate::json_lexer::has_digit(t)
    &&& exists|p: int|
        #![trigger t[p]]
        1 <= p < t.len() && t[p] == '.' && forall|k: int|
            1 <= k < t.len() && k != p ==> is_digit(#[trigger] t[k])
}

/// Whether all keys of `ms` differ.
pub open spec fn distinct_keys(ms: Seq<(Seq<char>, JsonValue)>) -> bool {
    forall|a: int, b: int| 0 <= a < b < ms.len() ==> #[trigger] ms[a].0 != #[trigger] ms[b].0
}


/// Whether every decimal text in `v` is written as the lexer reads one
/// (`decimal_text`) and every object in `v` holds each key once.
pub open spec fn well_formed(v: JsonValue) -> bool
    decreases v,
{
    match v {
        JsonValue::Float(t) => decimal_text(t),
        JsonValue::List(items) => forall|k: int| 0 <= k < items.len() ==> well_formed(#[trigger] items[k]),
        JsonValue::Object(ms) => distinct_keys(ms) && forall|k: int|
            0 <= k < ms.len() ==> well_formed(#[trigger] ms[k].1),
        _ => true,
    }
}

/// A JSON value.
///
/// `Float` holds the text of a number with a decimal point, as written in the
/// source. `Object` holds the members of an object in order.
#[derive(Debug, PartialEq)]
pub enum JSONtype {
    Bool(bool),
    String(String),
    Int(i64),
    Float(String),
    List(Vec<JSONtype>),
    Object(Vec<(String, JSONtype)>),
    Null,
}

/// The model of a value.
pub open spec fn json_view(j: JSONtype) -> JsonValue
    decreases j,
{
    match j {
        JSONtype::Bool(b) => JsonValue::Bool(b),
        JSONtype::String(s) => JsonValue::Str(s@),
        JSONtype::Int(i) => JsonValue::Int(i as int),
        JSONtype::Float(t) => JsonValue::Float(t@),
        JSONtype::List(items) => JsonValue::List(json_seq_view(items@)),
        JSONtype::Object(members) => JsonValue::Object(json_members_view(members@)),
        JSONtype::Null => JsonValue::Null,
    }
}

/// The models of a sequence of values, element by element.
pub open spec fn json_seq_view(s: Seq<JSONtype>) -> Seq<JsonValue>
    decreases s,
{
    if s.len() == 0 {
        Seq::empty()
    } else {
        json_seq_view(s.drop_last()).push(json_view(s.last()))
    }
}

/// The models of a sequence of members, member by member.
pub open spec fn json_members_view(s: Seq<(String, JSONtype)>) -> Seq<(Seq<char>, JsonValue)>
    decreases s,
{
    if s.len() == 0 {
        Seq::empty()
    } else {
        json_members_view(s.drop_last()).push((s.last().0@, json_view(s.last().1)))
    }
}

impl View for JSONtype {
    type V = JsonValue;

    open spec fn view(&self) -> JsonValue {
        json_view(*self)
    }
}

/// The models of a sequence of values, element by element.
pub proof fn lemma_json_seq_view(s: Seq<JSONtype>)
    ensures
        json_seq_view(s).len() == s.len(),
        forall|k: int| 0 <= k < s.len() ==> #[trigger] json_seq_view(s)[k] == json_view(s[k]),
    decreases s.len(),
{
    if s.len() > 0 {
        lemma_json_seq_view(s.drop_last());
    }
}

/// The models of a sequence of members, member by member.
pub proof fn lemma_json_members_view(s: Seq<(String, JSONtype)>)
    ensures
        json_members_view(s).len() == s.len(),
        forall|k: int|
            0 <= k < s.len() ==> #[trigger] json_members_view(s)[k] == (s[k].0@, json_view(s[k].1)),
    decreases s.len(),
{
    if s.len() > 0 {
        lemma_json_members_view(s.drop_last());
    }
}

} // verus!

verus! {

/// A copy of a value, made member by member and item by item.
pub fn clone_value(j: &JSONtype) -> (r: JSONtype)
    ensures
        r@ == j@,
    decreases j,
{
    match j {
        JSONtype::Bool(b) => JSONtype::Bool(*b),
        JSONtype::String(s) => JSONtype::String(s.clone()),
        JSONtype::Int(i) => JSONtype::Int(*i),
        JSONtype::Float(t) => JSONtype::Float(t.clone()),
        JSONtype::Null => JSONtype::Null,
        JSONtype::List(items) => {
            let mut out: Vec<JSONtype> = Vec::new();
            let mut k: usize = 0;
            proof {
                lemma_json_seq_view(items@);
            }
            while k < items.len()
                invariant
                    0 <= k <= items@.len(),
                    *j == JSONtype::List(*items),
                    out@.len() == k,
                    forall|m: int| 0 <= m < k ==> json_view(#[trigger] out@[m]) == json_view(items@[m]),
                    j@ == JsonValue::List(json_seq_view(items@)),
                decreases items@.len() - k,
            {
                proof {
                    assert(decreases_to!(*j => *items));
                    assert(decreases_to!(*items => items@));
                    assert(decreases_to!(items@ => items@[k as int]));
                }
                let c = clone_value(&items[k]);
                out.push(c);
                k = k + 1;
            }
            proof {
                lemma_json_seq_view(items@);
                lemma_json_seq_view(out@);
                assert(json_seq_view(out@) =~= json_seq_view(items@));
            }
            JSONtype::List(out)
        },
        JSONtype::Object(members) => {
            let mut out: Vec<(String, JSONtype)> = Vec::new();
            let mut k: usize = 0;
            while k < members.len()
                invariant
                    0 <= k <= members@.len(),
                    *j == JSONtype::Object(*members),
                    out@.len() == k,
                    forall|m: int|
                        0 <= m < k ==> (#[trigger] out@[m]).0@ == members@[m].0@ && json_view(
                            out@[m].1,
                        ) == json_view(members@[m].1),
                    j@ == JsonValue::Object(json_members_view(members@)),
                decreases members@.len() - k,
            {
                proof {
                    assert(decreases_to!(*j => *members));
                    assert(decreases_to!(*members => members@));
                    assert(decreases_to!(members@ => members@[k as int]));
                    assert(decreases_to!(members@[k as int] => members@[k as int].1));
                }
                let key = members[k].0.clone();
                let c = clone_value(&members[k].1);
                out.push((key, c));
                k = k + 1;
            }
            proof {
                lemma_json_members_view(members@);
                lemma_json_members_view(out@);
                assert(json_members_view(out@) =~= json_members_view(members@));
            }
            JSONtype::Object(out)
        },
    }
}

impl Clone for JSONtype {
    fn clone(&self) -> (r: Self)
        ensures
            r@ == self@,
    {
        clone_value(self)
    }
}

} // verus!
