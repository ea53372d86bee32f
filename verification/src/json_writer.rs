//! The writer: a JSON value as indented text.

use vstd::prelude::*;
use string_builder::Builder;
use crate::json_type::{JSONtype, JsonValue};
use crate::builder::{builder_new, push_char, push_str, take_string};
use crate::text::{int_text, nat_text, tabs, string_pop};

verus! {

/// `s` without its last two characters, as two `String::pop`s leave it.
pub open spec fn drop_two(s: Seq<char>) -> Seq<char> {
    if s.len() >= 2 {
        s.take(s.len() - 2)
    } else {
        Seq::empty()
    }
}

/// The text of a value written at indentation `ind`: `ind` tabs, then the
/// value. A string is written between quotes as it is; a list or an object
/// opens a line, writes each item (a member: its key in quotes, `:` and a
/// new line, then its value) one level deeper followed by `,` and a new line,
/// then takes back the last `,` and new line and closes on a line of its own;
/// an empty list or object is its opening bracket and a new line, then its
/// closing bracket at the same indentation.
pub open spec fn write_value_text(v: JsonValue, ind: nat) -> Seq<char>
    decreases v,
{
    match v {
        JsonValue::Bool(true) => tabs(ind) + seq!['t', 'r', 'u', 'e'],
        JsonValue::Bool(false) => tabs(ind) + seq!['f', 'a', 'l', 's', 'e'],
        JsonValue::Null => tabs(ind) + seq!['n', 'u', 'l', 'l'],
        JsonValue::Str(s) => tabs(ind) + seq!['"'] + s + seq!['"'],
        JsonValue::Int(i) => tabs(ind) + int_text(i),
        JsonValue::Float(t) => tabs(ind) + t,
        JsonValue::List(items) => if items.len() == 0 {
            tabs(ind) + seq!['[', '\n'] + tabs(ind) + seq![']']
        } else {
            drop_two(tabs(ind) + seq!['[', '\n'] + items_text(items, ind + 1)) + seq!['\n'] + tabs(ind)
                + seq![']']
        },
        JsonValue::Object(ms) => if ms.len() == 0 {
            tabs(ind) + seq!['{', '\n'] + tabs(ind) + seq!['}']
        } else {
            drop_two(tabs(ind) + seq!['{', '\n'] + members_text(ms, ind + 1)) + seq!['\n'] + tabs(ind)
                + seq!['}']
        },
    }
}

/// Each item written at indentation `ind` and followed by `,` and a new line.
pub open spec fn items_text(items: Seq<JsonValue>, ind: nat) -> Seq<char>
    decreases items,
{
    if items.len() == 0 {
        Seq::empty()
    } else {
        items_text(items.drop_last(), ind) + write_value_text(items.last(), ind) + seq![',', '\n']
    }
}

/// Each member written at indentation `ind`: its key in quotes, `:` and a
/// new line, then its value, `,` and a new line.
pub open spec fn members_text(ms: Seq<(Seq<char>, JsonValue)>, ind: nat) -> Seq<char>
    decreases ms,
{
    if ms.len() == 0 {
        Seq::empty()
    } else {
        members_text(ms.drop_last(), ind) + tabs(ind) + seq!['"'] + ms.last().0 + seq!['"', ':', '\n']
            + write_value_text(ms.last().1, ind) + seq![',', '\n']
    }
}

/// How deeply lists and objects nest in a value: 0 for a scalar, one more
/// than the deepest item for a list or an object (1 when it is empty).
pub open spec fn json_depth(v: JsonValue) -> nat
    decreases v,
{
    match v {
        JsonValue::List(items) => 1 + items_depth(items),
        JsonValue::Object(ms) => 1 + members_depth(ms),
        _ => 0,
    }
}

/// The greatest depth of the items.
pub open spec fn items_depth(items: Seq<JsonValue>) -> nat
    decreases items,
{
    if items.len() == 0 {
        0
    } else {
        let a = items_depth(items.drop_last());
        let b = json_depth(items.last());
        if a >= b {
            a
        } else {
            b
        }
    }
}

/// The greatest depth of the members' values.
pub open spec fn members_depth(ms: Seq<(Seq<char>, JsonValue)>) -> nat
    decreases ms,
{
    if ms.len() == 0 {
        0
    } else {
        let a = members_depth(ms.drop_last());
        let b = json_depth(ms.last().1);
        if a >= b {
            a
        } else {
            b
        }
    }
}

proof fn lemma_items_depth(items: Seq<JsonValue>, k: int)
    requires
        0 <= k < items.len(),
    ensures
        json_depth(items[k]) <= items_depth(items),
    decreases items.len(),
{
    if k < items.len() - 1 {
        lemma_items_depth(items.drop_last(), k);
    }
}

proof fn lemma_members_depth(ms: Seq<(Seq<char>, JsonValue)>, k: int)
    requires
        0 <= k < ms.len(),
    ensures
        json_depth(ms[k].1) <= members_depth(ms),
    decreases ms.len(),
{
    if k < ms.len() - 1 {
        lemma_members_depth(ms.drop_last(), k);
    }
}

/// Appends `n` tabs.
fn append_tabs(b: &mut Builder, n: usize, Ghost(t): Ghost<Seq<char>>)
    requires
        crate::builder::builder_bytes(*old(b)) == vstd::utf8::encode_utf8(t),
    ensures
        crate::builder::builder_bytes(*final(b)) == vstd::utf8::encode_utf8(t + tabs(n as nat)),
{
    let mut k: usize = 0;
    assert(t + tabs(0) =~= t);
    while k < n
        invariant
            0 <= k <= n,
            crate::builder::builder_bytes(*b) == vstd::utf8::encode_utf8(t + tabs(k as nat)),
        decreases n - k,
    {
        push_char(b, '\t', Ghost(t + tabs(k as nat)));
        assert((t + tabs(k as nat)).push('\t') =~= t + tabs((k + 1) as nat));
        k = k + 1;
    }
}

/// Appends the decimal notation of `n`.
fn append_nat(b: &mut Builder, n: u64, Ghost(t): Ghost<Seq<char>>)
    requires
        crate::builder::builder_bytes(*old(b)) == vstd::utf8::encode_utf8(t),
    ensures
        crate::builder::builder_bytes(*final(b)) == vstd::utf8::encode_utf8(t + nat_text(n as nat)),
    decreases n,
{
    if n >= 10 {
        append_nat(b, n / 10, Ghost(t));
        let d: u8 = (n % 10) as u8;
        push_char(b, (48u8 + d) as char, Ghost(t + nat_text((n / 10) as nat)));
        assert((t + nat_text((n / 10) as nat)).push((48u8 + d) as char) =~= t + nat_text(n as nat));
    } else {
        let d: u8 = n as u8;
        push_char(b, (48u8 + d) as char, Ghost(t));
        assert(t.push((48u8 + d) as char) =~= t + nat_text(n as nat));
    }
}

/// Appends the decimal notation of `v`.
fn append_int(b: &mut Builder, v: i64, Ghost(t): Ghost<Seq<char>>)
    requires
        crate::builder::builder_bytes(*old(b)) == vstd::utf8::encode_utf8(t),
    ensures
        crate::builder::builder_bytes(*final(b)) == vstd::utf8::encode_utf8(t + int_text(v as int)),
{
    if v < 0 {
        push_char(b, '-', Ghost(t));
        let m: u64 = if v == i64::MIN {
            9223372036854775808u64
        } else {
            (-v) as u64
        };
        append_nat(b, m, Ghost(t.push('-')));
        assert(t.push('-') + nat_text(m as nat) =~= t + int_text(v as int));
    } else {
        append_nat(b, v as u64, Ghost(t));
    }
}

/// Takes back the last two characters of the text in `b`, as two
/// `String::pop`s do, into a fresh builder.
fn pop_two(b: Builder, Ghost(t): Ghost<Seq<char>>) -> (r: Builder)
    requires
        crate::builder::builder_bytes(b) == vstd::utf8::encode_utf8(t),
    ensures
        crate::builder::builder_bytes(r) == vstd::utf8::encode_utf8(drop_two(t)),
{
    let mut s = take_string(b, Ghost(t));
    let _ = string_pop(&mut s);
    let _ = string_pop(&mut s);
    let mut r = builder_new();
    proof {
        assert(vstd::utf8::encode_utf8(Seq::<char>::empty()) == Seq::<u8>::empty());
        if t.len() >= 2 {
            assert(t.drop_last().drop_last() =~= t.take(t.len() - 2));
        } else if t.len() == 1 {
            assert(t.drop_last() =~= Seq::<char>::empty());
        }
    }
    push_str(&mut r, s.as_str(), Ghost(Seq::empty()));
    assert(Seq::<char>::empty() + s@ =~= drop_two(t));
    r
}

/// Writes `json` at indentation `indentation`: the builder holds the bytes of
/// `write_value_text`.
pub fn write_value(json: &JSONtype, indentation: usize) -> (b: Builder)
    requires
        indentation + json_depth(json@) <= usize::MAX,
    ensures
        crate::builder::builder_bytes(b) == vstd::utf8::encode_utf8(write_value_text(json@, indentation as nat)),
    decreases json,
{
    let ghost ind = indentation as nat;
    let mut s_builder = builder_new();
    proof {
        assert(vstd::utf8::encode_utf8(Seq::<char>::empty()) == Seq::<u8>::empty());
    }
    append_tabs(&mut s_builder, indentation, Ghost(Seq::empty()));
    let ghost t0 = Seq::<char>::empty() + tabs(ind);
    assert(t0 =~= tabs(ind));
    match json {
        JSONtype::Bool(true) => {
            proof { reveal_strlit("true"); }
            push_str(&mut s_builder, "true", Ghost(t0));
            assert("true"@ =~= seq!['t', 'r', 'u', 'e']);
        },
        JSONtype::Bool(false) => {
            proof { reveal_strlit("false"); }
            push_str(&mut s_builder, "false", Ghost(t0));
            assert("false"@ =~= seq!['f', 'a', 'l', 's', 'e']);
        },
        JSONtype::Null => {
            proof { reveal_strlit("null"); }
            push_str(&mut s_builder, "null", Ghost(t0));
            assert("null"@ =~= seq!['n', 'u', 'l', 'l']);
        },
        JSONtype::String(s) => {
            push_char(&mut s_builder, '"', Ghost(t0));
            push_str(&mut s_builder, s.as_str(), Ghost(t0.push('"')));
            push_char(&mut s_builder, '"', Ghost(t0.push('"') + s@));
            assert((t0.push('"') + s@).push('"') =~= tabs(ind) + seq!['"'] + s@ + seq!['"']);
        },
        JSONtype::Int(i) => {
            append_int(&mut s_builder, *i, Ghost(t0));
        },
        JSONtype::Float(f) => {
            push_str(&mut s_builder, f.as_str(), Ghost(t0));
        },
        JSONtype::List(jsonvec) => {
            proof { reveal_strlit("[\n"); reveal_strlit(",\n"); }
            push_str(&mut s_builder, "[\n", Ghost(t0));
            let ghost head = t0 + seq!['[', '\n'];
            assert(t0 + "[\n"@ =~= head);
            let ghost items = crate::json_type::json_seq_view(jsonvec@);
            proof {
                crate::json_type::lemma_json_seq_view(jsonvec@);
                assert(items.take(0) =~= Seq::<JsonValue>::empty());
                assert(head + items_text(items.take(0), ind + 1) =~= head);
            }
            let mut k: usize = 0;
            while k < jsonvec.len()
                invariant
                    0 <= k <= jsonvec@.len(),
                    json@ == JsonValue::List(items),
                    *json == JSONtype::List(*jsonvec),
                    ind == indentation as nat,
                    items == crate::json_type::json_seq_view(jsonvec@),
                    items.len() == jsonvec@.len(),
                    forall|m: int| 0 <= m < jsonvec@.len() ==> #[trigger] items[m] == jsonvec@[m]@,
                    indentation + json_depth(json@) <= usize::MAX,
                    crate::builder::builder_bytes(s_builder) == vstd::utf8::encode_utf8(
                        head + items_text(items.take(k as int), ind + 1),
                    ),
                decreases jsonvec@.len() - k,
            {
                let ghost before = head + items_text(items.take(k as int), ind + 1);
                proof {
                    lemma_items_depth(items, k as int);
                }
                proof {
                    assert(decreases_to!(*json => *jsonvec));
                    assert(decreases_to!(*jsonvec => jsonvec@));
                    assert(decreases_to!(jsonvec@ => jsonvec@[k as int]));
                    assert(items[k as int] == jsonvec@[k as int]@);
                }
                let sub = write_value(&jsonvec[k], indentation + 1);
                let text = take_string(sub, Ghost(write_value_text(items[k as int], ind + 1)));
                push_str(&mut s_builder, text.as_str(), Ghost(before));
                push_str(&mut s_builder, ",\n", Ghost(before + text@));
                proof {
                    assert(items.take(k + 1).drop_last() =~= items.take(k as int));
                    assert(items.take(k + 1).last() == items[k as int]);
                    reveal_strlit(",\n");
                    assert(",\n"@ =~= seq![',', '\n']);
                    assert(before + text@ + ",\n"@ =~= head + items_text(items.take(k + 1), ind + 1));
                }
                k = k + 1;
            }
            assert(items.take(k as int) =~= items);
            if jsonvec.len() == 0 {
                assert(head + items_text(items, ind + 1) =~= head);
                append_tabs(&mut s_builder, indentation, Ghost(head));
                push_char(&mut s_builder, ']', Ghost(head + tabs(ind)));
                assert((head + tabs(ind)).push(']') =~= tabs(ind) + seq!['[', '\n'] + tabs(ind) + seq![']']);
                return s_builder;
            }
            let mut b = pop_two(s_builder, Ghost(head + items_text(items, ind + 1)));
            let ghost t1 = drop_two(head + items_text(items, ind + 1));
            push_char(&mut b, '\n', Ghost(t1));
            append_tabs(&mut b, indentation, Ghost(t1.push('\n')));
            push_char(&mut b, ']', Ghost(t1.push('\n') + tabs(ind)));
            assert((t1.push('\n') + tabs(ind)).push(']') =~= t1 + seq!['\n'] + tabs(ind) + seq![']']);
            assert(head =~= tabs(ind) + seq!['[', '\n']);
            return b;
        },
        JSONtype::Object(jsonmap) => {
            proof { reveal_strlit("{\n"); reveal_strlit(",\n"); reveal_strlit("\":\n"); }
            push_str(&mut s_builder, "{\n", Ghost(t0));
            let ghost head = t0 + seq!['{', '\n'];
            assert(t0 + "{\n"@ =~= head);
            let ghost ms = crate::json_type::json_members_view(jsonmap@);
            proof {
                crate::json_type::lemma_json_members_view(jsonmap@);
                assert(ms.take(0) =~= Seq::<(Seq<char>, JsonValue)>::empty());
                assert(head + members_text(ms.take(0), ind + 1) =~= head);
            }
            let mut k: usize = 0;
            while k < jsonmap.len()
                invariant
                    0 <= k <= jsonmap@.len(),
                    json@ == JsonValue::Object(ms),
                    *json == JSONtype::Object(*jsonmap),
                    ind == indentation as nat,
                    ms == crate::json_type::json_members_view(jsonmap@),
                    ms.len() == jsonmap@.len(),
                    forall|m: int|
                        0 <= m < jsonmap@.len() ==> #[trigger] ms[m] == (jsonmap@[m].0@, jsonmap@[m].1@),
                    indentation + json_depth(json@) <= usize::MAX,
                    crate::builder::builder_bytes(s_builder) == vstd::utf8::encode_utf8(
                        head + members_text(ms.take(k as int), ind + 1),
                    ),
                decreases jsonmap@.len() - k,
            {
                let ghost before = head + members_text(ms.take(k as int), ind + 1);
                proof {
                    lemma_members_depth(ms, k as int);
                }
                let (key, jsonvalue) = (&jsonmap[k].0, &jsonmap[k].1);
                append_tabs(&mut s_builder, indentation + 1, Ghost(before));
                let ghost t1 = before + tabs(ind + 1);
                assert(crate::builder::builder_bytes(s_builder) == vstd::utf8::encode_utf8(t1));
                push_char(&mut s_builder, '"', Ghost(t1));
                push_str(&mut s_builder, key.as_str(), Ghost(t1.push('"')));
                push_str(&mut s_builder, "\":\n", Ghost(t1.push('"') + key@));
                let ghost t2 = t1.push('"') + key@ + "\":\n"@;
                proof {
                    assert(decreases_to!(*json => *jsonmap));
                    assert(decreases_to!(*jsonmap => jsonmap@));
                    assert(decreases_to!(jsonmap@ => jsonmap@[k as int]));
                    assert(decreases_to!(jsonmap@[k as int] => jsonmap@[k as int].1));
                    assert(ms[k as int].1 == jsonmap@[k as int].1@);
                }
                let sub = write_value(jsonvalue, indentation + 1);
                let text = take_string(sub, Ghost(write_value_text(ms[k as int].1, ind + 1)));
                push_str(&mut s_builder, text.as_str(), Ghost(t2));
                push_str(&mut s_builder, ",\n", Ghost(t2 + text@));
                proof {
                    assert(ms.take(k + 1).drop_last() =~= ms.take(k as int));
                    assert(ms.take(k + 1).last() == ms[k as int]);
                    reveal_strlit(",\n");
                    reveal_strlit("\":\n");
                    assert(",\n"@ =~= seq![',', '\n']);
                    assert("\":\n"@ =~= seq!['"', ':', '\n']);
                    assert(t2 + text@ + ",\n"@ =~= head + members_text(ms.take(k + 1), ind + 1));
                }
                k = k + 1;
            }
            assert(ms.take(k as int) =~= ms);
            if jsonmap.len() == 0 {
                assert(head + members_text(ms, ind + 1) =~= head);
                append_tabs(&mut s_builder, indentation, Ghost(head));
                push_char(&mut s_builder, '}', Ghost(head + tabs(ind)));
                assert((head + tabs(ind)).push('}') =~= tabs(ind) + seq!['{', '\n'] + tabs(ind) + seq!['}']);
                return s_builder;
            }
            let mut b = pop_two(s_builder, Ghost(head + members_text(ms, ind + 1)));
            let ghost t1 = drop_two(head + members_text(ms, ind + 1));
            push_char(&mut b, '\n', Ghost(t1));
            append_tabs(&mut b, indentation, Ghost(t1.push('\n')));
            push_char(&mut b, '}', Ghost(t1.push('\n') + tabs(ind)));
            assert((t1.push('\n') + tabs(ind)).push('}') =~= t1 + seq!['\n'] + tabs(ind) + seq!['}']);
            assert(head =~= tabs(ind) + seq!['{', '\n']);
            return b;
        },
    }
    s_builder
}

/// Writes a value as text: each list item and each object member on lines of
/// their own, indented by one tab per level of nesting, an empty list or
/// object as its two brackets on two lines (see `write_value_text`).
pub fn write_json(json: JSONtype) -> (out: String)
    requires
        json_depth(json@) <= usize::MAX,
    ensures
        out@ == write_value_text(json@, 0),
{
    let b = write_value(&json, 0);
    take_string(b, Ghost(write_value_text(json@, 0)))
}

} // verus!
