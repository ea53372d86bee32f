//! Reading back what was written: the values that `write_json` writes in a
//! form that `parse_json` reads back as the same value.

use vstd::prelude::*;
use crate::json_type::{JsonValue, decimal_text, distinct_keys};
use crate::json_lexer::{LexemeV, LexResult, LexStep, NumberEnd, lex_from, lex_step, number_end,
    prepend_lexemes, string_end, lemma_prepend_prepend};
use crate::text::{is_digit, tabs};

verus! {

/// Whether the quote written after `s` closes it: no quote of `s` is free of
/// a backslash, and `s` does not end with a backslash that takes the quote.
pub open spec fn string_closes(s: Seq<char>) -> bool {
    string_end(s.push('"'), 0) == Some(s.len() as int)
}

/// Whether `v` is a number whose text ends with its decimal point; the lexer
/// reads it only when a character follows it.
pub open spec fn ends_with_dot(v: JsonValue) -> bool {
    v matches JsonValue::Float(t) && t.len() > 0 && t.last() == '.'
}

/// Whether `v` is written in a form that reads back as `v`: its strings and
/// keys are closed by the quote written after them, its integers are not 0
/// (a number cannot start with `0`), its decimal texts are read as a whole,
/// and no object has a key twice.
pub open spec fn rereadable(v: JsonValue) -> bool
    decreases v,
{
    match v {
        JsonValue::Str(s) => string_closes(s),
        JsonValue::Int(i) => i != 0 && i64::MIN <= i <= i64::MAX,
        JsonValue::Float(t) => decimal_text(t),
        JsonValue::List(items) => items_rereadable(items),
        JsonValue::Object(ms) => members_rereadable(ms) && distinct_keys(ms),
        _ => true,
    }
}

/// Whether every item is `rereadable`.
pub open spec fn items_rereadable(items: Seq<JsonValue>) -> bool
    decreases items,
{
    items.len() == 0 || (items_rereadable(items.drop_last()) && rereadable(items.last()))
}

/// Whether every member has a key closed by its quote and a `rereadable` value.
pub open spec fn members_rereadable(ms: Seq<(Seq<char>, JsonValue)>) -> bool
    decreases ms,
{
    ms.len() == 0 || (members_rereadable(ms.drop_last()) && string_closes(ms.last().0)
        && rereadable(ms.last().1))
}

/// The lexemes of a value.
pub open spec fn tokens_of(v: JsonValue) -> Seq<LexemeV>
    decreases v,
{
    match v {
        JsonValue::Bool(b) => seq![LexemeV::Bool(b)],
        JsonValue::Null => seq![LexemeV::Null],
        JsonValue::Str(s) => seq![LexemeV::String(s)],
        JsonValue::Int(i) => seq![LexemeV::Int(i)],
        JsonValue::Float(t) => seq![LexemeV::Float(t)],
        JsonValue::List(items) => if items.len() == 0 {
            seq![LexemeV::OpenBracket, LexemeV::CloseBracket]
        } else {
            seq![LexemeV::OpenBracket] + items_commas_tokens(items.drop_last()) + tokens_of(
                items.last(),
            ) + seq![LexemeV::CloseBracket]
        },
        JsonValue::Object(ms) => if ms.len() == 0 {
            seq![LexemeV::OpenBrace, LexemeV::CloseBrace]
        } else {
            seq![LexemeV::OpenBrace] + members_commas_tokens(ms.drop_last()) + seq![
                LexemeV::String(ms.last().0),
                LexemeV::Colon,
            ] + tokens_of(ms.last().1) + seq![LexemeV::CloseBrace]
        },
    }
}

/// The lexemes of items, each followed by a comma.
pub open spec fn items_commas_tokens(items: Seq<JsonValue>) -> Seq<LexemeV>
    decreases items,
{
    if items.len() == 0 {
        Seq::empty()
    } else {
        items_commas_tokens(items.drop_last()) + tokens_of(items.last()) + seq![LexemeV::Comma]
    }
}

/// The lexemes of members, each followed by a comma.
pub open spec fn members_commas_tokens(ms: Seq<(Seq<char>, JsonValue)>) -> Seq<LexemeV>
    decreases ms,
{
    if ms.len() == 0 {
        Seq::empty()
    } else {
        members_commas_tokens(ms.drop_last()) + seq![LexemeV::String(ms.last().0), LexemeV::Colon]
            + tokens_of(ms.last().1) + seq![LexemeV::Comma]
    }
}

/// `cs` holds the text `w` from index `i` on.
pub open spec fn text_at(cs: Seq<char>, i: int, w: Seq<char>) -> bool {
    &&& 0 <= i
    &&& i + w.len() <= cs.len()
    &&& cs.subrange(i, i + w.len()) == w
}

/// No number can go on at index `k`: the text ends there, or holds neither a
/// digit nor a `.`.
pub open spec fn boundary_at(cs: Seq<char>, k: int) -> bool {
    k >= cs.len() || !(is_digit(cs[k]) || cs[k] == '.')
}

proof fn lemma_text_at_split(cs: Seq<char>, i: int, a: Seq<char>, b: Seq<char>)
    requires
        text_at(cs, i, a + b),
    ensures
        text_at(cs, i, a),
        text_at(cs, i + a.len(), b),
{
    let w = cs.subrange(i, i + a.len() + b.len());
    assert(w == a + b);
    assert(cs.subrange(i, i + a.len()) =~= w.subrange(0, a.len() as int));
    assert(w.subrange(0, a.len() as int) =~= a);
    assert(cs.subrange(i + a.len(), i + a.len() + b.len()) =~= w.subrange(
        a.len() as int,
        w.len() as int,
    ));
    assert(w.subrange(a.len() as int, w.len() as int) =~= b);
}

proof fn lemma_text_at_index(cs: Seq<char>, i: int, w: Seq<char>, k: int)
    requires
        text_at(cs, i, w),
        0 <= k < w.len(),
    ensures
        cs[i + k] == w[k],
{
    assert(cs.subrange(i, i + w.len())[k] == cs[i + k]);
}

proof fn lemma_lex_tabs(cs: Seq<char>, i: int, n: nat)
    requires
        text_at(cs, i, tabs(n)),
    ensures
        lex_from(cs, i) == lex_from(cs, i + n),
    decreases n,
{
    if n > 0 {
        assert(tabs(n) =~= seq!['\t'] + tabs((n - 1) as nat));
        lemma_text_at_split(cs, i, seq!['\t'], tabs((n - 1) as nat));
        lemma_text_at_index(cs, i, seq!['\t'], 0);
        lemma_lex_tabs(cs, i + 1, (n - 1) as nat);
    }
}

/// One step of lexing at `i`.
proof fn lemma_lex_one(cs: Seq<char>, i: int)
    requires
        0 <= i < cs.len(),
    ensures
        lex_step(cs, i) is Skip ==> lex_from(cs, i) == lex_from(cs, i + 1),
        lex_step(cs, i) matches LexStep::Token(t, j) ==> lex_from(cs, i) == prepend_lexemes(
            seq![t],
            lex_from(cs, j),
        ),
{
}

/// A single character `c` at `i`, which lexes as `ts` (white space as no
/// lexeme, punctuation as one).
proof fn lemma_lex_char(cs: Seq<char>, i: int, c: char, ts: Seq<LexemeV>)
    requires
        text_at(cs, i, seq![c]),
        (c == '\n' && ts == Seq::<LexemeV>::empty()) || (c == '[' && ts == seq![LexemeV::OpenBracket])
            || (c == ']' && ts == seq![LexemeV::CloseBracket]) || (c == '{' && ts
            == seq![LexemeV::OpenBrace]) || (c == '}' && ts == seq![LexemeV::CloseBrace]) || (c
            == ':' && ts == seq![LexemeV::Colon]) || (c == ',' && ts == seq![LexemeV::Comma]),
    ensures
        lex_from(cs, i) == prepend_lexemes(ts, lex_from(cs, i + 1)),
{
    lemma_text_at_index(cs, i, seq![c], 0);
    lemma_lex_one(cs, i);
    if c == '\n' {
        let r = lex_from(cs, i + 1);
        if let LexResult::Lexemes(rest) = r {
            assert(Seq::<LexemeV>::empty() + rest =~= rest);
        }
    }
}

proof fn lemma_string_end_embed(x: Seq<char>, cs: Seq<char>, off: int, j: int)
    requires
        text_at(cs, off, x),
        0 <= j,
        string_end(x, j) is Some,
    ensures
        string_end(cs, off + j) == Some(off + string_end(x, j)->0),
    decreases x.len() - j,
{
    lemma_text_at_index(cs, off, x, j);
    if x[j] == '\\' {
        lemma_string_end_embed(x, cs, off, j + 2);
    } else if x[j] != '"' {
        lemma_string_end_embed(x, cs, off, j + 1);
    }
}

/// A string `"s"` at `i`, where the second quote closes `s`.
proof fn lemma_lex_string(cs: Seq<char>, i: int, s: Seq<char>)
    requires
        text_at(cs, i, seq!['"'] + s + seq!['"']),
        string_closes(s),
    ensures
        lex_from(cs, i) == prepend_lexemes(seq![LexemeV::String(s)], lex_from(cs, i + s.len() + 2)),
{
    assert(seq!['"'] + s + seq!['"'] =~= seq!['"'] + s.push('"'));
    lemma_text_at_split(cs, i, seq!['"'], s.push('"'));
    lemma_text_at_index(cs, i, seq!['"'], 0);
    lemma_string_end_embed(s.push('"'), cs, i + 1, 0);
    assert(s.push('"') =~= s + seq!['"']);
    lemma_text_at_split(cs, i + 1, s, seq!['"']);
    lemma_lex_one(cs, i);
}

/// A keyword at `i`.
proof fn lemma_lex_word(cs: Seq<char>, i: int, w: Seq<char>, l: LexemeV)
    requires
        text_at(cs, i, w),
        (w == seq!['t', 'r', 'u', 'e'] && l == LexemeV::Bool(true)) || (w == seq![
            'f',
            'a',
            'l',
            's',
            'e',
        ] && l == LexemeV::Bool(false)) || (w == seq!['n', 'u', 'l', 'l'] && l == LexemeV::Null),
    ensures
        lex_from(cs, i) == prepend_lexemes(seq![l], lex_from(cs, i + w.len())),
{
    lemma_text_at_index(cs, i, w, 0);
    lemma_lex_one(cs, i);
}

proof fn lemma_number_end_digits(x: Seq<char>, j: int, dot: bool)
    requires
        0 <= j <= x.len(),
        forall|k: int| j <= k < x.len() ==> is_digit(#[trigger] x[k]),
    ensures
        number_end(x, j, dot) == NumberEnd::End(x.len() as int, dot),
    decreases x.len() - j,
{
    if j < x.len() {
        lemma_number_end_digits(x, j + 1, dot);
    }
}

proof fn lemma_number_end_embed(x: Seq<char>, cs: Seq<char>, off: int, j: int, dot: bool)
    requires
        text_at(cs, off, x),
        boundary_at(cs, off + x.len()),
        0 <= j <= x.len(),
        number_end(x, j, dot) is End,
        number_end(x, j, dot)->End_0 == x.len(),
    ensures
        number_end(cs, off + j, dot) == NumberEnd::End(off + x.len(), number_end(x, j, dot)->End_1),
    decreases x.len() - j,
{
    if j < x.len() {
        lemma_text_at_index(cs, off, x, j);
        if x[j] == '.' {
            lemma_text_at_index(cs, off, x, j + 1);
            lemma_number_end_embed(x, cs, off, j + 2, true);
        } else {
            lemma_number_end_embed(x, cs, off, j + 1, dot);
        }
    }
}

/// The decimal notation of a non-zero integer at `i`, with no digit or `.`
/// after it.
proof fn lemma_lex_int(cs: Seq<char>, i: int, v: int)
    requires
        v != 0,
        i64::MIN <= v <= i64::MAX,
        text_at(cs, i, crate::text::int_text(v)),
        boundary_at(cs, i + crate::text::int_text(v).len()),
    ensures
        lex_from(cs, i) == prepend_lexemes(
            seq![LexemeV::Int(v)],
            lex_from(cs, i + crate::text::int_text(v).len()),
        ),
{
    let x = crate::text::int_text(v);
    if v < 0 {
        crate::text::lemma_nat_text((-v) as nat);
        let d = crate::text::nat_text((-v) as nat);
        assert(x.drop_first() =~= d);
        assert forall|k: int| 1 <= k < x.len() implies is_digit(#[trigger] x[k]) by {
            assert(x[k] == d[k - 1]);
        }
    } else {
        crate::text::lemma_nat_text(v as nat);
    }
    lemma_number_end_digits(x, 1, false);
    lemma_number_end_embed(x, cs, i, 1, false);
    lemma_text_at_index(cs, i, x, 0);
    assert(cs.subrange(i, i + x.len()) == x);
    lemma_lex_one(cs, i);
}

/// A decimal text at `i`, with no digit or `.` after it, and some character
/// after it when it ends with its decimal point.
proof fn lemma_lex_decimal(cs: Seq<char>, i: int, t: Seq<char>)
    requires
        decimal_text(t),
        text_at(cs, i, t),
        boundary_at(cs, i + t.len()),
        t.last() == '.' ==> i + t.len() < cs.len(),
    ensures
        lex_from(cs, i) == prepend_lexemes(seq![LexemeV::Float(t)], lex_from(cs, i + t.len())),
{
    let p = choose|p: int|
        #![trigger t[p]]
        1 <= p < t.len() && t[p] == '.' && forall|k: int|
            1 <= k < t.len() && k != p ==> is_digit(#[trigger] t[k]);
    lemma_text_at_index(cs, i, t, 0);
    assert(cs.subrange(i, i + t.len()) == t);
    if p < t.len() - 1 {
        lemma_number_end_digits(t, p + 2, true);
        lemma_number_end_digits_to(t, 1, p, false);
        assert(is_digit(t[p + 1]));
        assert(number_end(t, p, false) == number_end(t, p + 2, true));
        lemma_number_end_embed(t, cs, i, 1, false);
    } else {
        assert forall|k: int| i + 1 <= k < i + p implies is_digit(#[trigger] cs[k]) by {
            lemma_text_at_index(cs, i, t, k - i);
        }
        lemma_number_end_digits_to(cs, i + 1, i + p, false);
        lemma_text_at_index(cs, i, t, p);
        assert(number_end(cs, i + p, false) == NumberEnd::End(i + t.len(), true));
    }
    lemma_lex_one(cs, i);
}

/// Digits from `j` to `p` are passed over.
proof fn lemma_number_end_digits_to(x: Seq<char>, j: int, p: int, dot: bool)
    requires
        0 <= j <= p <= x.len(),
        forall|k: int| j <= k < p ==> is_digit(#[trigger] x[k]),
    ensures
        number_end(x, j, dot) == number_end(x, p, dot),
    decreases p - j,
{
    if j < p {
        lemma_number_end_digits_to(x, j + 1, p, dot);
    }
}

proof fn lemma_prepend_empty(r: LexResult)
    ensures
        prepend_lexemes(Seq::empty(), r) == r,
{
    if let LexResult::Lexemes(rest) = r {
        assert(Seq::<LexemeV>::empty() + rest =~= rest);
    }
}

/// The written text of a value lexes as its lexemes.
proof fn lemma_lex_value(v: JsonValue, ind: nat, cs: Seq<char>, i: int)
    requires
        rereadable(v),
        text_at(cs, i, crate::json_writer::write_value_text(v, ind)),
        boundary_at(cs, i + crate::json_writer::write_value_text(v, ind).len()),
        ends_with_dot(v) ==> i + crate::json_writer::write_value_text(v, ind).len() < cs.len(),
    ensures
        lex_from(cs, i) == prepend_lexemes(
            tokens_of(v),
            lex_from(cs, i + crate::json_writer::write_value_text(v, ind).len()),
        ),
    decreases v, 0nat,
{
    let w = crate::json_writer::write_value_text(v, ind);
    let end = i + w.len();
    match v {
        JsonValue::Bool(b) => {
            let word = if b {
                seq!['t', 'r', 'u', 'e']
            } else {
                seq!['f', 'a', 'l', 's', 'e']
            };
            lemma_text_at_split(cs, i, tabs(ind), word);
            lemma_lex_tabs(cs, i, ind);
            lemma_lex_word(cs, i + ind, word, LexemeV::Bool(b));
        },
        JsonValue::Null => {
            let word = seq!['n', 'u', 'l', 'l'];
            lemma_text_at_split(cs, i, tabs(ind), word);
            lemma_lex_tabs(cs, i, ind);
            lemma_lex_word(cs, i + ind, word, LexemeV::Null);
        },
        JsonValue::Str(s) => {
            assert(w =~= tabs(ind) + (seq!['"'] + s + seq!['"']));
            lemma_text_at_split(cs, i, tabs(ind), seq!['"'] + s + seq!['"']);
            lemma_lex_tabs(cs, i, ind);
            lemma_lex_string(cs, i + ind, s);
        },
        JsonValue::Int(n) => {
            lemma_text_at_split(cs, i, tabs(ind), crate::text::int_text(n));
            lemma_lex_tabs(cs, i, ind);
            lemma_lex_int(cs, i + ind, n);
        },
        JsonValue::Float(t) => {
            lemma_text_at_split(cs, i, tabs(ind), t);
            lemma_lex_tabs(cs, i, ind);
            lemma_lex_decimal(cs, i + ind, t);
        },
        JsonValue::List(items) => {
            if items.len() == 0 {
                lemma_lex_empty_block(ind, cs, i, '[', ']', LexemeV::OpenBracket, LexemeV::CloseBracket);
                assert(w =~= tabs(ind) + seq!['[', '\n'] + tabs(ind) + seq![']']);
            } else {
                lemma_lex_list(items, ind, cs, i);
            }
        },
        JsonValue::Object(ms) => {
            if ms.len() == 0 {
                lemma_lex_empty_block(ind, cs, i, '{', '}', LexemeV::OpenBrace, LexemeV::CloseBrace);
                assert(w =~= tabs(ind) + seq!['{', '\n'] + tabs(ind) + seq!['}']);
            } else {
                lemma_lex_object(ms, ind, cs, i);
            }
        },
    }
}

/// The written text of an empty list or object lexes as its two brackets.
proof fn lemma_lex_empty_block(
    ind: nat,
    cs: Seq<char>,
    i: int,
    open: char,
    close: char,
    lo: LexemeV,
    lc: LexemeV,
)
    requires
        (open == '[' && lo == LexemeV::OpenBracket) || (open == '{' && lo == LexemeV::OpenBrace),
        (close == ']' && lc == LexemeV::CloseBracket) || (close == '}' && lc == LexemeV::CloseBrace),
        text_at(cs, i, tabs(ind) + seq![open, '\n'] + tabs(ind) + seq![close]),
    ensures
        lex_from(cs, i) == prepend_lexemes(
            seq![lo, lc],
            lex_from(cs, i + (tabs(ind) + seq![open, '\n'] + tabs(ind) + seq![close]).len()),
        ),
{
    let w = tabs(ind) + seq![open, '\n'] + tabs(ind) + seq![close];
    assert(w =~= tabs(ind) + (seq![open] + (seq!['\n'] + (tabs(ind) + seq![close]))));
    let i1 = i + ind;
    let i2 = i1 + 1;
    let i3 = i2 + 1;
    let i4 = i3 + ind;
    lemma_text_at_split(cs, i, tabs(ind), seq![open] + (seq!['\n'] + (tabs(ind) + seq![close])));
    lemma_text_at_split(cs, i1, seq![open], seq!['\n'] + (tabs(ind) + seq![close]));
    lemma_text_at_split(cs, i2, seq!['\n'], tabs(ind) + seq![close]);
    lemma_text_at_split(cs, i3, tabs(ind), seq![close]);
    lemma_lex_tabs(cs, i, ind);
    lemma_lex_char(cs, i1, open, seq![lo]);
    lemma_lex_char(cs, i2, '\n', Seq::empty());
    lemma_lex_tabs(cs, i3, ind);
    lemma_lex_char(cs, i4, close, seq![lc]);
    lemma_prepend_empty(lex_from(cs, i3));
    let r = lex_from(cs, i + w.len());
    lemma_prepend_prepend(seq![lo], seq![lc], r);
    assert(seq![lo] + seq![lc] =~= seq![lo, lc]);
}

pub proof fn lemma_list_text_shape(items: Seq<JsonValue>, ind: nat)
    requires
        items.len() > 0,
    ensures
        crate::json_writer::write_value_text(JsonValue::List(items), ind) == tabs(ind) + (seq!['[']
            + (seq!['\n'] + (crate::json_writer::items_text(items.drop_last(), ind + 1) + (
        crate::json_writer::write_value_text(items.last(), ind + 1) + (seq!['\n'] + (tabs(ind)
            + seq![']'])))))),
{
    let k = ind + 1;
    let a = crate::json_writer::items_text(items.drop_last(), k);
    let b = crate::json_writer::write_value_text(items.last(), k);
    let head = tabs(ind) + seq!['[', '\n'];
    assert(crate::json_writer::items_text(items, k) == a + b + seq![',', '\n']);
    assert(crate::json_writer::drop_two(head + (a + b + seq![',', '\n'])) =~= head + a + b);
    assert(crate::json_writer::write_value_text(JsonValue::List(items), ind) =~= tabs(ind) + (seq![
        '[',
    ] + (seq!['\n'] + (a + (b + (seq!['\n'] + (tabs(ind) + seq![']'])))))));
}

/// The written text of a non-empty list lexes as its lexemes.
#[verifier::spinoff_prover]
#[verifier::rlimit(60)]
proof fn lemma_lex_list(items: Seq<JsonValue>, ind: nat, cs: Seq<char>, i: int)
    requires
        items.len() > 0,
        items_rereadable(items),
        text_at(cs, i, crate::json_writer::write_value_text(JsonValue::List(items), ind)),
    ensures
        lex_from(cs, i) == prepend_lexemes(
            tokens_of(JsonValue::List(items)),
            lex_from(cs, i + crate::json_writer::write_value_text(JsonValue::List(items), ind).len()),
        ),
    decreases items, 0nat,
{
    let v = JsonValue::List(items);
    let w = crate::json_writer::write_value_text(v, ind);
    let end = i + w.len();
    let k = ind + 1;
    let dl = items.drop_last();
    let last = items.last();
    let a = crate::json_writer::items_text(dl, k);
    let b = crate::json_writer::write_value_text(last, k);
    lemma_list_text_shape(items, ind);
    let i1 = i + ind;
    let i2 = i1 + 1;
    let i3 = i2 + 1;
    let i4 = i3 + a.len();
    let i5 = i4 + b.len();
    let i6 = i5 + 1;
    let i7 = i6 + ind;
    lemma_text_at_split(cs, i, tabs(ind), seq!['['] + (seq!['\n'] + (a + (b + (seq!['\n'] + (
    tabs(ind) + seq![']']))))));
    lemma_text_at_split(cs, i1, seq!['['], seq!['\n'] + (a + (b + (seq!['\n'] + (tabs(ind)
        + seq![']'])))));
    lemma_text_at_split(cs, i2, seq!['\n'], a + (b + (seq!['\n'] + (tabs(ind) + seq![']']))));
    lemma_text_at_split(cs, i3, a, b + (seq!['\n'] + (tabs(ind) + seq![']'])));
    lemma_text_at_split(cs, i4, b, seq!['\n'] + (tabs(ind) + seq![']']));
    lemma_text_at_split(cs, i5, seq!['\n'], tabs(ind) + seq![']']);
    lemma_text_at_split(cs, i6, tabs(ind), seq![']']);
    lemma_text_at_index(cs, i5, seq!['\n'], 0);
    lemma_lex_tabs(cs, i, ind);
    lemma_lex_char(cs, i1, '[', seq![LexemeV::OpenBracket]);
    lemma_lex_char(cs, i2, '\n', Seq::empty());
    lemma_lex_items(dl, k, cs, i3);
    lemma_lex_value(last, k, cs, i4);
    lemma_lex_char(cs, i5, '\n', Seq::empty());
    lemma_lex_tabs(cs, i6, ind);
    lemma_lex_char(cs, i7, ']', seq![LexemeV::CloseBracket]);
    lemma_prepend_empty(lex_from(cs, i3));
    lemma_prepend_empty(lex_from(cs, i6));
    let r = lex_from(cs, end);
    lemma_prepend_prepend(tokens_of(last), seq![LexemeV::CloseBracket], r);
    lemma_prepend_prepend(
        items_commas_tokens(dl),
        tokens_of(last) + seq![LexemeV::CloseBracket],
        r,
    );
    lemma_prepend_prepend(
        seq![LexemeV::OpenBracket],
        items_commas_tokens(dl) + (tokens_of(last) + seq![LexemeV::CloseBracket]),
        r,
    );
    assert(tokens_of(v) =~= seq![LexemeV::OpenBracket] + (items_commas_tokens(dl) + (
    tokens_of(last) + seq![LexemeV::CloseBracket])));
}

pub proof fn lemma_object_text_shape(ms: Seq<(Seq<char>, JsonValue)>, ind: nat)
    requires
        ms.len() > 0,
    ensures
        crate::json_writer::write_value_text(JsonValue::Object(ms), ind) == tabs(ind) + (seq!['{']
            + (seq!['\n'] + (crate::json_writer::members_text(ms.drop_last(), ind + 1) + (
        member_core_text(ms.last().0, ms.last().1, ind + 1) + (seq!['\n'] + (tabs(ind) + seq![
            '}',
        ])))))),
{
    let k = ind + 1;
    let a = crate::json_writer::members_text(ms.drop_last(), k);
    let c = member_core_text(ms.last().0, ms.last().1, k);
    let head = tabs(ind) + seq!['{', '\n'];
    assert(crate::json_writer::members_text(ms, k) =~= a + c + seq![',', '\n']);
    assert(crate::json_writer::drop_two(head + (a + c + seq![',', '\n'])) =~= head + a + c);
    assert(crate::json_writer::write_value_text(JsonValue::Object(ms), ind) =~= tabs(ind) + (seq![
        '{',
    ] + (seq!['\n'] + (a + (c + (seq!['\n'] + (tabs(ind) + seq!['}'])))))));
}

/// The text of a member without the comma after it.
pub open spec fn member_core_text(key: Seq<char>, val: JsonValue, k: nat) -> Seq<char> {
    tabs(k) + seq!['"'] + key + seq!['"', ':', '\n'] + crate::json_writer::write_value_text(val, k)
}

/// The text of a member, without the comma after it, lexes as its key, a
/// colon and the lexemes of its value.
proof fn lemma_lex_member(key: Seq<char>, val: JsonValue, k: nat, cs: Seq<char>, i: int)
    requires
        string_closes(key),
        rereadable(val),
        text_at(cs, i, member_core_text(key, val, k)),
        boundary_at(cs, i + member_core_text(key, val, k).len()),
        i + member_core_text(key, val, k).len() < cs.len(),
    ensures
        lex_from(cs, i) == prepend_lexemes(
            seq![LexemeV::String(key), LexemeV::Colon] + tokens_of(val),
            lex_from(cs, i + member_core_text(key, val, k).len()),
        ),
    decreases val, 1nat,
{
    let b = crate::json_writer::write_value_text(val, k);
    let q = seq!['"'] + key + seq!['"'];
    assert(member_core_text(key, val, k) =~= tabs(k) + (q + (seq![':'] + (seq!['\n'] + b))));
    let i2 = i + k;
    let i3 = i2 + q.len();
    let i4 = i3 + 1;
    let i5 = i4 + 1;
    lemma_text_at_split(cs, i, tabs(k), q + (seq![':'] + (seq!['\n'] + b)));
    lemma_text_at_split(cs, i2, q, seq![':'] + (seq!['\n'] + b));
    lemma_text_at_split(cs, i3, seq![':'], seq!['\n'] + b);
    lemma_text_at_split(cs, i4, seq!['\n'], b);
    lemma_lex_tabs(cs, i, k);
    lemma_lex_string(cs, i2, key);
    lemma_lex_char(cs, i3, ':', seq![LexemeV::Colon]);
    lemma_lex_char(cs, i4, '\n', Seq::empty());
    lemma_lex_value(val, k, cs, i5);
    lemma_prepend_empty(lex_from(cs, i5));
    let r = lex_from(cs, i5 + b.len());
    lemma_prepend_prepend(seq![LexemeV::Colon], tokens_of(val), r);
    lemma_prepend_prepend(seq![LexemeV::String(key)], seq![LexemeV::Colon] + tokens_of(val), r);
    assert(seq![LexemeV::String(key), LexemeV::Colon] + tokens_of(val) =~= seq![LexemeV::String(key)]
        + (seq![LexemeV::Colon] + tokens_of(val)));
}

/// The written text of a non-empty object lexes as its lexemes.
#[verifier::spinoff_prover]
#[verifier::rlimit(60)]
proof fn lemma_lex_object(ms: Seq<(Seq<char>, JsonValue)>, ind: nat, cs: Seq<char>, i: int)
    requires
        ms.len() > 0,
        members_rereadable(ms),
        text_at(cs, i, crate::json_writer::write_value_text(JsonValue::Object(ms), ind)),
    ensures
        lex_from(cs, i) == prepend_lexemes(
            tokens_of(JsonValue::Object(ms)),
            lex_from(cs, i + crate::json_writer::write_value_text(JsonValue::Object(ms), ind).len()),
        ),
    decreases ms, 0nat,
{
    let v = JsonValue::Object(ms);
    let w = crate::json_writer::write_value_text(v, ind);
    let k = ind + 1;
    let dl = ms.drop_last();
    let key = ms.last().0;
    let val = ms.last().1;
    let a = crate::json_writer::members_text(dl, k);
    let c = member_core_text(key, val, k);
    let head = tabs(ind) + seq!['{', '\n'];
    let tail = seq!['\n'] + (tabs(ind) + seq!['}']);
    lemma_object_text_shape(ms, ind);
    let i1 = i + ind;
    let i2 = i1 + 1;
    let i3 = i2 + 1;
    let i4 = i3 + a.len();
    let i9 = i4 + c.len();
    lemma_text_at_split(cs, i, tabs(ind), seq!['{'] + (seq!['\n'] + (a + (c + tail))));
    lemma_text_at_split(cs, i1, seq!['{'], seq!['\n'] + (a + (c + tail)));
    lemma_text_at_split(cs, i2, seq!['\n'], a + (c + tail));
    lemma_text_at_split(cs, i3, a, c + tail);
    lemma_text_at_split(cs, i4, c, tail);
    lemma_text_at_split(cs, i9, seq!['\n'], tabs(ind) + seq!['}']);
    lemma_text_at_split(cs, i9 + 1, tabs(ind), seq!['}']);
    lemma_text_at_index(cs, i9, seq!['\n'], 0);
    lemma_lex_tabs(cs, i, ind);
    lemma_lex_char(cs, i1, '{', seq![LexemeV::OpenBrace]);
    lemma_lex_char(cs, i2, '\n', Seq::empty());
    lemma_lex_members(dl, k, cs, i3);
    lemma_lex_member(key, val, k, cs, i4);
    lemma_lex_char(cs, i9, '\n', Seq::empty());
    lemma_lex_tabs(cs, i9 + 1, ind);
    lemma_lex_char(cs, i9 + 1 + ind, '}', seq![LexemeV::CloseBrace]);
    lemma_prepend_empty(lex_from(cs, i3));
    lemma_prepend_empty(lex_from(cs, i9 + 1));
    let r = lex_from(cs, i + w.len());
    let mt = seq![LexemeV::String(key), LexemeV::Colon] + tokens_of(val);
    lemma_prepend_prepend(mt, seq![LexemeV::CloseBrace], r);
    lemma_prepend_prepend(members_commas_tokens(dl), mt + seq![LexemeV::CloseBrace], r);
    lemma_prepend_prepend(
        seq![LexemeV::OpenBrace],
        members_commas_tokens(dl) + (mt + seq![LexemeV::CloseBrace]),
        r,
    );
    assert(tokens_of(v) =~= seq![LexemeV::OpenBrace] + (members_commas_tokens(dl) + (mt + seq![
        LexemeV::CloseBrace,
    ])));
}

/// The written text of items, each followed by `,` and a new line, lexes as
/// their lexemes, each followed by a comma.
proof fn lemma_lex_items(items: Seq<JsonValue>, k: nat, cs: Seq<char>, i: int)
    requires
        items_rereadable(items),
        text_at(cs, i, crate::json_writer::items_text(items, k)),
    ensures
        lex_from(cs, i) == prepend_lexemes(
            items_commas_tokens(items),
            lex_from(cs, i + crate::json_writer::items_text(items, k).len()),
        ),
    decreases items, 0nat,
{
    if items.len() == 0 {
        lemma_prepend_empty(lex_from(cs, i));
    } else {
        let dl = items.drop_last();
        let last = items.last();
        let a = crate::json_writer::items_text(dl, k);
        let b = crate::json_writer::write_value_text(last, k);
        assert(crate::json_writer::items_text(items, k) =~= a + (b + (seq![','] + seq!['\n'])));
        let i1 = i + a.len();
        let i2 = i1 + b.len();
        lemma_text_at_split(cs, i, a, b + (seq![','] + seq!['\n']));
        lemma_text_at_split(cs, i1, b, seq![','] + seq!['\n']);
        lemma_text_at_split(cs, i2, seq![','], seq!['\n']);
        lemma_text_at_index(cs, i2, seq![','], 0);
        lemma_lex_items(dl, k, cs, i);
        lemma_lex_value(last, k, cs, i1);
        lemma_lex_char(cs, i2, ',', seq![LexemeV::Comma]);
        lemma_lex_char(cs, i2 + 1, '\n', Seq::empty());
        lemma_prepend_empty(lex_from(cs, i2 + 2));
        let r = lex_from(cs, i2 + 2);
        lemma_prepend_prepend(tokens_of(last), seq![LexemeV::Comma], r);
        lemma_prepend_prepend(items_commas_tokens(dl), tokens_of(last) + seq![LexemeV::Comma], r);
        assert(items_commas_tokens(items) =~= items_commas_tokens(dl) + (tokens_of(last) + seq![
            LexemeV::Comma,
        ]));
    }
}

/// The written text of members lexes as their lexemes, each followed by a
/// comma.
proof fn lemma_lex_members(ms: Seq<(Seq<char>, JsonValue)>, k: nat, cs: Seq<char>, i: int)
    requires
        members_rereadable(ms),
        text_at(cs, i, crate::json_writer::members_text(ms, k)),
    ensures
        lex_from(cs, i) == prepend_lexemes(
            members_commas_tokens(ms),
            lex_from(cs, i + crate::json_writer::members_text(ms, k).len()),
        ),
    decreases ms, 0nat,
{
    if ms.len() == 0 {
        lemma_prepend_empty(lex_from(cs, i));
    } else {
        let dl = ms.drop_last();
        let key = ms.last().0;
        let val = ms.last().1;
        let a = crate::json_writer::members_text(dl, k);
        let c = member_core_text(key, val, k);
        let tail = seq![','] + seq!['\n'];
        assert(crate::json_writer::members_text(ms, k) =~= a + (c + tail));
        let i1 = i + a.len();
        let i6 = i1 + c.len();
        lemma_text_at_split(cs, i, a, c + tail);
        lemma_text_at_split(cs, i1, c, tail);
        lemma_text_at_split(cs, i6, seq![','], seq!['\n']);
        lemma_text_at_index(cs, i6, seq![','], 0);
        lemma_lex_members(dl, k, cs, i);
        lemma_lex_member(key, val, k, cs, i1);
        lemma_lex_char(cs, i6, ',', seq![LexemeV::Comma]);
        lemma_lex_char(cs, i6 + 1, '\n', Seq::empty());
        lemma_prepend_empty(lex_from(cs, i6 + 2));
        let r = lex_from(cs, i6 + 2);
        let mt = seq![LexemeV::String(key), LexemeV::Colon] + tokens_of(val);
        lemma_prepend_prepend(mt, seq![LexemeV::Comma], r);
        lemma_prepend_prepend(members_commas_tokens(dl), mt + seq![LexemeV::Comma], r);
        assert(members_commas_tokens(ms) =~= members_commas_tokens(dl) + (mt + seq![LexemeV::Comma]));
    }
}

/// The lexemes of a non-empty list between its brackets.
pub open spec fn items_body_tokens(items: Seq<JsonValue>) -> Seq<LexemeV> {
    items_commas_tokens(items.drop_last()) + tokens_of(items.last())
}

/// The lexemes of a non-empty object between its braces.
pub open spec fn members_body_tokens(ms: Seq<(Seq<char>, JsonValue)>) -> Seq<LexemeV> {
    members_commas_tokens(ms.drop_last()) + seq![LexemeV::String(ms.last().0), LexemeV::Colon]
        + tokens_of(ms.last().1)
}

/// `lx` holds the lexemes `ts` from index `j` on.
pub open spec fn tokens_at(lx: Seq<LexemeV>, j: int, ts: Seq<LexemeV>) -> bool {
    &&& 0 <= j
    &&& j + ts.len() <= lx.len()
    &&& lx.subrange(j, j + ts.len()) == ts
}

proof fn lemma_tokens_at_split(lx: Seq<LexemeV>, j: int, a: Seq<LexemeV>, b: Seq<LexemeV>)
    requires
        tokens_at(lx, j, a + b),
    ensures
        tokens_at(lx, j, a),
        tokens_at(lx, j + a.len(), b),
{
    let w = lx.subrange(j, j + a.len() + b.len());
    assert(w == a + b);
    assert(lx.subrange(j, j + a.len()) =~= w.subrange(0, a.len() as int));
    assert(w.subrange(0, a.len() as int) =~= a);
    assert(lx.subrange(j + a.len(), j + a.len() + b.len()) =~= w.subrange(
        a.len() as int,
        w.len() as int,
    ));
    assert(w.subrange(a.len() as int, w.len() as int) =~= b);
}

proof fn lemma_tokens_at_index(lx: Seq<LexemeV>, j: int, ts: Seq<LexemeV>, k: int)
    requires
        tokens_at(lx, j, ts),
        0 <= k < ts.len(),
    ensures
        lx[j + k] == ts[k],
{
    assert(lx.subrange(j, j + ts.len())[k] == lx[j + k]);
}

/// Items with their commas, taken from the front.
proof fn lemma_items_commas_front(items: Seq<JsonValue>)
    requires
        items.len() > 0,
    ensures
        items_commas_tokens(items) == tokens_of(items[0]) + seq![LexemeV::Comma]
            + items_commas_tokens(items.drop_first()),
    decreases items.len(),
{
    if items.len() == 1 {
        assert(items.drop_last() =~= Seq::<JsonValue>::empty());
        assert(items.drop_first() =~= Seq::<JsonValue>::empty());
        assert(items_commas_tokens(items.drop_last()) == Seq::<LexemeV>::empty());
        assert(items_commas_tokens(items.drop_first()) == Seq::<LexemeV>::empty());
        assert(items.last() == items[0]);
        assert(items_commas_tokens(items) =~= tokens_of(items[0]) + seq![LexemeV::Comma]);
    } else {
        lemma_items_commas_front(items.drop_last());
        assert(items.drop_last().drop_first() =~= items.drop_first().drop_last());
        assert(items.drop_first().last() == items.last());
        assert(items.drop_last()[0] == items[0]);
        assert(items_commas_tokens(items) =~= tokens_of(items[0]) + seq![LexemeV::Comma]
            + items_commas_tokens(items.drop_first()));
    }
}

/// Members with their commas, taken from the front.
proof fn lemma_members_commas_front(ms: Seq<(Seq<char>, JsonValue)>)
    requires
        ms.len() > 0,
    ensures
        members_commas_tokens(ms) == seq![LexemeV::String(ms[0].0), LexemeV::Colon] + tokens_of(
            ms[0].1,
        ) + seq![LexemeV::Comma] + members_commas_tokens(ms.drop_first()),
    decreases ms.len(),
{
    if ms.len() == 1 {
        assert(ms.drop_last() =~= Seq::<(Seq<char>, JsonValue)>::empty());
        assert(ms.drop_first() =~= Seq::<(Seq<char>, JsonValue)>::empty());
        assert(members_commas_tokens(ms.drop_last()) == Seq::<LexemeV>::empty());
        assert(members_commas_tokens(ms.drop_first()) == Seq::<LexemeV>::empty());
        assert(ms.last() == ms[0]);
        assert(members_commas_tokens(ms) =~= seq![LexemeV::String(ms[0].0), LexemeV::Colon]
            + tokens_of(ms[0].1) + seq![LexemeV::Comma]);
    } else {
        lemma_members_commas_front(ms.drop_last());
        assert(ms.drop_last().drop_first() =~= ms.drop_first().drop_last());
        assert(ms.drop_first().last() == ms.last());
        assert(ms.drop_last()[0] == ms[0]);
        assert(members_commas_tokens(ms) =~= seq![LexemeV::String(ms[0].0), LexemeV::Colon]
            + tokens_of(ms[0].1) + seq![LexemeV::Comma] + members_commas_tokens(ms.drop_first()));
    }
}

proof fn lemma_items_rereadable(items: Seq<JsonValue>, k: int)
    requires
        items_rereadable(items),
        0 <= k < items.len(),
    ensures
        rereadable(items[k]),
        items_rereadable(items.drop_first()),
    decreases items.len(),
{
    if k < items.len() - 1 {
        lemma_items_rereadable(items.drop_last(), k);
    }
    if items.len() > 1 {
        lemma_items_rereadable(items.drop_last(), 0);
        assert(items.drop_last().drop_first() =~= items.drop_first().drop_last());
        assert(items.drop_first().last() == items.last());
    } else {
        assert(items.drop_first().len() == 0);
    }
}

proof fn lemma_members_rereadable(ms: Seq<(Seq<char>, JsonValue)>, k: int)
    requires
        members_rereadable(ms),
        0 <= k < ms.len(),
    ensures
        rereadable(ms[k].1),
        string_closes(ms[k].0),
        members_rereadable(ms.drop_first()),
    decreases ms.len(),
{
    if k < ms.len() - 1 {
        lemma_members_rereadable(ms.drop_last(), k);
    }
    if ms.len() > 1 {
        lemma_members_rereadable(ms.drop_last(), 0);
        assert(ms.drop_last().drop_first() =~= ms.drop_first().drop_last());
        assert(ms.drop_first().last() == ms.last());
    } else {
        assert(ms.drop_first().len() == 0);
    }
}

/// The first lexeme of a value opens it.
proof fn lemma_tokens_first(v: JsonValue)
    ensures
        tokens_of(v).len() > 0,
        !(tokens_of(v)[0] is CloseBracket || tokens_of(v)[0] is CloseBrace || tokens_of(v)[0] is Comma
            || tokens_of(v)[0] is Colon),
{
}

/// Without the members of key `key`, when there are none.
proof fn lemma_without_absent_key(ms: Seq<(Seq<char>, JsonValue)>, key: Seq<char>)
    requires
        forall|a: int| 0 <= a < ms.len() ==> #[trigger] ms[a].0 != key,
    ensures
        crate::json_parser::without_key(ms, key) == ms,
    decreases ms.len(),
{
    if ms.len() > 0 {
        lemma_without_absent_key(ms.drop_last(), key);
        assert(ms.drop_last().push(ms.last()) =~= ms);
    }
}

proof fn lemma_items_body_front(items: Seq<JsonValue>)
    requires
        items.len() > 0,
    ensures
        items.len() == 1 ==> items_body_tokens(items) == tokens_of(items[0]),
        items.len() >= 2 ==> items_body_tokens(items) == tokens_of(items[0]) + seq![LexemeV::Comma]
            + items_body_tokens(items.drop_first()),
{
    let dl = items.drop_last();
    if items.len() == 1 {
        assert(dl =~= Seq::<JsonValue>::empty());
        assert(items_commas_tokens(dl) == Seq::<LexemeV>::empty());
        assert(items_body_tokens(items) =~= tokens_of(items[0]));
    } else {
        lemma_items_commas_front(dl);
        let df = items.drop_first();
        assert(df.drop_last() =~= dl.drop_first());
        assert(df.last() == items.last());
        assert(dl[0] == items[0]);
        assert(items_body_tokens(items) =~= tokens_of(items[0]) + seq![LexemeV::Comma]
            + items_body_tokens(df));
    }
}

proof fn lemma_members_body_front(ms: Seq<(Seq<char>, JsonValue)>)
    requires
        ms.len() > 0,
    ensures
        ms.len() == 1 ==> members_body_tokens(ms) == seq![LexemeV::String(ms[0].0), LexemeV::Colon]
            + tokens_of(ms[0].1),
        ms.len() >= 2 ==> members_body_tokens(ms) == seq![LexemeV::String(ms[0].0), LexemeV::Colon]
            + tokens_of(ms[0].1) + seq![LexemeV::Comma] + members_body_tokens(ms.drop_first()),
{
    let dl = ms.drop_last();
    if ms.len() == 1 {
        assert(dl =~= Seq::<(Seq<char>, JsonValue)>::empty());
        assert(members_commas_tokens(dl) == Seq::<LexemeV>::empty());
        assert(ms.last() == ms[0]);
        assert(members_body_tokens(ms) =~= seq![LexemeV::String(ms[0].0), LexemeV::Colon]
            + tokens_of(ms[0].1));
    } else {
        lemma_members_commas_front(dl);
        let df = ms.drop_first();
        assert(df.drop_last() =~= dl.drop_first());
        assert(df.last() == ms.last());
        assert(dl[0] == ms[0]);
        assert(members_body_tokens(ms) =~= seq![LexemeV::String(ms[0].0), LexemeV::Colon]
            + tokens_of(ms[0].1) + seq![LexemeV::Comma] + members_body_tokens(df));
    }
}

/// The lexemes of a value parse back as the value.
proof fn lemma_parse_value(v: JsonValue, lx: Seq<LexemeV>, j: int)
    requires
        rereadable(v),
        tokens_at(lx, j, tokens_of(v)),
    ensures
        crate::json_parser::parse_value_at(lx, j) == (
            crate::json_parser::ParseStep::Value(v),
            tokens_of(v).len(),
        ),
    decreases v, 1nat,
{
    lemma_tokens_at_index(lx, j, tokens_of(v), 0);
    match v {
        JsonValue::List(items) => {
            if items.len() == 0 {
                lemma_tokens_at_index(lx, j, tokens_of(v), 1);
                assert(items =~= Seq::<JsonValue>::empty());
            } else {
            let body = items_body_tokens(items);
            assert(tokens_of(v) =~= seq![LexemeV::OpenBracket] + (body + seq![LexemeV::CloseBracket]));
            lemma_tokens_at_split(lx, j, seq![LexemeV::OpenBracket], body + seq![LexemeV::CloseBracket]);
            lemma_tokens_at_split(lx, j + 1, body, seq![LexemeV::CloseBracket]);
            lemma_tokens_at_index(lx, j + 1 + body.len(), seq![LexemeV::CloseBracket], 0);
            lemma_items_body_front(items);
            lemma_tokens_first(items[0]);
            lemma_tokens_at_index(lx, j + 1, body, 0);
            lemma_parse_items(items, lx, j + 1);
            }
        },
        JsonValue::Object(ms) => {
            if ms.len() == 0 {
                lemma_tokens_at_index(lx, j, tokens_of(v), 1);
                assert(ms =~= Seq::<(Seq<char>, JsonValue)>::empty());
            } else {
            let body = members_body_tokens(ms);
            assert(tokens_of(v) =~= seq![LexemeV::OpenBrace] + (body + seq![LexemeV::CloseBrace]));
            lemma_tokens_at_split(lx, j, seq![LexemeV::OpenBrace], body + seq![LexemeV::CloseBrace]);
            lemma_tokens_at_split(lx, j + 1, body, seq![LexemeV::CloseBrace]);
            lemma_tokens_at_index(lx, j + 1 + body.len(), seq![LexemeV::CloseBrace], 0);
            lemma_members_body_front(ms);
            lemma_tokens_at_index(lx, j + 1, body, 0);
            lemma_parse_members(ms, lx, j + 1);
            }
        },
        _ => {},
    }
}

/// The lexemes of the items of a non-empty list, followed by a lexeme other
/// than a comma, parse back as the list.
proof fn lemma_parse_items(items: Seq<JsonValue>, lx: Seq<LexemeV>, j: int)
    requires
        items.len() > 0,
        items_rereadable(items),
        tokens_at(lx, j, items_body_tokens(items)),
        j + items_body_tokens(items).len() < lx.len(),
        !(lx[j + items_body_tokens(items).len()] is Comma),
    ensures
        crate::json_parser::parse_list_items_at(lx, j) == (
            crate::json_parser::ParseStep::Value(JsonValue::List(items)),
            items_body_tokens(items).len(),
        ),
    decreases items, 0nat,
{
    lemma_items_body_front(items);
    lemma_items_rereadable(items, 0);
    let first = tokens_of(items[0]);
    if items.len() == 1 {
        lemma_parse_value(items[0], lx, j);
        assert(seq![items[0]] =~= items);
    } else {
        let rest = items_body_tokens(items.drop_first());
        lemma_tokens_at_split(lx, j, first + seq![LexemeV::Comma], rest);
        lemma_tokens_at_split(lx, j, first, seq![LexemeV::Comma]);
        lemma_tokens_at_index(lx, j + first.len(), seq![LexemeV::Comma], 0);
        lemma_parse_value(items[0], lx, j);
        lemma_items_body_front(items.drop_first());
        lemma_tokens_first(items.drop_first()[0]);
        lemma_tokens_at_index(lx, j + first.len() + 1, rest, 0);
        lemma_parse_items(items.drop_first(), lx, j + first.len() + 1);
        assert(seq![items[0]] + items.drop_first() =~= items);
    }
}

/// The lexemes of the members of a non-empty object whose keys differ,
/// followed by a lexeme other than a comma, parse back as the object.
proof fn lemma_parse_members(ms: Seq<(Seq<char>, JsonValue)>, lx: Seq<LexemeV>, j: int)
    requires
        ms.len() > 0,
        members_rereadable(ms),
        distinct_keys(ms),
        tokens_at(lx, j, members_body_tokens(ms)),
        j + members_body_tokens(ms).len() < lx.len(),
        !(lx[j + members_body_tokens(ms).len()] is Comma),
    ensures
        crate::json_parser::parse_object_items_at(lx, j) == (
            crate::json_parser::ParseStep::Value(JsonValue::Object(ms)),
            members_body_tokens(ms).len(),
        ),
    decreases ms, 0nat,
{
    lemma_members_body_front(ms);
    lemma_members_rereadable(ms, 0);
    let key = ms[0].0;
    let val = ms[0].1;
    let head = seq![LexemeV::String(key), LexemeV::Colon];
    let first = head + tokens_of(val);
    let body = members_body_tokens(ms);
    assert(body =~= head + body.subrange(2, body.len() as int));
    lemma_tokens_at_split(lx, j, head, body.subrange(2, body.len() as int));
    lemma_tokens_at_index(lx, j, head, 0);
    lemma_tokens_at_index(lx, j, head, 1);
    if ms.len() == 1 {
        lemma_tokens_at_split(lx, j, head, tokens_of(val));
        lemma_parse_value(val, lx, j + 2);
        assert(crate::json_parser::parse_object_item_at(lx, j) == (
            crate::json_parser::ParseStep::Value(JsonValue::Object(seq![(key, val)])),
            first.len(),
        ));
        assert(seq![(key, val)] =~= ms);
    } else {
        let rest = members_body_tokens(ms.drop_first());
        lemma_tokens_at_split(lx, j, first + seq![LexemeV::Comma], rest);
        lemma_tokens_at_split(lx, j, first, seq![LexemeV::Comma]);
        lemma_tokens_at_split(lx, j, head, tokens_of(val));
        lemma_tokens_at_index(lx, j + first.len(), seq![LexemeV::Comma], 0);
        lemma_parse_value(val, lx, j + 2);
        assert(crate::json_parser::parse_object_item_at(lx, j) == (
            crate::json_parser::ParseStep::Value(JsonValue::Object(seq![(key, val)])),
            first.len(),
        ));
        let df = ms.drop_first();
        assert(distinct_keys(df)) by {
            assert forall|a: int, b: int| 0 <= a < b < df.len() implies #[trigger] df[a].0 != #[trigger] df[b].0 by {
                assert(df[a] == ms[a + 1]);
                assert(df[b] == ms[b + 1]);
            }
        }
        lemma_members_body_front(df);
        lemma_tokens_at_index(lx, j + first.len() + 1, rest, 0);
        lemma_parse_members(df, lx, j + first.len() + 1);
        assert forall|a: int| 0 <= a < df.len() implies #[trigger] df[a].0 != key by {
            assert(df[a] == ms[a + 1]);
        }
        lemma_without_absent_key(df, key);
        let m = seq![(key, val)];
        assert(m.drop_last() =~= Seq::<(Seq<char>, JsonValue)>::empty());
        assert(crate::json_parser::merge_members(m.drop_last(), df) == df);
        assert(crate::json_parser::merge_members(m, df) =~= ms);
    }
}

/// The lexemes of the items of a non-empty list, followed by a comma and
/// `]`, parse as the list, the comma included.
proof fn lemma_parse_items_trailing(items: Seq<JsonValue>, lx: Seq<LexemeV>, j: int)
    requires
        items.len() > 0,
        items_rereadable(items),
        tokens_at(lx, j, items_body_tokens(items)),
        j + items_body_tokens(items).len() + 1 < lx.len(),
        lx[j + items_body_tokens(items).len()] is Comma,
        lx[j + items_body_tokens(items).len() + 1] is CloseBracket,
    ensures
        crate::json_parser::parse_list_items_at(lx, j) == (
            crate::json_parser::ParseStep::Value(JsonValue::List(items)),
            items_body_tokens(items).len() + 1,
        ),
    decreases items.len(),
{
    lemma_items_body_front(items);
    lemma_items_rereadable(items, 0);
    let first = tokens_of(items[0]);
    if items.len() == 1 {
        lemma_parse_value(items[0], lx, j);
        assert(seq![items[0]] =~= items);
    } else {
        let rest = items_body_tokens(items.drop_first());
        lemma_tokens_at_split(lx, j, first + seq![LexemeV::Comma], rest);
        lemma_tokens_at_split(lx, j, first, seq![LexemeV::Comma]);
        lemma_tokens_at_index(lx, j + first.len(), seq![LexemeV::Comma], 0);
        lemma_parse_value(items[0], lx, j);
        lemma_items_body_front(items.drop_first());
        lemma_tokens_first(items.drop_first()[0]);
        lemma_tokens_at_index(lx, j + first.len() + 1, rest, 0);
        lemma_parse_items_trailing(items.drop_first(), lx, j + first.len() + 1);
        assert(seq![items[0]] + items.drop_first() =~= items);
    }
}

/// The lexemes of the members of a non-empty object whose keys differ,
/// followed by a comma and `}`, parse as the object, the comma included.
proof fn lemma_parse_members_trailing(ms: Seq<(Seq<char>, JsonValue)>, lx: Seq<LexemeV>, j: int)
    requires
        ms.len() > 0,
        members_rereadable(ms),
        distinct_keys(ms),
        tokens_at(lx, j, members_body_tokens(ms)),
        j + members_body_tokens(ms).len() + 1 < lx.len(),
        lx[j + members_body_tokens(ms).len()] is Comma,
        lx[j + members_body_tokens(ms).len() + 1] is CloseBrace,
    ensures
        crate::json_parser::parse_object_items_at(lx, j) == (
            crate::json_parser::ParseStep::Value(JsonValue::Object(ms)),
            members_body_tokens(ms).len() + 1,
        ),
    decreases ms.len(),
{
    lemma_members_body_front(ms);
    lemma_members_rereadable(ms, 0);
    let key = ms[0].0;
    let val = ms[0].1;
    let head = seq![LexemeV::String(key), LexemeV::Colon];
    let first = head + tokens_of(val);
    let body = members_body_tokens(ms);
    assert(body =~= head + body.subrange(2, body.len() as int));
    lemma_tokens_at_split(lx, j, head, body.subrange(2, body.len() as int));
    lemma_tokens_at_index(lx, j, head, 0);
    lemma_tokens_at_index(lx, j, head, 1);
    if ms.len() == 1 {
        lemma_tokens_at_split(lx, j, head, tokens_of(val));
        lemma_parse_value(val, lx, j + 2);
        assert(crate::json_parser::parse_object_item_at(lx, j) == (
            crate::json_parser::ParseStep::Value(JsonValue::Object(seq![(key, val)])),
            first.len(),
        ));
        assert(seq![(key, val)] =~= ms);
    } else {
        let rest = members_body_tokens(ms.drop_first());
        lemma_tokens_at_split(lx, j, first + seq![LexemeV::Comma], rest);
        lemma_tokens_at_split(lx, j, first, seq![LexemeV::Comma]);
        lemma_tokens_at_split(lx, j, head, tokens_of(val));
        lemma_tokens_at_index(lx, j + first.len(), seq![LexemeV::Comma], 0);
        lemma_parse_value(val, lx, j + 2);
        assert(crate::json_parser::parse_object_item_at(lx, j) == (
            crate::json_parser::ParseStep::Value(JsonValue::Object(seq![(key, val)])),
            first.len(),
        ));
        let df = ms.drop_first();
        assert(distinct_keys(df)) by {
            assert forall|a: int, b: int| 0 <= a < b < df.len() implies #[trigger] df[a].0 != #[trigger] df[b].0 by {
                assert(df[a] == ms[a + 1]);
                assert(df[b] == ms[b + 1]);
            }
        }
        lemma_members_body_front(df);
        lemma_tokens_at_index(lx, j + first.len() + 1, rest, 0);
        lemma_parse_members_trailing(df, lx, j + first.len() + 1);
        assert forall|a: int| 0 <= a < df.len() implies #[trigger] df[a].0 != key by {
            assert(df[a] == ms[a + 1]);
        }
        lemma_without_absent_key(df, key);
        let m = seq![(key, val)];
        assert(m.drop_last() =~= Seq::<(Seq<char>, JsonValue)>::empty());
        assert(crate::json_parser::merge_members(m.drop_last(), df) == df);
        assert(crate::json_parser::merge_members(m, df) =~= ms);
    }
}

/// A comma after the last item of a non-empty list changes nothing: the
/// lexemes of the list with a comma before its `]` parse as the list, as the
/// lexemes without it do.
#[verifier::spinoff_prover]
#[verifier::rlimit(60)]
pub proof fn law_trailing_comma_in_list(items: Seq<JsonValue>)
    requires
        items.len() > 0,
        items_rereadable(items),
    ensures
        crate::json_parser::parse_value_at(
            seq![LexemeV::OpenBracket] + items_body_tokens(items) + seq![LexemeV::Comma, LexemeV::CloseBracket],
            0,
        ) == (
            crate::json_parser::ParseStep::Value(JsonValue::List(items)),
            items_body_tokens(items).len() + 3,
        ),
        crate::json_parser::parse_value_at(tokens_of(JsonValue::List(items)), 0) == (
            crate::json_parser::ParseStep::Value(JsonValue::List(items)),
            items_body_tokens(items).len() + 2,
        ),
{
    let body = items_body_tokens(items);
    let lx = seq![LexemeV::OpenBracket] + body + seq![LexemeV::Comma, LexemeV::CloseBracket];
    let v = JsonValue::List(items);
    assert(crate::json_parser::parse_value_at(lx, 0) == (
        crate::json_parser::ParseStep::Value(v),
        body.len() + 3,
    )) by {
        assert(lx.subrange(1, 1 + body.len() as int) =~= body);
        lemma_items_body_front(items);
        lemma_tokens_first(items[0]);
        lemma_tokens_at_index(lx, 1, body, 0);
        assert(lx[body.len() as int + 1] is Comma);
        assert(lx[body.len() as int + 2] is CloseBracket);
        lemma_parse_items_trailing(items, lx, 1);
    }
    assert(crate::json_parser::parse_value_at(tokens_of(v), 0) == (
        crate::json_parser::ParseStep::Value(v),
        body.len() + 2,
    )) by {
        assert(tokens_of(v) =~= seq![LexemeV::OpenBracket] + body + seq![LexemeV::CloseBracket]);
        assert(tokens_of(v).subrange(0, tokens_of(v).len() as int) =~= tokens_of(v));
        lemma_parse_value(v, tokens_of(v), 0);
    }
}

/// A comma after the last member of a non-empty object whose keys differ
/// changes nothing: the lexemes of the object with a comma before its `}`
/// parse as the object, as the lexemes without it do.
#[verifier::spinoff_prover]
#[verifier::rlimit(60)]
pub proof fn law_trailing_comma_in_object(ms: Seq<(Seq<char>, JsonValue)>)
    requires
        ms.len() > 0,
        members_rereadable(ms),
        distinct_keys(ms),
    ensures
        crate::json_parser::parse_value_at(
            seq![LexemeV::OpenBrace] + members_body_tokens(ms) + seq![LexemeV::Comma, LexemeV::CloseBrace],
            0,
        ) == (
            crate::json_parser::ParseStep::Value(JsonValue::Object(ms)),
            members_body_tokens(ms).len() + 3,
        ),
        crate::json_parser::parse_value_at(tokens_of(JsonValue::Object(ms)), 0) == (
            crate::json_parser::ParseStep::Value(JsonValue::Object(ms)),
            members_body_tokens(ms).len() + 2,
        ),
{
    let body = members_body_tokens(ms);
    let lx = seq![LexemeV::OpenBrace] + body + seq![LexemeV::Comma, LexemeV::CloseBrace];
    let v = JsonValue::Object(ms);
    assert(crate::json_parser::parse_value_at(lx, 0) == (
        crate::json_parser::ParseStep::Value(v),
        body.len() + 3,
    )) by {
        assert(lx.subrange(1, 1 + body.len() as int) =~= body);
        lemma_members_body_front(ms);
        lemma_tokens_at_index(lx, 1, body, 0);
        assert(lx[body.len() as int + 1] is Comma);
        assert(lx[body.len() as int + 2] is CloseBrace);
        lemma_parse_members_trailing(ms, lx, 1);
    }
    assert(crate::json_parser::parse_value_at(tokens_of(v), 0) == (
        crate::json_parser::ParseStep::Value(v),
        body.len() + 2,
    )) by {
        assert(tokens_of(v) =~= seq![LexemeV::OpenBrace] + body + seq![LexemeV::CloseBrace]);
        assert(tokens_of(v).subrange(0, tokens_of(v).len() as int) =~= tokens_of(v));
        lemma_parse_value(v, tokens_of(v), 0);
    }
}

/// Parsing the text that `write_json` writes of a value gives back that value,
/// for every value whose strings and keys are closed by the quote written
/// after them, whose integers are not 0, whose decimal texts are read as a
/// whole and whose objects have distinct keys (`rereadable`), empty lists and
/// objects included; the decimal text of a number that stands alone must not
/// end with its decimal point.
pub proof fn law_written_text_parses_back(v: JsonValue)
    requires
        rereadable(v),
        !ends_with_dot(v),
    ensures
        crate::json_parser::spec_parse_json(crate::json_writer::write_value_text(v, 0))
            == crate::json_parser::ParseJsonResult::Json(v),
{
    let cs = crate::json_writer::write_value_text(v, 0);
    assert(cs.subrange(0, cs.len() as int) =~= cs);
    lemma_lex_value(v, 0, cs, 0);
    let ts = tokens_of(v);
    assert(ts + Seq::<LexemeV>::empty() =~= ts);
    assert(crate::json_lexer::spec_lex(cs) == LexResult::Lexemes(ts));
    assert(ts.subrange(0, ts.len() as int) =~= ts);
    lemma_parse_value(v, ts, 0);
}

/// The decimal notation of a non-zero integer that fits in an `i64` lexes as
/// that integer; the notation is an optional `-` and digits, the first not
/// `0`, whose value is the integer's size.
pub proof fn law_integer_text(v: int)
    requires
        v != 0,
        i64::MIN <= v <= i64::MAX,
    ensures
        crate::json_lexer::spec_lex(crate::text::int_text(v)) == LexResult::Lexemes(seq![LexemeV::Int(v)]),
        crate::text::signed_decimal_value(crate::text::int_text(v)) == Some(v),
{
    let x = crate::text::int_text(v);
    assert(x.subrange(0, x.len() as int) =~= x);
    lemma_lex_int(x, 0, v);
    assert(seq![LexemeV::Int(v)] + Seq::<LexemeV>::empty() =~= seq![LexemeV::Int(v)]);
    if v < 0 {
        crate::text::lemma_nat_text((-v) as nat);
        assert(x.drop_first() =~= crate::text::nat_text((-v) as nat));
    } else {
        crate::text::lemma_nat_text(v as nat);
    }
}

/// A decimal text that does not end with its decimal point lexes as one
/// decimal number holding that text.
pub proof fn law_decimal_text(t: Seq<char>)
    requires
        decimal_text(t),
        t.last() != '.',
    ensures
        crate::json_lexer::spec_lex(t) == LexResult::Lexemes(seq![LexemeV::Float(t)]),
{
    assert(t.subrange(0, t.len() as int) =~= t);
    lemma_lex_decimal(t, 0, t);
    assert(seq![LexemeV::Float(t)] + Seq::<LexemeV>::empty() =~= seq![LexemeV::Float(t)]);
}

/// Of two members of an object with the same key, the first is kept: the
/// lexemes `{ "k": v1, "k": v2 }` parse as the object holding `k: v1` alone,
/// for every key and every pair of values.
pub proof fn law_first_of_equal_keys_kept(k: Seq<char>, v1: JsonValue, v2: JsonValue)
    requires
        rereadable(v1),
        rereadable(v2),
    ensures
        ({
            let lx = seq![LexemeV::OpenBrace, LexemeV::String(k), LexemeV::Colon] + tokens_of(v1) + seq![
                LexemeV::Comma,
                LexemeV::String(k),
                LexemeV::Colon,
            ] + tokens_of(v2) + seq![LexemeV::CloseBrace];
            crate::json_parser::parse_value_at(lx, 0) == (
                crate::json_parser::ParseStep::Value(JsonValue::Object(seq![(k, v1)])),
                lx.len(),
            )
        }),
{
    let t1 = tokens_of(v1);
    let t2 = tokens_of(v2);
    let lx = seq![LexemeV::OpenBrace, LexemeV::String(k), LexemeV::Colon] + t1 + seq![
        LexemeV::Comma,
        LexemeV::String(k),
        LexemeV::Colon,
    ] + t2 + seq![LexemeV::CloseBrace];
    let a: int = 3 + t1.len() as int;
    let b: int = a + 3 + t2.len();
    assert(lx.subrange(3, 3 + t1.len() as int) =~= t1);
    assert(lx.subrange(a + 3, a + 3 + t2.len() as int) =~= t2);
    assert(tokens_at(lx, 3, t1));
    assert(tokens_at(lx, a + 3, t2));
    lemma_parse_value(v1, lx, 3);
    lemma_parse_value(v2, lx, a + 3);
    assert(lx[1] == LexemeV::String(k));
    assert(lx[2] == LexemeV::Colon);
    assert(lx[a] == LexemeV::Comma);
    assert(lx[a + 1] == LexemeV::String(k));
    assert(lx[a + 2] == LexemeV::Colon);
    assert(lx[b] == LexemeV::CloseBrace);
    assert(crate::json_parser::parse_object_item_at(lx, 1) == (
        crate::json_parser::ParseStep::Value(JsonValue::Object(seq![(k, v1)])),
        t1.len() + 2,
    ));
    assert(crate::json_parser::parse_object_item_at(lx, a + 1) == (
        crate::json_parser::ParseStep::Value(JsonValue::Object(seq![(k, v2)])),
        t2.len() + 2,
    ));
    assert(crate::json_parser::parse_object_items_at(lx, a + 1) == (
        crate::json_parser::ParseStep::Value(JsonValue::Object(seq![(k, v2)])),
        t2.len() + 2,
    ));
    let m = seq![(k, v1)];
    let rest = seq![(k, v2)];
    assert(m.drop_last() =~= Seq::<(Seq<char>, JsonValue)>::empty());
    assert(rest.drop_last() =~= Seq::<(Seq<char>, JsonValue)>::empty());
    assert(rest.last().0 == k);
    assert(crate::json_parser::without_key(rest.drop_last(), k) == rest.drop_last());
    assert(crate::json_parser::without_key(rest, k) =~= Seq::<(Seq<char>, JsonValue)>::empty());
    assert(crate::json_parser::merge_members(m.drop_last(), rest) == rest);
    assert(m.last() == (k, v1));
    assert(crate::json_parser::merge_members(m, rest) == crate::json_parser::member_insert(rest, k, v1));
    assert(crate::json_parser::merge_members(m, rest) =~= m);
    assert(crate::json_parser::parse_object_items_at(lx, 1) == (
        crate::json_parser::ParseStep::Value(JsonValue::Object(m)),
        t1.len() + t2.len() + 5,
    ));
}

/// A decimal number followed by a second decimal point is refused as a
/// number with several decimal points, whatever comes after.
pub proof fn law_second_decimal_point(t: Seq<char>, rest: Seq<char>)
    requires
        decimal_text(t),
        t.last() != '.',
    ensures
        crate::json_lexer::spec_lex(t + seq!['.'] + rest) == LexResult::MultipleDecimalsInFloat,
{
    let cs = t + seq!['.'] + rest;
    let p = choose|p: int|
        #![trigger t[p]]
        1 <= p < t.len() && t[p] == '.' && forall|k: int|
            1 <= k < t.len() && k != p ==> is_digit(#[trigger] t[k]);
    assert(p < t.len() - 1);
    assert forall|k: int| 1 <= k < p implies is_digit(#[trigger] cs[k]) by {
        assert(cs[k] == t[k]);
    }
    assert forall|k: int| p + 2 <= k < t.len() implies is_digit(#[trigger] cs[k]) by {
        assert(cs[k] == t[k]);
    }
    lemma_number_end_digits_to(cs, 1, p, false);
    lemma_number_end_digits_to(cs, p + 2, t.len() as int, true);
    assert(cs[p] == '.');
    assert(cs[p + 1] == t[p + 1]);
    assert(is_digit(cs[p + 1]));
    assert(cs[t.len() as int] == '.');
    assert(number_end(cs, t.len() as int, true) == NumberEnd::MultipleDots);
    assert(number_end(cs, 1, false) == NumberEnd::MultipleDots);
    assert(cs[0] == t[0]);
    assert(lex_step(cs, 0) == LexStep::Stop(LexResult::MultipleDecimalsInFloat));
}

} // verus!
