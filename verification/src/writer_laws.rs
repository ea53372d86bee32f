//! Laws of the writer: how the indentation a value is written at shows in
//! its text.

use vstd::prelude::*;
use crate::json_type::JsonValue;
use crate::json_writer::{write_value_text, items_text, members_text};
use crate::round_trip::{member_core_text, lemma_list_text_shape, lemma_object_text_shape};
use crate::text::tabs;

verus! {

/// `t` with `n` tabs put after each of its newlines.
pub open spec fn indent_after_newlines(t: Seq<char>, n: nat) -> Seq<char>
    decreases t.len(),
{
    if t.len() == 0 {
        t
    } else {
        indent_after_newlines(t.drop_last(), n) + if t.last() == '\n' {
            seq!['\n'] + tabs(n)
        } else {
            seq![t.last()]
        }
    }
}

/// Every line of `t` with `n` tabs put before it.
pub open spec fn indent_lines(t: Seq<char>, n: nat) -> Seq<char> {
    tabs(n) + indent_after_newlines(t, n)
}

/// Whether `t` has no newline.
pub open spec fn no_newline(t: Seq<char>) -> bool {
    forall|k: int| 0 <= k < t.len() ==> #[trigger] t[k] != '\n'
}

/// Whether no key of `ms` has a newline.
pub open spec fn keys_newline_free(ms: Seq<(Seq<char>, JsonValue)>) -> bool {
    forall|k: int| 0 <= k < ms.len() ==> no_newline(#[trigger] ms[k].0)
}

/// Whether no string, key or decimal text in `v` has a newline.
pub open spec fn newline_free(v: JsonValue) -> bool
    decreases v,
{
    match v {
        JsonValue::Str(s) => no_newline(s),
        JsonValue::Float(t) => no_newline(t),
        JsonValue::List(items) => forall|k: int| 0 <= k < items.len() ==> newline_free(#[trigger] items[k]),
        JsonValue::Object(ms) => keys_newline_free(ms) && forall|k: int|
            0 <= k < ms.len() ==> newline_free(#[trigger] ms[k].1),
        _ => true,
    }
}

proof fn lemma_indent_add(a: Seq<char>, b: Seq<char>, n: nat)
    ensures
        indent_after_newlines(a + b, n) == indent_after_newlines(a, n) + indent_after_newlines(b, n),
    decreases b.len(),
{
    if b.len() == 0 {
        assert(a + b =~= a);
        assert(indent_after_newlines(a, n) + indent_after_newlines(b, n) =~= indent_after_newlines(a, n));
    } else {
        lemma_indent_add(a, b.drop_last(), n);
        assert((a + b).drop_last() =~= a + b.drop_last());
        assert((a + b).last() == b.last());
    }
}

proof fn lemma_indent_plain(t: Seq<char>, n: nat)
    requires
        no_newline(t),
    ensures
        indent_after_newlines(t, n) == t,
    decreases t.len(),
{
    if t.len() > 0 {
        assert(t.last() == t[t.len() - 1]);
        lemma_indent_plain(t.drop_last(), n);
        assert(t.drop_last().push(t.last()) =~= t);
    }
}

proof fn lemma_indent_newline(n: nat)
    ensures
        indent_after_newlines(seq!['\n'], n) == seq!['\n'] + tabs(n),
{
    let t = seq!['\n'];
    assert(t.drop_last() =~= Seq::<char>::empty());
    assert(t.last() == '\n');
    assert(indent_after_newlines(t.drop_last(), n) == Seq::<char>::empty());
    assert(Seq::<char>::empty() + (seq!['\n'] + tabs(n)) =~= seq!['\n'] + tabs(n));
}

proof fn lemma_tabs_add(a: nat, b: nat)
    ensures
        tabs(a + b) == tabs(a) + tabs(b),
{
    assert(tabs(a + b) =~= tabs(a) + tabs(b));
}



/// A line piece without newlines, after `m` tabs.
proof fn lemma_indent_scalar(m: nat, n: nat, x: Seq<char>)
    requires
        no_newline(x),
    ensures
        tabs(m + n) + x == tabs(n) + indent_after_newlines(tabs(m) + x, n),
{
    lemma_indent_add(tabs(m), x, n);
    lemma_indent_plain(tabs(m), n);
    lemma_indent_plain(x, n);
    lemma_tabs_add(n, m);
    assert(tabs(m + n) =~= tabs(n + m));
}

proof fn lemma_word_no_newline(w: Seq<char>)
    requires
        w == seq!['t', 'r', 'u', 'e'] || w == seq!['f', 'a', 'l', 's', 'e'] || w == seq!['n', 'u', 'l', 'l'],
    ensures
        no_newline(w),
{
    assert forall|k: int| 0 <= k < w.len() implies #[trigger] w[k] != '\n' by {
        if w == seq!['t', 'r', 'u', 'e'] {
            assert(w[k] == 't' || w[k] == 'r' || w[k] == 'u' || w[k] == 'e');
        } else if w == seq!['f', 'a', 'l', 's', 'e'] {
            assert(w[k] == 'f' || w[k] == 'a' || w[k] == 'l' || w[k] == 's' || w[k] == 'e');
        } else {
            assert(w[k] == 'n' || w[k] == 'u' || w[k] == 'l');
        }
    }
}

proof fn lemma_int_text_no_newline(i: int)
    ensures
        no_newline(crate::text::int_text(i)),
{
    let t = crate::text::int_text(i);
    if i < 0 {
        crate::text::lemma_nat_text((-i) as nat);
        let d = crate::text::nat_text((-i) as nat);
        assert forall|k: int| 0 <= k < t.len() implies #[trigger] t[k] != '\n' by {
            if k > 0 {
                assert(t[k] == d[k - 1]);
            }
        }
    } else {
        crate::text::lemma_nat_text(i as nat);
    }
}

/// Writing at `m + n` tabs puts `n` tabs before every line of the text
/// written at `m` tabs.
proof fn lemma_indent_value(v: JsonValue, m: nat, n: nat)
    requires
        newline_free(v),
    ensures
        write_value_text(v, m + n) == tabs(n) + indent_after_newlines(write_value_text(v, m), n),
    decreases v, 1nat,
{
    match v {
        JsonValue::Bool(b) => {
            let w = if b {
                seq!['t', 'r', 'u', 'e']
            } else {
                seq!['f', 'a', 'l', 's', 'e']
            };
            lemma_word_no_newline(w);
            lemma_indent_scalar(m, n, w);
        },
        JsonValue::Null => {
            lemma_word_no_newline(seq!['n', 'u', 'l', 'l']);
            lemma_indent_scalar(m, n, seq!['n', 'u', 'l', 'l']);
        },
        JsonValue::Str(s) => {
            let x = seq!['"'] + s + seq!['"'];
            assert forall|k: int| 0 <= k < x.len() implies #[trigger] x[k] != '\n' by {
                if 0 < k < x.len() - 1 {
                    assert(x[k] == s[k - 1]);
                }
            }
            lemma_indent_scalar(m, n, x);
            assert(write_value_text(v, m) =~= tabs(m) + x);
            assert(write_value_text(v, m + n) =~= tabs(m + n) + x);
        },
        JsonValue::Int(i) => {
            lemma_int_text_no_newline(i);
            lemma_indent_scalar(m, n, crate::text::int_text(i));
        },
        JsonValue::Float(t) => {
            lemma_indent_scalar(m, n, t);
        },
        JsonValue::List(items) => {
            lemma_indent_list(items, m, n);
        },
        JsonValue::Object(ms) => {
            lemma_indent_object(ms, m, n);
        },
    }
}

/// A bracketed block whose inner lines, written `n` tabs deeper, are `n` tabs
/// before the inner lines with `n` tabs after each newline, is the block with
/// `n` tabs before each of its lines.
#[verifier::spinoff_prover]
proof fn lemma_indent_block(
    tm: Seq<char>,
    open: char,
    close: char,
    a: Seq<char>,
    c: Seq<char>,
    ap: Seq<char>,
    cp: Seq<char>,
    n: nat,
)
    requires
        no_newline(tm),
        open != '\n',
        close != '\n',
        ap + tabs(n) == tabs(n) + indent_after_newlines(a, n),
        cp == tabs(n) + indent_after_newlines(c, n),
    ensures
        (tabs(n) + tm) + (seq![open] + (seq!['\n'] + (ap + (cp + (seq!['\n'] + ((tabs(n) + tm) + seq![
            close,
        ])))))) == tabs(n) + indent_after_newlines(
            tm + (seq![open] + (seq!['\n'] + (a + (c + (seq!['\n'] + (tm + seq![close])))))),
            n,
        ),
{
    let tn = tabs(n);
    let nl = seq!['\n'];
    let ia = indent_after_newlines(a, n);
    let ic = indent_after_newlines(c, n);
    let tail = nl + (tm + seq![close]);
    lemma_indent_newline(n);
    lemma_indent_plain(tm, n);
    lemma_indent_plain(seq![open], n);
    lemma_indent_plain(seq![close], n);
    lemma_indent_add(tm, seq![open] + (nl + (a + (c + tail))), n);
    lemma_indent_add(seq![open], nl + (a + (c + tail)), n);
    lemma_indent_add(nl, a + (c + tail), n);
    lemma_indent_add(a, c + tail, n);
    lemma_indent_add(c, tail, n);
    lemma_indent_add(nl, tm + seq![close], n);
    lemma_indent_add(tm, seq![close], n);
    let x = nl + ((tn + tm) + seq![close]);
    assert(ap + (cp + x) =~= (ap + tn) + (ic + x));
    assert(x =~= nl + (tn + (tm + seq![close])));
    assert((tn + tm) + (seq![open] + (nl + (ap + (cp + x)))) =~= tn + (tm + (seq![open] + ((nl + tn) + (
    ia + (ic + ((nl + tn) + (tm + seq![close]))))))));
}

/// An empty list or object written `n` tabs deeper.
proof fn lemma_indent_empty_block(m: nat, n: nat, open: char, close: char)
    requires
        open != '\n',
        close != '\n',
    ensures
        tabs(m + n) + seq![open, '\n'] + tabs(m + n) + seq![close] == tabs(n) + indent_after_newlines(
            tabs(m) + seq![open, '\n'] + tabs(m) + seq![close],
            n,
        ),
{
    let tn = tabs(n);
    let nl = seq!['\n'];
    lemma_indent_newline(n);
    lemma_tabs_add(n, m);
    assert(tabs(m + n) =~= tn + tabs(m));
    lemma_indent_plain(tabs(m), n);
    lemma_indent_plain(seq![open], n);
    lemma_indent_plain(seq![close], n);
    let w = tabs(m) + (seq![open] + (nl + (tabs(m) + seq![close])));
    assert(tabs(m) + seq![open, '\n'] + tabs(m) + seq![close] =~= w);
    lemma_indent_add(tabs(m), seq![open] + (nl + (tabs(m) + seq![close])), n);
    lemma_indent_add(seq![open], nl + (tabs(m) + seq![close]), n);
    lemma_indent_add(nl, tabs(m) + seq![close], n);
    lemma_indent_add(tabs(m), seq![close], n);
    assert(tabs(m + n) + seq![open, '\n'] + tabs(m + n) + seq![close] =~= tn + indent_after_newlines(w, n));
}

proof fn lemma_indent_list(items: Seq<JsonValue>, m: nat, n: nat)
    requires
        forall|k: int| 0 <= k < items.len() ==> newline_free(#[trigger] items[k]),
    ensures
        write_value_text(JsonValue::List(items), m + n) == tabs(n) + indent_after_newlines(
            write_value_text(JsonValue::List(items), m),
            n,
        ),
    decreases items, 0nat,
{
    if items.len() == 0 {
        assert(items_text(items, m + 1) == Seq::<char>::empty());
        assert(items_text(items, m + n + 1) == Seq::<char>::empty());
        lemma_indent_empty_block(m, n, '[', ']');
    } else {
        let k = m + 1;
        let dl = items.drop_last();
        let last = items.last();
        assert(newline_free(last));
        assert forall|i: int| 0 <= i < dl.len() implies newline_free(#[trigger] dl[i]) by {
            assert(dl[i] == items[i]);
        }
        lemma_list_text_shape(items, m);
        lemma_list_text_shape(items, m + n);
        lemma_indent_items(dl, k, n);
        lemma_indent_value(last, k, n);
        assert(k + n == m + n + 1);
        lemma_tabs_add(n, m);
        assert(tabs(m + n) =~= tabs(n) + tabs(m));
        lemma_indent_block(
            tabs(m),
            '[',
            ']',
            items_text(dl, k),
            write_value_text(last, k),
            items_text(dl, m + n + 1),
            write_value_text(last, m + n + 1),
            n,
        );
    }
}

/// Items written at `k + n` tabs, followed by `n` tabs, are `n` tabs followed
/// by the items written at `k` tabs with `n` tabs after each newline.
proof fn lemma_indent_items(items: Seq<JsonValue>, k: nat, n: nat)
    requires
        forall|i: int| 0 <= i < items.len() ==> newline_free(#[trigger] items[i]),
    ensures
        items_text(items, k + n) + tabs(n) == tabs(n) + indent_after_newlines(items_text(items, k), n),
    decreases items, 0nat,
{
    let tn = tabs(n);
    if items.len() == 0 {
        assert(items_text(items, k + n) + tn =~= tn + Seq::<char>::empty());
    } else {
        let dl = items.drop_last();
        let last = items.last();
        assert(newline_free(last));
        assert forall|i: int| 0 <= i < dl.len() implies newline_free(#[trigger] dl[i]) by {
            assert(dl[i] == items[i]);
        }
        lemma_indent_items(dl, k, n);
        lemma_indent_value(last, k, n);
        let a = items_text(dl, k);
        let b = write_value_text(last, k);
        let cn = seq![','] + seq!['\n'];
        lemma_indent_add(a + b, cn, n);
        lemma_indent_add(a, b, n);
        lemma_indent_add(seq![','], seq!['\n'], n);
        lemma_indent_plain(seq![','], n);
        lemma_indent_newline(n);
        assert(seq![',', '\n'] =~= cn);
        let ia = indent_after_newlines(a, n);
        let ib = indent_after_newlines(b, n);
        assert(items_text(items, k + n) + tn =~= items_text(dl, k + n) + tn + ib + seq![','] + seq!['\n']
            + tn);
        assert(tn + indent_after_newlines(items_text(items, k), n) =~= tn + ia + ib + seq![','] + seq![
            '\n',
        ] + tn);
    }
}

/// A member written at `k + n` tabs is `n` tabs followed by the member written
/// at `k` tabs with `n` tabs after each newline.
proof fn lemma_indent_member(key: Seq<char>, val: JsonValue, k: nat, n: nat)
    requires
        no_newline(key),
        newline_free(val),
    ensures
        member_core_text(key, val, k + n) == tabs(n) + indent_after_newlines(member_core_text(key, val, k), n),
    decreases val, 2nat,
{
    lemma_indent_value(val, k, n);
    let q = seq!['"'] + key + seq!['"', ':'];
    assert forall|i: int| 0 <= i < q.len() implies #[trigger] q[i] != '\n' by {
        if 0 < i <= key.len() {
            assert(q[i] == key[i - 1]);
        }
    }
    let b = write_value_text(val, k);
    let nl = seq!['\n'];
    let tn = tabs(n);
    assert(member_core_text(key, val, k) =~= tabs(k) + (q + (nl + b)));
    assert(member_core_text(key, val, k + n) =~= tabs(k + n) + (q + (nl + write_value_text(val, k + n))));
    lemma_indent_add(tabs(k), q + (nl + b), n);
    lemma_indent_add(q, nl + b, n);
    lemma_indent_add(nl, b, n);
    lemma_indent_plain(tabs(k), n);
    lemma_indent_plain(q, n);
    lemma_indent_newline(n);
    lemma_tabs_add(n, k);
    assert(tabs(k + n) =~= tn + tabs(k));
}

/// Members written at `k + n` tabs, followed by `n` tabs, are `n` tabs
/// followed by the members written at `k` tabs with `n` tabs after each
/// newline.
#[verifier::spinoff_prover]
#[verifier::rlimit(40)]
proof fn lemma_indent_members(ms: Seq<(Seq<char>, JsonValue)>, k: nat, n: nat)
    requires
        forall|i: int| 0 <= i < ms.len() ==> no_newline(#[trigger] ms[i].0) && newline_free(ms[i].1),
    ensures
        members_text(ms, k + n) + tabs(n) == tabs(n) + indent_after_newlines(members_text(ms, k), n),
    decreases ms, 0nat,
{
    let tn = tabs(n);
    if ms.len() == 0 {
        assert(members_text(ms, k + n) + tn =~= tn + Seq::<char>::empty());
    } else {
        let dl = ms.drop_last();
        let key = ms.last().0;
        let val = ms.last().1;
        assert(no_newline(ms[ms.len() - 1].0));
        assert forall|i: int| 0 <= i < dl.len() implies no_newline(#[trigger] dl[i].0) && newline_free(
            dl[i].1,
        ) by {
            assert(dl[i] == ms[i]);
        }
        lemma_indent_members(dl, k, n);
        lemma_indent_member(key, val, k, n);
        let a = members_text(dl, k);
        let c = member_core_text(key, val, k);
        let cn = seq![','] + seq!['\n'];
        assert(members_text(ms, k) =~= a + c + cn);
        assert(members_text(ms, k + n) =~= members_text(dl, k + n) + member_core_text(key, val, k + n)
            + cn);
        lemma_indent_add(a + c, cn, n);
        lemma_indent_add(a, c, n);
        lemma_indent_add(seq![','], seq!['\n'], n);
        lemma_indent_plain(seq![','], n);
        lemma_indent_newline(n);
        let ia = indent_after_newlines(a, n);
        let ic = indent_after_newlines(c, n);
        assert(members_text(ms, k + n) + tn =~= members_text(dl, k + n) + tn + ic + seq![','] + seq![
            '\n',
        ] + tn);
        assert(tn + indent_after_newlines(members_text(ms, k), n) =~= tn + ia + ic + seq![','] + seq![
            '\n',
        ] + tn);
    }
}


proof fn lemma_indent_object(ms: Seq<(Seq<char>, JsonValue)>, m: nat, n: nat)
    requires
        newline_free(JsonValue::Object(ms)),
    ensures
        write_value_text(JsonValue::Object(ms), m + n) == tabs(n) + indent_after_newlines(
            write_value_text(JsonValue::Object(ms), m),
            n,
        ),
    decreases ms, 0nat,
{
    if ms.len() == 0 {
        assert(members_text(ms, m + 1) == Seq::<char>::empty());
        assert(members_text(ms, m + n + 1) == Seq::<char>::empty());
        lemma_indent_empty_block(m, n, '{', '}');
    } else {
        let k = m + 1;
        let dl = ms.drop_last();
        let key = ms.last().0;
        let val = ms.last().1;
        assert(ms[ms.len() - 1] == ms.last());
        assert(no_newline(ms[ms.len() - 1].0));
        assert forall|i: int| 0 <= i < dl.len() implies no_newline(#[trigger] dl[i].0) && newline_free(
            dl[i].1,
        ) by {
            assert(dl[i] == ms[i]);
        }
        lemma_object_text_shape(ms, m);
        lemma_object_text_shape(ms, m + n);
        lemma_indent_members(dl, k, n);
        lemma_indent_member(key, val, k, n);
        assert(k + n == m + n + 1);
        lemma_tabs_add(n, m);
        assert(tabs(m + n) =~= tabs(n) + tabs(m));
        lemma_indent_block(
            tabs(m),
            '{',
            '}',
            members_text(dl, k),
            member_core_text(key, val, k),
            members_text(dl, m + n + 1),
            member_core_text(key, val, m + n + 1),
            n,
        );
    }
}

/// Writing a value at indentation `n` puts `n` tabs before every line of the
/// text written at indentation 0, when no string, key or decimal text in it
/// has a newline.
pub proof fn law_indentation_prefixes_lines(v: JsonValue, n: nat)
    requires
        newline_free(v),
    ensures
        write_value_text(v, n) == indent_lines(write_value_text(v, 0), n),
{
    lemma_indent_value(v, 0, n);
}

/// Whether `a` and `b` are the same JSON value when objects are read as maps
/// from keys to values: the same scalar; lists whose items, in order, are the
/// same in this sense; or objects that hold each key once, have the same keys,
/// and hold for each key values that are the same in this sense.
pub open spec fn same_as_maps(a: JsonValue, b: JsonValue) -> bool
    decreases a,
{
    match a {
        JsonValue::List(xs) => b matches JsonValue::List(ys) && xs.len() == ys.len() && forall|k: int|
            0 <= k < xs.len() ==> same_as_maps(#[trigger] xs[k], ys[k]),
        JsonValue::Object(ms) => b matches JsonValue::Object(ns) && ms.len() == ns.len()
            && crate::json_type::distinct_keys(ms) && crate::json_type::distinct_keys(ns) && (forall|i: int|
            0 <= i < ms.len() ==> exists|j: int|
                #![trigger ns[j]]
                0 <= j < ns.len() && ns[j].0 == ms[i].0 && same_as_maps(#[trigger] ms[i].1, ns[j].1))
            && (forall|j: int|
            0 <= j < ns.len() ==> exists|i: int|
                #![trigger ms[i]]
                0 <= i < ms.len() && ms[i].0 == #[trigger] ns[j].0),
        _ => a == b,
    }
}

/// Whether no object in `v` has two or more members.
pub open spec fn small_objects(v: JsonValue) -> bool
    decreases v,
{
    match v {
        JsonValue::List(xs) => forall|k: int| 0 <= k < xs.len() ==> small_objects(#[trigger] xs[k]),
        JsonValue::Object(ms) => ms.len() <= 1 && forall|k: int|
            0 <= k < ms.len() ==> small_objects(#[trigger] ms[k].1),
        _ => true,
    }
}

/// Values that are the same as maps, where no object has two or more
/// members, are the same value.
proof fn lemma_same_as_maps_small(a: JsonValue, b: JsonValue)
    requires
        same_as_maps(a, b),
        small_objects(a),
    ensures
        a == b,
    decreases a,
{
    match a {
        JsonValue::List(xs) => {
            let ys = b->List_0;
            assert forall|k: int| 0 <= k < xs.len() implies xs[k] == ys[k] by {
                assert(same_as_maps(xs[k], ys[k]));
                assert(small_objects(xs[k]));
                lemma_same_as_maps_small(xs[k], ys[k]);
            }
            assert(xs =~= ys);
        },
        JsonValue::Object(ms) => {
            let ns = b->Object_0;
            if ms.len() == 1 {
                let j = choose|j: int|
                    #![trigger ns[j]]
                    0 <= j < ns.len() && ns[j].0 == ms[0].0 && same_as_maps(ms[0].1, ns[j].1);
                assert(j == 0);
                assert(small_objects(ms[0].1));
                lemma_same_as_maps_small(ms[0].1, ns[0].1);
                assert(ms[0] == ns[0]);
            }
            assert(ms =~= ns);
        },
        _ => {},
    }
}

/// Values that are the same as maps are written as the same text when no
/// object in them has two or more members, so that member order has no say.
pub proof fn law_same_maps_write_same_text(a: JsonValue, b: JsonValue, n: nat)
    requires
        same_as_maps(a, b),
        small_objects(a),
    ensures
        write_value_text(a, n) == write_value_text(b, n),
{
    lemma_same_as_maps_small(a, b);
}

/// Whether `perm` sends each member position of `ns` to a distinct member
/// position of `ms` with the same key.
pub open spec fn key_order(ms: Seq<(Seq<char>, JsonValue)>, ns: Seq<(Seq<char>, JsonValue)>, perm: Seq<int>) -> bool {
    &&& perm.len() == ns.len()
    &&& forall|j: int| 0 <= j < ns.len() ==> 0 <= #[trigger] perm[j] < ms.len() && ns[j].0 == ms[perm[j]].0
    &&& forall|j1: int, j2: int| 0 <= j1 < j2 < ns.len() ==> #[trigger] perm[j1] != #[trigger] perm[j2]
}

/// Whether `b` is `a` with the members of its objects put in another order:
/// the same scalars, lists whose items in order are so related, and objects
/// of as many members, each member of `b` taken from its own member of `a`
/// with the same key and a value so related.
pub open spec fn members_reordered(a: JsonValue, b: JsonValue) -> bool
    decreases a,
{
    match a {
        JsonValue::List(xs) => b matches JsonValue::List(ys) && xs.len() == ys.len() && forall|k: int|
            0 <= k < xs.len() ==> members_reordered(#[trigger] xs[k], ys[k]),
        JsonValue::Object(ms) => b matches JsonValue::Object(ns) && ms.len() == ns.len() && exists|
            perm: Seq<int>,
        |
            #[trigger] key_order(ms, ns, perm) && forall|j: int|
                0 <= j < ns.len() ==> members_reordered(ms[perm[j]].1, #[trigger] ns[j].1),
        _ => a == b,
    }
}

/// Values that are the same as maps differ at most in the order of the
/// members of their objects: the second is the first with its members
/// reordered.
pub proof fn law_same_maps_differ_in_member_order(a: JsonValue, b: JsonValue)
    requires
        same_as_maps(a, b),
    ensures
        members_reordered(a, b),
    decreases a,
{
    match a {
        JsonValue::List(xs) => {
            let ys = b->List_0;
            assert forall|k: int| 0 <= k < xs.len() implies members_reordered(#[trigger] xs[k], ys[k]) by {
                assert(same_as_maps(xs[k], ys[k]));
                law_same_maps_differ_in_member_order(xs[k], ys[k]);
            }
        },
        JsonValue::Object(ms) => {
            let ns = b->Object_0;
            let perm = Seq::new(
                ns.len(),
                |j: int| choose|i: int| #![trigger ms[i]] 0 <= i < ms.len() && ms[i].0 == ns[j].0,
            );
            assert forall|j: int| 0 <= j < ns.len() implies 0 <= #[trigger] perm[j] < ms.len() && ns[j].0
                == ms[perm[j]].0 by {
                assert(ns[j].0 == ns[j].0);
                assert(exists|i: int| #![trigger ms[i]] 0 <= i < ms.len() && ms[i].0 == ns[j].0);
            }
            assert forall|j1: int, j2: int| 0 <= j1 < j2 < ns.len() implies #[trigger] perm[j1]
                != #[trigger] perm[j2] by {
                assert(ns[j1].0 == ms[perm[j1]].0);
                assert(ns[j2].0 == ms[perm[j2]].0);
                assert(ns[j1].0 != ns[j2].0);
            }
            assert(key_order(ms, ns, perm));
            assert forall|j: int| 0 <= j < ns.len() implies members_reordered(
                ms[perm[j]].1,
                #[trigger] ns[j].1,
            ) by {
                let i = perm[j];
                assert(0 <= i < ms.len() && ns[j].0 == ms[i].0);
                let j2 = choose|j2: int|
                    #![trigger ns[j2]]
                    0 <= j2 < ns.len() && ns[j2].0 == ms[i].0 && same_as_maps(ms[i].1, ns[j2].1);
                assert(0 <= j2 < ns.len() && ns[j2].0 == ms[i].0 && same_as_maps(ms[i].1, ns[j2].1));
                if j2 != j {
                    if j2 < j {
                        assert(ns[j2].0 != ns[j].0);
                    } else {
                        assert(ns[j].0 != ns[j2].0);
                    }
                }
                law_same_maps_differ_in_member_order(ms[i].1, ns[j].1);
            }
        },
        _ => {},
    }
}

/// The sum of a sequence of integers.
pub open spec fn sum_of(xs: Seq<int>) -> int
    decreases xs.len(),
{
    if xs.len() == 0 {
        0
    } else {
        sum_of(xs.drop_last()) + xs.last()
    }
}

proof fn lemma_sum_remove(xs: Seq<int>, i: int)
    requires
        0 <= i < xs.len(),
    ensures
        sum_of(xs) == sum_of(xs.remove(i)) + xs[i],
    decreases xs.len(),
{
    if i == xs.len() - 1 {
        assert(xs.remove(i) =~= xs.drop_last());
    } else {
        lemma_sum_remove(xs.drop_last(), i);
        assert(xs.remove(i).drop_last() =~= xs.drop_last().remove(i));
        assert(xs.remove(i).last() == xs.last());
    }
}

/// Sums do not change when the terms are put in another order.
proof fn lemma_sum_reordered(xs: Seq<int>, ys: Seq<int>, perm: Seq<int>)
    requires
        xs.len() == ys.len(),
        perm.len() == ys.len(),
        forall|j: int| 0 <= j < ys.len() ==> 0 <= #[trigger] perm[j] < xs.len() && ys[j] == xs[perm[j]],
        forall|j1: int, j2: int| 0 <= j1 < j2 < ys.len() ==> #[trigger] perm[j1] != #[trigger] perm[j2],
    ensures
        sum_of(xs) == sum_of(ys),
    decreases ys.len(),
{
    if ys.len() > 0 {
        let last = ys.len() - 1;
        let i = perm[last];
        let xs2 = xs.remove(i);
        let ys2 = ys.drop_last();
        let perm2 = Seq::new(ys2.len(), |j: int| if perm[j] < i { perm[j] } else { perm[j] - 1 });
        assert forall|j: int| 0 <= j < ys2.len() implies 0 <= #[trigger] perm2[j] < xs2.len() && ys2[j]
            == xs2[perm2[j]] by {
            assert(perm[j] != perm[last]);
            assert(0 <= perm[j] < xs.len() && ys[j] == xs[perm[j]]);
        }
        assert forall|j1: int, j2: int| 0 <= j1 < j2 < ys2.len() implies #[trigger] perm2[j1]
            != #[trigger] perm2[j2] by {
            assert(perm[j1] != perm[j2]);
            assert(perm[j1] != perm[last]);
            assert(perm[j2] != perm[last]);
        }
        lemma_sum_reordered(xs2, ys2, perm2);
        lemma_sum_remove(xs, i);
    }
}

/// The length of a member's text, with the comma and newline after it.
pub open spec fn member_len(m: (Seq<char>, JsonValue), k: nat) -> int {
    (k + m.0.len() + 4 + write_value_text(m.1, k).len() + 2) as int
}

proof fn lemma_members_len(ms: Seq<(Seq<char>, JsonValue)>, k: nat)
    ensures
        members_text(ms, k).len() == sum_of(ms.map_values(|m: (Seq<char>, JsonValue)| member_len(m, k))),
    decreases ms.len(),
{
    let f = |m: (Seq<char>, JsonValue)| member_len(m, k);
    if ms.len() > 0 {
        lemma_members_len(ms.drop_last(), k);
        assert(ms.map_values(f).drop_last() =~= ms.drop_last().map_values(f));
    } else {
        assert(ms.map_values(f) =~= Seq::<int>::empty());
    }
}

proof fn lemma_items_reordered_len(xs: Seq<JsonValue>, ys: Seq<JsonValue>, k: nat)
    requires
        xs.len() == ys.len(),
        forall|i: int| 0 <= i < xs.len() ==> members_reordered(#[trigger] xs[i], ys[i]),
    ensures
        items_text(xs, k).len() == items_text(ys, k).len(),
    decreases xs, 0nat,
{
    if xs.len() > 0 {
        let n = xs.len() - 1;
        assert(members_reordered(xs[n], ys[n]));
        assert forall|i: int| 0 <= i < n implies members_reordered(#[trigger] xs.drop_last()[i], ys.drop_last()[i]) by {
            assert(members_reordered(xs[i], ys[i]));
        }
        lemma_items_reordered_len(xs.drop_last(), ys.drop_last(), k);
        lemma_reordered_len(xs[n], ys[n], k);
    }
}

proof fn lemma_reordered_len(a: JsonValue, b: JsonValue, ind: nat)
    requires
        members_reordered(a, b),
    ensures
        write_value_text(a, ind).len() == write_value_text(b, ind).len(),
    decreases a, 1nat,
{
    match a {
        JsonValue::List(xs) => {
            let ys = b->List_0;
            lemma_items_reordered_len(xs, ys, ind + 1);
        },
        JsonValue::Object(ms) => {
            let ns = b->Object_0;
            let k = ind + 1;
            let perm = choose|perm: Seq<int>|
                #[trigger] key_order(ms, ns, perm) && forall|j: int|
                    0 <= j < ns.len() ==> members_reordered(ms[perm[j]].1, #[trigger] ns[j].1);
            let f = |m: (Seq<char>, JsonValue)| member_len(m, k);
            let xs = ms.map_values(f);
            let ys = ns.map_values(f);
            assert forall|j: int| 0 <= j < ys.len() implies 0 <= #[trigger] perm[j] < xs.len() && ys[j]
                == xs[perm[j]] by {
                assert(0 <= perm[j] < ms.len() && ns[j].0 == ms[perm[j]].0);
                assert(members_reordered(ms[perm[j]].1, ns[j].1));
                lemma_reordered_len(ms[perm[j]].1, ns[j].1, k);
            }
            lemma_sum_reordered(xs, ys, perm);
            lemma_members_len(ms, k);
            lemma_members_len(ns, k);
        },
        _ => {},
    }
}

/// Values whose objects hold the same members in another order are written
/// as texts of the same length.
pub proof fn law_reordered_members_keep_text_length(a: JsonValue, b: JsonValue, ind: nat)
    requires
        members_reordered(a, b),
    ensures
        write_value_text(a, ind).len() == write_value_text(b, ind).len(),
{
    lemma_reordered_len(a, b, ind);
}

/// Values that are the same as maps are written as texts of the same length.
pub proof fn law_same_maps_keep_text_length(a: JsonValue, b: JsonValue, ind: nat)
    requires
        same_as_maps(a, b),
    ensures
        write_value_text(a, ind).len() == write_value_text(b, ind).len(),
{
    law_same_maps_differ_in_member_order(a, b);
    law_reordered_members_keep_text_length(a, b, ind);
}

/// A scalar written at indentation `n` is `n` tabs and then its own text,
/// whatever that text is: a decimal number's text as it is held, a string
/// between quotes as it is held, `true`, `false` and `null` as words, and an
/// integer as digits (after a `-` when it is negative) that read as it.
pub proof fn law_scalars_written_as_held(n: nat, t: Seq<char>, s: Seq<char>, i: int)
    ensures
        write_value_text(JsonValue::Float(t), n) == tabs(n) + t,
        write_value_text(JsonValue::Str(s), n) == tabs(n) + (seq!['"'] + s + seq!['"']),
        write_value_text(JsonValue::Bool(true), n) == tabs(n) + seq!['t', 'r', 'u', 'e'],
        write_value_text(JsonValue::Bool(false), n) == tabs(n) + seq!['f', 'a', 'l', 's', 'e'],
        write_value_text(JsonValue::Null, n) == tabs(n) + seq!['n', 'u', 'l', 'l'],
        write_value_text(JsonValue::Int(i), n).subrange(0, n as int) == tabs(n),
        crate::text::signed_decimal_value(
            write_value_text(JsonValue::Int(i), n).subrange(n as int, write_value_text(JsonValue::Int(i), n).len() as int),
        ) == Some(i),
{
    assert(write_value_text(JsonValue::Str(s), n) =~= tabs(n) + (seq!['"'] + s + seq!['"']));
    let w = write_value_text(JsonValue::Int(i), n);
    let d = crate::text::int_text(i);
    assert(w.subrange(0, n as int) =~= tabs(n));
    assert(w.subrange(n as int, w.len() as int) =~= d);
    if i < 0 {
        crate::text::lemma_nat_text((-i) as nat);
        assert(d.drop_first() =~= crate::text::nat_text((-i) as nat));
    } else {
        crate::text::lemma_nat_text(i as nat);
        assert(d[0] != '-');
    }
}

} // verus!
