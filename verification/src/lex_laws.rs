//! Laws of the lexer: where a piece of text lexes the same wherever it stands.

use vstd::prelude::*;
use crate::json_lexer::{LexemeV, LexResult, LexStep, NumberEnd, lex_from, lex_step, number_end, prepend_lexemes,
    spec_lex, string_end, lemma_prepend_prepend, lemma_string_end_bounds, lemma_number_end_bounds,
    lemma_lex_step_advances};
use crate::text::is_digit;

verus! {

/// `r` moved `off` places to the right.
pub open spec fn shift_string_end(r: Option<int>, off: int) -> Option<int> {
    match r {
        Some(e) => Some(e + off),
        None => None,
    }
}

pub open spec fn shift_number_end(r: NumberEnd, off: int) -> NumberEnd {
    match r {
        NumberEnd::End(e, d) => NumberEnd::End(e + off, d),
        other => other,
    }
}

pub open spec fn shift_step(r: LexStep, off: int) -> LexStep {
    match r {
        LexStep::Token(t, e) => LexStep::Token(t, e + off),
        other => other,
    }
}

proof fn lemma_string_end_shift(p: Seq<char>, s: Seq<char>, j: int)
    requires
        0 <= j,
    ensures
        string_end(p + s, p.len() + j) == shift_string_end(string_end(s, j), p.len() as int),
    decreases s.len() - j,
{
    if j < s.len() {
        assert((p + s)[p.len() + j] == s[j]);
        if s[j] == '\\' {
            if j + 1 < s.len() {
                lemma_string_end_shift(p, s, j + 2);
            }
        } else if s[j] != '"' {
            lemma_string_end_shift(p, s, j + 1);
        }
    }
}

proof fn lemma_number_end_shift(p: Seq<char>, s: Seq<char>, j: int, dot: bool)
    requires
        0 <= j,
    ensures
        number_end(p + s, p.len() + j, dot) == shift_number_end(number_end(s, j, dot), p.len() as int),
    decreases s.len() - j,
{
    if j < s.len() {
        assert((p + s)[p.len() + j] == s[j]);
        if j + 1 < s.len() {
            assert((p + s)[p.len() + j + 1] == s[j + 1]);
        }
        if s[j] == '.' {
            if !dot && j + 1 < s.len() && is_digit(s[j + 1]) {
                lemma_number_end_shift(p, s, j + 2, true);
            }
        } else if is_digit(s[j]) {
            lemma_number_end_shift(p, s, j + 1, dot);
        }
    }
}

proof fn lemma_lex_step_shift(p: Seq<char>, s: Seq<char>, j: int)
    requires
        0 <= j < s.len(),
    ensures
        lex_step(p + s, p.len() + j) == shift_step(lex_step(s, j), p.len() as int),
{
    let cs = p + s;
    let off = p.len() as int;
    assert(cs[off + j] == s[j]);
    lemma_string_end_shift(p, s, j + 1);
    lemma_number_end_shift(p, s, j + 1, false);
    lemma_string_end_bounds(s, j + 1);
    lemma_number_end_bounds(s, j + 1, false);
    if let Some(e) = string_end(s, j + 1) {
        assert(cs.subrange(off + j + 1, off + e) =~= s.subrange(j + 1, e));
    }
    if let NumberEnd::End(e, d) = number_end(s, j + 1, false) {
        assert(cs.subrange(off + j, off + e) =~= s.subrange(j, e));
    }
    assert forall|n: int| 0 <= n && j + n <= s.len() implies #[trigger] cs.subrange(off + j, off + j + n)
        =~= s.subrange(j, j + n) by {}
}

/// Lexing does not look before the position it starts from.
pub proof fn lemma_lex_from_shift(p: Seq<char>, s: Seq<char>, j: int)
    requires
        0 <= j,
    ensures
        lex_from(p + s, p.len() + j) == lex_from(s, j),
    decreases s.len() - j,
{
    if j < s.len() {
        lemma_lex_step_shift(p, s, j);
        lemma_lex_step_advances(s, j);
        match lex_step(s, j) {
            LexStep::Skip => {
                lemma_lex_from_shift(p, s, j + 1);
            },
            LexStep::Token(t, e) => {
                lemma_lex_from_shift(p, s, e);
            },
            LexStep::Stop(_) => {},
        }
    }
}

/// Leading tabs, newlines and spaces do not change what lexing gives.
pub proof fn law_leading_white_space(w: Seq<char>, s: Seq<char>)
    requires
        forall|k: int| 0 <= k < w.len() ==> #[trigger] w[k] == ' ' || w[k] == '\t' || w[k] == '\n',
    ensures
        spec_lex(w + s) == spec_lex(s),
{
    lemma_skip_white(w, s, 0);
    lemma_lex_from_shift(w, s, 0);
}

proof fn lemma_skip_white(w: Seq<char>, s: Seq<char>, j: int)
    requires
        0 <= j <= w.len(),
        forall|k: int| 0 <= k < w.len() ==> #[trigger] w[k] == ' ' || w[k] == '\t' || w[k] == '\n',
    ensures
        lex_from(w + s, j) == lex_from(w + s, w.len() as int),
    decreases w.len() - j,
{
    if j < w.len() {
        assert((w + s)[j] == w[j]);
        lemma_skip_white(w, s, j + 1);
    }
}

/// Whether no number can go on at the start of `r`.
pub open spec fn starts_at_boundary(r: Seq<char>) -> bool {
    r.len() == 0 || !(is_digit(r[0]) || r[0] == '.')
}

proof fn lemma_string_end_prefix(a: Seq<char>, r: Seq<char>, j: int)
    requires
        0 <= j,
        string_end(a, j) is Some,
    ensures
        string_end(a + r, j) == string_end(a, j),
    decreases a.len() - j,
{
    assert((a + r)[j] == a[j]);
    if a[j] == '\\' {
        lemma_string_end_prefix(a, r, j + 2);
    } else if a[j] != '"' {
        lemma_string_end_prefix(a, r, j + 1);
    }
}

proof fn lemma_number_end_prefix(a: Seq<char>, r: Seq<char>, j: int, dot: bool)
    requires
        0 <= j <= a.len(),
        starts_at_boundary(r),
        number_end(a, j, dot) is End,
    ensures
        number_end(a + r, j, dot) == number_end(a, j, dot),
    decreases a.len() - j,
{
    if j < a.len() {
        assert((a + r)[j] == a[j]);
        if j + 1 < a.len() {
            assert((a + r)[j + 1] == a[j + 1]);
        }
        if a[j] == '.' {
            if !dot && j + 1 < a.len() && is_digit(a[j + 1]) {
                lemma_number_end_prefix(a, r, j + 2, true);
            }
        } else if is_digit(a[j]) {
            lemma_number_end_prefix(a, r, j + 1, dot);
        }
    } else if r.len() > 0 {
        assert((a + r)[j] == r[0]);
    }
}

/// A lexeme read in `a` is read the same when `a` is followed by text that
/// cannot go on a number.
proof fn lemma_lex_step_prefix(a: Seq<char>, r: Seq<char>, i: int)
    requires
        0 <= i < a.len(),
        starts_at_boundary(r),
        !(lex_step(a, i) is Stop),
    ensures
        lex_step(a + r, i) == lex_step(a, i),
{
    let cs = a + r;
    assert(cs[i] == a[i]);
    lemma_lex_step_advances(a, i);
    lemma_string_end_bounds(a, i + 1);
    lemma_number_end_bounds(a, i + 1, false);
    if let Some(e) = string_end(a, i + 1) {
        lemma_string_end_prefix(a, r, i + 1);
        assert(cs.subrange(i + 1, e) =~= a.subrange(i + 1, e));
    }
    if let NumberEnd::End(e, d) = number_end(a, i + 1, false) {
        if i + 1 <= a.len() {
            lemma_number_end_prefix(a, r, i + 1, false);
        }
        if e <= a.len() {
            assert(cs.subrange(i, e) =~= a.subrange(i, e));
        }
    }
    assert forall|n: int| 0 <= n && i + n <= a.len() implies #[trigger] cs.subrange(i, i + n) =~= a.subrange(
        i,
        i + n,
    ) by {}
}

/// What `a` lexes to from `i` on comes first in what `a + r` lexes to.
proof fn lemma_lex_prefix(a: Seq<char>, r: Seq<char>, i: int)
    requires
        0 <= i <= a.len(),
        starts_at_boundary(r),
        lex_from(a, i) is Lexemes,
    ensures
        lex_from(a + r, i) == prepend_lexemes(lex_from(a, i)->Lexemes_0, lex_from(a + r, a.len() as int)),
    decreases a.len() - i,
{
    if i == a.len() {
        let x = lex_from(a + r, i);
        if let LexResult::Lexemes(rest) = x {
            assert(Seq::empty() + rest =~= rest);
        }
    } else {
        lemma_lex_step_advances(a, i);
        lemma_lex_step_prefix(a, r, i);
        match lex_step(a, i) {
            LexStep::Skip => {
                lemma_lex_prefix(a, r, i + 1);
            },
            LexStep::Token(t, j) => {
                lemma_lex_prefix(a, r, j);
                lemma_prepend_prepend(seq![t], lex_from(a, j)->Lexemes_0, lex_from(a + r, a.len() as int));
            },
            LexStep::Stop(_) => {},
        }
    }
}

/// Lexing two texts that lex, joined by a space, gives the lexemes of the
/// first followed by those of the second.
pub proof fn law_lex_join(a: Seq<char>, b: Seq<char>)
    requires
        spec_lex(a) is Lexemes,
        spec_lex(b) is Lexemes,
    ensures
        spec_lex(a + seq![' '] + b) == LexResult::Lexemes(
            spec_lex(a)->Lexemes_0 + spec_lex(b)->Lexemes_0,
        ),
{
    let r = seq![' '] + b;
    assert(a + seq![' '] + b =~= a + r);
    lemma_lex_prefix(a, r, 0);
    assert((a + r)[a.len() as int] == ' ');
    assert(lex_from(a + r, a.len() as int) == lex_from(a + r, a.len() + 1int));
    assert(a + r =~= (a + seq![' ']) + b);
    lemma_lex_from_shift(a + seq![' '], b, 0);
}

/// Whether `s` can stand between the quotes of a string: each quote and each
/// backslash in it comes right after a backslash that starts a pair, and a
/// backslash is followed by one character of any kind.
pub open spec fn string_body(s: Seq<char>) -> bool
    decreases s.len(),
{
    if s.len() == 0 {
        true
    } else if s[0] == '"' {
        false
    } else if s[0] == '\\' {
        s.len() >= 2 && string_body(s.subrange(2, s.len() as int))
    } else {
        string_body(s.subrange(1, s.len() as int))
    }
}

/// A string body followed by a quote is closed by that quote.
proof fn lemma_string_body_end(cs: Seq<char>, off: int, s: Seq<char>)
    requires
        string_body(s),
        0 <= off,
        off + s.len() < cs.len(),
        cs.subrange(off, off + s.len()) == s,
        cs[off + s.len()] == '"',
    ensures
        string_end(cs, off) == Some(off + s.len()),
    decreases s.len(),
{
    if s.len() > 0 {
        assert(cs[off] == s[0]);
        if s[0] == '\\' {
            let t = s.subrange(2, s.len() as int);
            assert(cs.subrange(off + 2, off + 2 + t.len()) =~= t);
            lemma_string_body_end(cs, off + 2, t);
        } else {
            let t = s.subrange(1, s.len() as int);
            assert(cs.subrange(off + 1, off + 1 + t.len()) =~= t);
            lemma_string_body_end(cs, off + 1, t);
        }
    }
}

/// Wherever it stands in a text, a quote, a string body `s` and a quote lex as
/// one string lexeme holding `s`, backslashes and the characters after them
/// included, whatever those characters are; lexing goes on after the
/// closing quote.
pub proof fn law_string_lexeme(cs: Seq<char>, i: int, s: Seq<char>)
    requires
        string_body(s),
        0 <= i,
        i + s.len() + 2 <= cs.len(),
        cs[i] == '"',
        cs.subrange(i + 1, i + 1 + s.len()) == s,
        cs[i + 1 + s.len()] == '"',
    ensures
        lex_from(cs, i) == prepend_lexemes(
            seq![LexemeV::String(s)],
            lex_from(cs, i + s.len() + 2),
        ),
{
    lemma_string_body_end(cs, i + 1, s);
    lemma_lex_step_advances(cs, i);
    assert(lex_step(cs, i) == LexStep::Token(LexemeV::String(s), i + s.len() + 2));
}

/// The text of a string, a quote, a string body `s` and a quote, lexes as
/// the one lexeme `String(s)`.
pub proof fn law_string_text(s: Seq<char>)
    requires
        string_body(s),
    ensures
        spec_lex(seq!['"'] + s + seq!['"']) == LexResult::Lexemes(seq![LexemeV::String(s)]),
{
    let cs = seq!['"'] + s + seq!['"'];
    assert(cs.subrange(1, 1 + s.len() as int) =~= s);
    law_string_lexeme(cs, 0, s);
    assert(lex_from(cs, s.len() + 2int) == LexResult::Lexemes(Seq::<LexemeV>::empty()));
    assert(seq![LexemeV::String(s)] + Seq::<LexemeV>::empty() =~= seq![LexemeV::String(s)]);
}

/// A string body with no quote after it runs to the end of the text.
proof fn lemma_string_body_open(cs: Seq<char>, off: int, s: Seq<char>)
    requires
        string_body(s),
        0 <= off,
        off + s.len() == cs.len(),
        cs.subrange(off, off + s.len()) == s,
    ensures
        string_end(cs, off) is None,
    decreases s.len(),
{
    if s.len() > 0 {
        assert(cs[off] == s[0]);
        if s[0] == '\\' {
            let t = s.subrange(2, s.len() as int);
            assert(cs.subrange(off + 2, off + 2 + t.len()) =~= t);
            lemma_string_body_open(cs, off + 2, t);
        } else {
            let t = s.subrange(1, s.len() as int);
            assert(cs.subrange(off + 1, off + 1 + t.len()) =~= t);
            lemma_string_body_open(cs, off + 1, t);
        }
    }
}

/// A string that is opened and never closed, its body running to the end of
/// the text, is an unterminated string, whatever comes before it.
pub proof fn law_unterminated_string(cs: Seq<char>, i: int, s: Seq<char>)
    requires
        string_body(s),
        0 <= i,
        i + 1 + s.len() == cs.len(),
        cs[i] == '"',
        cs.subrange(i + 1, cs.len() as int) == s,
    ensures
        lex_from(cs, i) == LexResult::StringNotTerminated,
        spec_lex(seq!['"'] + s) == LexResult::StringNotTerminated,
{
    lemma_string_body_open(cs, i + 1, s);
    let t = seq!['"'] + s;
    assert(t.subrange(1, t.len() as int) =~= s);
    lemma_string_body_open(t, 1, s);
}

/// A character that starts no lexeme and no white space (anything but a
/// space, tab, newline, one of `:,[]{}"`, a digit other than `0`, `-`, `t`,
/// `f` and `n`) makes lexing fail with `UnknownCharacter`, whatever follows it.
pub proof fn law_unknown_character(cs: Seq<char>, i: int)
    requires
        0 <= i < cs.len(),
        !(cs[i] == ' ' || cs[i] == '\t' || cs[i] == '\n' || cs[i] == ':' || cs[i] == ',' || cs[i] == '['
            || cs[i] == ']' || cs[i] == '{' || cs[i] == '}' || cs[i] == '"' || ('1' <= cs[i] && cs[i]
            <= '9') || cs[i] == '-' || cs[i] == 't' || cs[i] == 'f' || cs[i] == 'n'),
    ensures
        lex_from(cs, i) == LexResult::UnknownCharacter,
{
}

/// Each punctuation character lexes as its own lexeme, whatever follows it.
pub proof fn law_punctuation(cs: Seq<char>, i: int)
    requires
        0 <= i < cs.len(),
    ensures
        cs[i] == ':' ==> lex_from(cs, i) == prepend_lexemes(seq![LexemeV::Colon], lex_from(cs, i + 1)),
        cs[i] == ',' ==> lex_from(cs, i) == prepend_lexemes(seq![LexemeV::Comma], lex_from(cs, i + 1)),
        cs[i] == '[' ==> lex_from(cs, i) == prepend_lexemes(seq![LexemeV::OpenBracket], lex_from(cs, i + 1)),
        cs[i] == ']' ==> lex_from(cs, i) == prepend_lexemes(seq![LexemeV::CloseBracket], lex_from(cs, i + 1)),
        cs[i] == '{' ==> lex_from(cs, i) == prepend_lexemes(seq![LexemeV::OpenBrace], lex_from(cs, i + 1)),
        cs[i] == '}' ==> lex_from(cs, i) == prepend_lexemes(seq![LexemeV::CloseBrace], lex_from(cs, i + 1)),
{
}

/// A keyword (`true`, `false` or `null`) lexes as its value wherever it
/// stands; a text that starts like one, is long enough to hold it and holds
/// something else is refused as an unknown character.
pub proof fn law_keywords(cs: Seq<char>, i: int, w: Seq<char>, l: LexemeV)
    requires
        0 <= i,
        (w == seq!['t', 'r', 'u', 'e'] && l == LexemeV::Bool(true)) || (w == seq!['f', 'a', 'l', 's', 'e']
            && l == LexemeV::Bool(false)) || (w == seq!['n', 'u', 'l', 'l'] && l == LexemeV::Null),
        i + w.len() <= cs.len(),
        cs[i] == w[0],
    ensures
        cs.subrange(i, i + w.len()) == w ==> lex_from(cs, i) == prepend_lexemes(
            seq![l],
            lex_from(cs, i + w.len()),
        ),
        cs.subrange(i, i + w.len()) != w ==> lex_from(cs, i) == LexResult::UnknownCharacter,
{
    lemma_lex_step_advances(cs, i);
}

} // verus!
