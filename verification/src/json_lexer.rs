//! The lexer: from the characters of a text to a sequence of lexemes.

use vstd::prelude::*;
use string_builder::Builder;
use crate::builder::{builder_new, push_char, take_string};
use crate::text::{is_digit, signed_decimal_value, digits_to_u64};

verus! {

/// A lexeme of JSON text.
///
/// `Float` holds the text of a number with a decimal point, exactly as it was
/// written (a sign, digits and one `.`).
#[derive(Debug, PartialEq)]
pub enum Lexeme {
    String(String),
    Float(String),
    Int(i64),
    Bool(bool),
    OpenBrace,
    CloseBrace,
    OpenBracket,
    CloseBracket,
    Colon,
    Comma,
    Null,
}

/// What the lexer makes of a text.
#[derive(Debug, PartialEq)]
pub enum LexOutput {
    Lexemes(Vec<Lexeme>),
    StringNotTerminated,
    MultipleDecimalsInFloat,
    UnknownCharacter,
}

/// The model of a lexeme.
pub enum LexemeV {
    String(Seq<char>),
    Float(Seq<char>),
    Int(int),
    Bool(bool),
    OpenBrace,
    CloseBrace,
    OpenBracket,
    CloseBracket,
    Colon,
    Comma,
    Null,
}

/// The outcome of lexing a text. `Aborts` stands for the texts on which the
/// lexer cannot finish: it would read past the end of the text, or a number
/// it has delimited cannot be read as one (`-`, `-.`, or an integer outside
/// the range of `i64`).
pub enum LexResult {
    Lexemes(Seq<LexemeV>),
    StringNotTerminated,
    MultipleDecimalsInFloat,
    UnknownCharacter,
    Aborts,
}

impl View for Lexeme {
    type V = LexemeV;

    open spec fn view(&self) -> LexemeV {
        match *self {
            Lexeme::String(s) => LexemeV::String(s@),
            Lexeme::Float(t) => LexemeV::Float(t@),
            Lexeme::Int(i) => LexemeV::Int(i as int),
            Lexeme::Bool(b) => LexemeV::Bool(b),
            Lexeme::OpenBrace => LexemeV::OpenBrace,
            Lexeme::CloseBrace => LexemeV::CloseBrace,
            Lexeme::OpenBracket => LexemeV::OpenBracket,
            Lexeme::CloseBracket => LexemeV::CloseBracket,
            Lexeme::Colon => LexemeV::Colon,
            Lexeme::Comma => LexemeV::Comma,
            Lexeme::Null => LexemeV::Null,
        }
    }
}

/// The models of a sequence of lexemes.
pub open spec fn lexemes_view(ls: Seq<Lexeme>) -> Seq<LexemeV> {
    ls.map_values(|l: Lexeme| l@)
}

impl View for LexOutput {
    type V = LexResult;

    open spec fn view(&self) -> LexResult {
        match *self {
            LexOutput::Lexemes(ls) => LexResult::Lexemes(lexemes_view(ls@)),
            LexOutput::StringNotTerminated => LexResult::StringNotTerminated,
            LexOutput::MultipleDecimalsInFloat => LexResult::MultipleDecimalsInFloat,
            LexOutput::UnknownCharacter => LexResult::UnknownCharacter,
        }
    }
}

/// Index of the quote that closes a string whose contents start at `j`;
/// a backslash takes the character after it into the contents, whatever it
/// is. `None` when the text ends first.
pub open spec fn string_end(cs: Seq<char>, j: int) -> Option<int>
    decreases cs.len() - j,
{
    if j < 0 || j >= cs.len() {
        None
    } else if cs[j] == '\\' {
        if j + 1 >= cs.len() {
            None
        } else {
            string_end(cs, j + 2)
        }
    } else if cs[j] == '"' {
        Some(j)
    } else {
        string_end(cs, j + 1)
    }
}

/// Where a number that goes on at `j` ends.
pub enum NumberEnd {
    /// The number ends before index `0`; `1` tells whether it has a decimal point.
    End(int, bool),
    /// A second decimal point follows the digits after the first.
    MultipleDots,
    /// A decimal point is the last character of the text.
    Aborts,
}

/// The extent of a number whose first character has been read and whose
/// remaining characters start at `j`: digits, and at most one `.` (a digit
/// must be read right after a `.`, which must therefore not end the text).
pub open spec fn number_end(cs: Seq<char>, j: int, dot: bool) -> NumberEnd
    decreases cs.len() - j,
{
    if j < 0 || j >= cs.len() {
        NumberEnd::End(j, dot)
    } else if cs[j] == '.' {
        if dot {
            NumberEnd::MultipleDots
        } else if j + 1 >= cs.len() {
            NumberEnd::Aborts
        } else if is_digit(cs[j + 1]) {
            number_end(cs, j + 2, true)
        } else {
            NumberEnd::End(j + 1, true)
        }
    } else if is_digit(cs[j]) {
        number_end(cs, j + 1, dot)
    } else {
        NumberEnd::End(j, dot)
    }
}

/// Whether some character of `t` is a digit.
pub open spec fn has_digit(t: Seq<char>) -> bool {
    exists|k: int| 0 <= k < t.len() && is_digit(#[trigger] t[k])
}

/// The lexeme for the text of a number, `None` when it cannot be read as one:
/// a text with a decimal point needs a digit, an integer needs digits after
/// its sign and must fit in an `i64`.
pub open spec fn number_lexeme(text: Seq<char>, dot: bool) -> Option<LexemeV> {
    if dot {
        if has_digit(text) {
            Some(LexemeV::Float(text))
        } else {
            None
        }
    } else {
        match signed_decimal_value(text) {
            Some(v) => if i64::MIN <= v <= i64::MAX {
                Some(LexemeV::Int(v))
            } else {
                None
            },
            None => None,
        }
    }
}

/// What lexing does at a position.
pub enum LexStep {
    /// White space: go on with the next character.
    Skip,
    /// A lexeme, and the index just after it.
    Token(LexemeV, int),
    /// Lexing stops with this outcome.
    Stop(LexResult),
}

/// Whether `cs` has the characters of `word` from index `i` on.
pub open spec fn word_at(cs: Seq<char>, i: int, word: Seq<char>) -> bool {
    &&& 0 <= i
    &&& i + word.len() <= cs.len()
    &&& cs.subrange(i, i + word.len()) == word
}

/// A keyword (`true`, `false`, `null`) at `i`, whose first letter has been
/// recognised: the whole word must lie inside the text, else lexing aborts.
pub open spec fn keyword_step(cs: Seq<char>, i: int, word: Seq<char>, lexeme: LexemeV) -> LexStep {
    if i + word.len() > cs.len() {
        LexStep::Stop(LexResult::Aborts)
    } else if word_at(cs, i, word) {
        LexStep::Token(lexeme, i + word.len())
    } else {
        LexStep::Stop(LexResult::UnknownCharacter)
    }
}

/// The lexing step at index `i` of `cs`.
pub open spec fn lex_step(cs: Seq<char>, i: int) -> LexStep {
    let c = cs[i];
    if c == '\t' || c == '\n' || c == ' ' {
        LexStep::Skip
    } else if c == ':' {
        LexStep::Token(LexemeV::Colon, i + 1)
    } else if c == ',' {
        LexStep::Token(LexemeV::Comma, i + 1)
    } else if c == '[' {
        LexStep::Token(LexemeV::OpenBracket, i + 1)
    } else if c == ']' {
        LexStep::Token(LexemeV::CloseBracket, i + 1)
    } else if c == '{' {
        LexStep::Token(LexemeV::OpenBrace, i + 1)
    } else if c == '}' {
        LexStep::Token(LexemeV::CloseBrace, i + 1)
    } else if c == '"' {
        match string_end(cs, i + 1) {
            Some(e) => LexStep::Token(LexemeV::String(cs.subrange(i + 1, e)), e + 1),
            None => LexStep::Stop(LexResult::StringNotTerminated),
        }
    } else if ('1' <= c && c <= '9') || c == '-' {
        match number_end(cs, i + 1, false) {
            NumberEnd::End(e, dot) => match number_lexeme(cs.subrange(i, e), dot) {
                Some(l) => LexStep::Token(l, e),
                None => LexStep::Stop(LexResult::Aborts),
            },
            NumberEnd::MultipleDots => LexStep::Stop(LexResult::MultipleDecimalsInFloat),
            NumberEnd::Aborts => LexStep::Stop(LexResult::Aborts),
        }
    } else if c == 't' {
        keyword_step(cs, i, seq!['t', 'r', 'u', 'e'], LexemeV::Bool(true))
    } else if c == 'f' {
        keyword_step(cs, i, seq!['f', 'a', 'l', 's', 'e'], LexemeV::Bool(false))
    } else if c == 'n' {
        keyword_step(cs, i, seq!['n', 'u', 'l', 'l'], LexemeV::Null)
    } else {
        LexStep::Stop(LexResult::UnknownCharacter)
    }
}

/// `ts` put in front of the lexemes of `r`; errors are kept as they are.
pub open spec fn prepend_lexemes(ts: Seq<LexemeV>, r: LexResult) -> LexResult {
    match r {
        LexResult::Lexemes(rest) => LexResult::Lexemes(ts + rest),
        other => other,
    }
}

/// The outcome of lexing `cs` from index `i` on.
pub open spec fn lex_from(cs: Seq<char>, i: int) -> LexResult
    decreases cs.len() - i,
{
    if i < 0 || i >= cs.len() {
        LexResult::Lexemes(Seq::empty())
    } else {
        proof {
            lemma_lex_step_advances(cs, i);
        }
        match lex_step(cs, i) {
            LexStep::Skip => lex_from(cs, i + 1),
            LexStep::Token(t, j) => prepend_lexemes(seq![t], lex_from(cs, j)),
            LexStep::Stop(r) => r,
        }
    }
}

/// The outcome of lexing the text `cs`.
pub open spec fn spec_lex(cs: Seq<char>) -> LexResult {
    lex_from(cs, 0)
}

pub proof fn lemma_string_end_bounds(cs: Seq<char>, j: int)
    ensures
        string_end(cs, j) matches Some(e) ==> j <= e < cs.len() && cs[e] == '"',
    decreases cs.len() - j,
{
    if 0 <= j < cs.len() {
        if cs[j] == '\\' {
            if j + 1 < cs.len() {
                lemma_string_end_bounds(cs, j + 2);
            }
        } else if cs[j] != '"' {
            lemma_string_end_bounds(cs, j + 1);
        }
    }
}

pub proof fn lemma_number_end_bounds(cs: Seq<char>, j: int, dot: bool)
    requires
        0 <= j,
    ensures
        number_end(cs, j, dot) matches NumberEnd::End(e, _) ==> j <= e && (e <= cs.len() || e == j),
    decreases cs.len() - j,
{
    if 0 <= j < cs.len() {
        if cs[j] == '.' {
            if !dot && j + 1 < cs.len() && is_digit(cs[j + 1]) {
                lemma_number_end_bounds(cs, j + 2, true);
            }
        } else if is_digit(cs[j]) {
            lemma_number_end_bounds(cs, j + 1, dot);
        }
    }
}

/// A lexeme ends after the position it starts at, and within the text.
pub proof fn lemma_lex_step_advances(cs: Seq<char>, i: int)
    requires
        0 <= i < cs.len(),
    ensures
        lex_step(cs, i) matches LexStep::Token(_, j) ==> i < j <= cs.len(),
{
    lemma_string_end_bounds(cs, i + 1);
    lemma_number_end_bounds(cs, i + 1, false);
}

/// Reads the contents of a string that start at `start`, up to its closing
/// quote, whose index comes back with the contents.
fn lex_string_contents(cs: &Vec<char>, start: usize) -> (r: Option<(String, usize)>)
    requires
        start <= cs@.len(),
    ensures
        match r {
            Some((s, e)) => string_end(cs@, start as int) == Some(e as int) && s@ == cs@.subrange(
                start as int,
                e as int,
            ),
            None => string_end(cs@, start as int) is None,
        },
{
    let len = cs.len();
    let mut b: Builder = builder_new();
    let mut i = start;
    proof {
        assert(cs@.subrange(start as int, start as int) =~= Seq::<char>::empty());
    }
    while i < len
        invariant
            start <= i <= len,
            len == cs@.len(),
            string_end(cs@, i as int) == string_end(cs@, start as int),
            crate::builder::builder_bytes(b) == vstd::utf8::encode_utf8(cs@.subrange(start as int, i as int)),
        decreases len - i,
    {
        if cs[i] == '\\' {
            push_char(&mut b, cs[i], Ghost(cs@.subrange(start as int, i as int)));
            assert(cs@.subrange(start as int, i as int).push(cs@[i as int]) =~= cs@.subrange(
                start as int,
                i + 1,
            ));
            i = i + 1;
            if i == len {
                return None;
            }
            push_char(&mut b, cs[i], Ghost(cs@.subrange(start as int, i as int)));
            assert(cs@.subrange(start as int, i as int).push(cs@[i as int]) =~= cs@.subrange(
                start as int,
                i + 1,
            ));
            i = i + 1;
        } else if cs[i] == '"' {
            let s = take_string(b, Ghost(cs@.subrange(start as int, i as int)));
            return Some((s, i));
        } else {
            push_char(&mut b, cs[i], Ghost(cs@.subrange(start as int, i as int)));
            assert(cs@.subrange(start as int, i as int).push(cs@[i as int]) =~= cs@.subrange(
                start as int,
                i + 1,
            ));
            i = i + 1;
        }
    }
    None
}

/// What reading a number gives.
enum NumberLex {
    Token(Lexeme, usize),
    MultipleDots,
    Aborts,
}

/// The lexeme for the number `cs[start..e]`, whose text `b` holds.
fn number_token(cs: &Vec<char>, start: usize, e: usize, b: Builder, dot: bool, digit: bool) -> (r: NumberLex)
    requires
        start < e <= cs@.len(),
        ('1' <= cs@[start as int] && cs@[start as int] <= '9') || cs@[start as int] == '-',
        crate::builder::builder_bytes(b) == vstd::utf8::encode_utf8(cs@.subrange(start as int, e as int)),
        digit == has_digit(cs@.subrange(start as int, e as int)),
        !dot ==> forall|m: int| start < m < e ==> is_digit(#[trigger] cs@[m]),
    ensures
        match r {
            NumberLex::Token(l, end) => end == e && number_lexeme(
                cs@.subrange(start as int, e as int),
                dot,
            ) == Some(l@),
            NumberLex::Aborts => number_lexeme(cs@.subrange(start as int, e as int), dot) is None,
            NumberLex::MultipleDots => false,
        },
{
    let ghost text = cs@.subrange(start as int, e as int);
    let s = take_string(b, Ghost(text));
    if dot {
        if digit {
            NumberLex::Token(Lexeme::Float(s), e)
        } else {
            NumberLex::Aborts
        }
    } else if cs[start] == '-' {
        if e == start + 1 {
            return NumberLex::Aborts;
        }
        assert(text.drop_first() =~= cs@.subrange(start + 1, e as int));
        match digits_to_u64(cs, start + 1, e) {
            Some(m) => {
                if m <= 9223372036854775808u64 {
                    let v: i64 = if m == 9223372036854775808u64 {
                        i64::MIN
                    } else {
                        -(m as i64)
                    };
                    NumberLex::Token(Lexeme::Int(v), e)
                } else {
                    NumberLex::Aborts
                }
            },
            None => NumberLex::Aborts,
        }
    } else {
        assert(forall|m: int| start <= m < e ==> is_digit(#[trigger] cs@[m]));
        match digits_to_u64(cs, start, e) {
            Some(m) => {
                if m <= 9223372036854775807u64 {
                    NumberLex::Token(Lexeme::Int(m as i64), e)
                } else {
                    NumberLex::Aborts
                }
            },
            None => NumberLex::Aborts,
        }
    }
}

/// Reads a number whose first character, a digit other than `0` or a minus
/// sign, is at `start`.
fn lex_number(cs: &Vec<char>, start: usize) -> (r: NumberLex)
    requires
        start < cs@.len(),
        ('1' <= cs@[start as int] && cs@[start as int] <= '9') || cs@[start as int] == '-',
    ensures
        match r {
            NumberLex::Token(l, e) => number_end(cs@, start + 1, false) == NumberEnd::End(
                e as int,
                number_end(cs@, start + 1, false)->End_1,
            ) && number_lexeme(
                cs@.subrange(start as int, e as int),
                number_end(cs@, start + 1, false)->End_1,
            ) == Some(l@),
            NumberLex::MultipleDots => number_end(cs@, start + 1, false) is MultipleDots,
            NumberLex::Aborts => number_end(cs@, start + 1, false) is Aborts || (number_end(
                cs@,
                start + 1,
                false,
            ) matches NumberEnd::End(e, dot) && number_lexeme(cs@.subrange(start as int, e), dot) is None),
        },
{
    let len = cs.len();
    let mut b: Builder = builder_new();
    proof {
        assert(Seq::<char>::empty().push(cs@[start as int]) =~= cs@.subrange(start as int, start + 1));
        lemma_encode_empty();
    }
    push_char(&mut b, cs[start], Ghost(Seq::<char>::empty()));
    let mut i = start + 1;
    let mut dot = false;
    let mut digit = cs[start] != '-';
    proof {
        if digit {
            assert(is_digit(cs@.subrange(start as int, i as int)[0]));
        } else {
            assert(!has_digit(cs@.subrange(start as int, i as int)));
        }
    }
    while i < len
        invariant
            start < i <= len,
            len == cs@.len(),
            ('1' <= cs@[start as int] && cs@[start as int] <= '9') || cs@[start as int] == '-',
            number_end(cs@, i as int, dot) == number_end(cs@, start + 1, false),
            crate::builder::builder_bytes(b) == vstd::utf8::encode_utf8(cs@.subrange(start as int, i as int)),
            digit == has_digit(cs@.subrange(start as int, i as int)),
            !dot ==> forall|m: int| start < m < i ==> is_digit(#[trigger] cs@[m]),
        decreases len - i,
    {
        if cs[i] == '.' {
            if dot {
                return NumberLex::MultipleDots;
            }
            dot = true;
            push_one(cs, start, i, &mut b);
            proof { lemma_has_digit_push(cs@, start as int, i as int); }
            i = i + 1;
            if i >= len {
                return NumberLex::Aborts;
            }
            if '0' <= cs[i] && cs[i] <= '9' {
                push_one(cs, start, i, &mut b);
                proof { lemma_has_digit_push(cs@, start as int, i as int); }
                digit = true;
                i = i + 1;
            } else {
                return number_token(cs, start, i, b, dot, digit);
            }
        } else if '0' <= cs[i] && cs[i] <= '9' {
            push_one(cs, start, i, &mut b);
            proof { lemma_has_digit_push(cs@, start as int, i as int); }
            digit = true;
            i = i + 1;
        } else {
            return number_token(cs, start, i, b, dot, digit);
        }
    }
    number_token(cs, start, i, b, dot, digit)
}

/// Appends `cs[i]` to a builder holding `cs[start..i]`.
fn push_one(cs: &Vec<char>, start: usize, i: usize, b: &mut Builder)
    requires
        start <= i < cs@.len(),
        crate::builder::builder_bytes(*old(b)) == vstd::utf8::encode_utf8(cs@.subrange(start as int, i as int)),
    ensures
        crate::builder::builder_bytes(*final(b)) == vstd::utf8::encode_utf8(cs@.subrange(start as int, i + 1)),
{
    push_char(b, cs[i], Ghost(cs@.subrange(start as int, i as int)));
    assert(cs@.subrange(start as int, i as int).push(cs@[i as int]) =~= cs@.subrange(start as int, i + 1));
}

proof fn lemma_has_digit_push(cs: Seq<char>, start: int, i: int)
    requires
        0 <= start <= i < cs.len(),
    ensures
        has_digit(cs.subrange(start, i + 1)) == (has_digit(cs.subrange(start, i)) || is_digit(cs[i])),
{
    let a = cs.subrange(start, i);
    let b = cs.subrange(start, i + 1);
    if has_digit(a) {
        let k = choose|k: int| 0 <= k < a.len() && is_digit(#[trigger] a[k]);
        assert(b[k] == a[k]);
    }
    if is_digit(cs[i]) {
        assert(b[i - start] == cs[i]);
    }
    if has_digit(b) {
        let k = choose|k: int| 0 <= k < b.len() && is_digit(#[trigger] b[k]);
        if k < i - start {
            assert(a[k] == b[k]);
        }
    }
}

pub proof fn lemma_prepend_prepend(a: Seq<LexemeV>, b: Seq<LexemeV>, r: LexResult)
    ensures
        prepend_lexemes(a, prepend_lexemes(b, r)) == prepend_lexemes(a + b, r),
{
    if let LexResult::Lexemes(rest) = r {
        assert(a + (b + rest) =~= (a + b) + rest);
    }
}

proof fn lemma_encode_empty()
    ensures
        vstd::utf8::encode_utf8(Seq::<char>::empty()) == Seq::<u8>::empty(),
{
}

/// The outcome that a run of the lexer stands for: `None` for a text on which
/// it cannot finish.
pub open spec fn lex_outcome(r: Option<LexOutput>) -> LexResult {
    match r {
        Some(o) => o@,
        None => LexResult::Aborts,
    }
}

/// Checks the letters of a keyword at `i`, whose first letter is known.
fn keyword_at(cs: &Vec<char>, i: usize, word: &str) -> (r: bool)
    requires
        i + word@.len() <= cs@.len(),
        word.is_ascii(),
    ensures
        r == word_at(cs@, i as int, word@),
{
    let n = word.unicode_len();
    let l = cs.len();
    assert(l == cs@.len());
    let mut k: usize = 0;
    while k < n
        invariant
            n == word@.len(),
            0 <= k <= n,
            i + n <= cs@.len(),
            cs@.len() <= usize::MAX,
            word.is_ascii(),
            forall|m: int| 0 <= m < k ==> cs@[i + m] == word@[m],
        decreases n - k,
    {
        if cs[i + k] != word.get_char(k) {
            assert(cs@.subrange(i as int, i + n)[k as int] != word@[k as int]);
            return false;
        }
        k = k + 1;
    }
    assert(cs@.subrange(i as int, i + n) =~= word@);
    true
}

/// Lexes the characters `cs`.
pub(crate) fn lex_chars(cs: &Vec<char>) -> (r: Option<LexOutput>)
    ensures
        lex_outcome(r) == spec_lex(cs@),
{
    let mut lexemes: Vec<Lexeme> = Vec::new();
    let len = cs.len();
    let mut i: usize = 0;
    while i < len
        invariant
            0 <= i <= len,
            len == cs@.len(),
            spec_lex(cs@) == prepend_lexemes(lexemes_view(lexemes@), lex_from(cs@, i as int)),
        decreases len - i,
    {
        let ghost before = lexemes_view(lexemes@);
        let c = cs[i];
        if c == '\t' || c == '\n' || c == ' ' {
            i = i + 1;
            continue;
        }
        proof {
            lemma_lex_step_advances(cs@, i as int);
        }
        let (l, e): (Lexeme, usize) = if c == ':' {
            (Lexeme::Colon, i + 1)
        } else if c == ',' {
            (Lexeme::Comma, i + 1)
        } else if c == '[' {
            (Lexeme::OpenBracket, i + 1)
        } else if c == ']' {
            (Lexeme::CloseBracket, i + 1)
        } else if c == '{' {
            (Lexeme::OpenBrace, i + 1)
        } else if c == '}' {
            (Lexeme::CloseBrace, i + 1)
        } else if c == '"' {
            proof { lemma_string_end_bounds(cs@, i + 1); }
            match lex_string_contents(cs, i + 1) {
                Some((s, e)) => (Lexeme::String(s), e + 1),
                None => {
                    return Some(LexOutput::StringNotTerminated);
                },
            }
        } else if ('1' <= c && c <= '9') || c == '-' {
            match lex_number(cs, i) {
                NumberLex::Token(l, e) => (l, e),
                NumberLex::MultipleDots => {
                    return Some(LexOutput::MultipleDecimalsInFloat);
                },
                NumberLex::Aborts => {
                    return None;
                },
            }
        } else if c == 't' {
            if len - i > 3 {
                proof {
                    reveal_strlit("true");
                    assert("true"@ =~= seq!['t', 'r', 'u', 'e']);
                }
                if keyword_at(cs, i, "true") {
                    (Lexeme::Bool(true), i + 4)
                } else {
                    return Some(LexOutput::UnknownCharacter);
                }
            } else {
                return None;
            }
        } else if c == 'f' {
            if len - i > 4 {
                proof {
                    reveal_strlit("false");
                    assert("false"@ =~= seq!['f', 'a', 'l', 's', 'e']);
                }
                if keyword_at(cs, i, "false") {
                    (Lexeme::Bool(false), i + 5)
                } else {
                    return Some(LexOutput::UnknownCharacter);
                }
            } else {
                return None;
            }
        } else if c == 'n' {
            if len - i > 3 {
                proof {
                    reveal_strlit("null");
                    assert("null"@ =~= seq!['n', 'u', 'l', 'l']);
                }
                if keyword_at(cs, i, "null") {
                    (Lexeme::Null, i + 4)
                } else {
                    return Some(LexOutput::UnknownCharacter);
                }
            } else {
                return None;
            }
        } else {
            return Some(LexOutput::UnknownCharacter);
        };
        assert(lex_step(cs@, i as int) == LexStep::Token(l@, e as int));
        let ghost lv = l@;
        lexemes.push(l);
        proof {
            assert(lex_from(cs@, i as int) == prepend_lexemes(seq![lv], lex_from(cs@, e as int)));
            lemma_prepend_prepend(before, seq![lv], lex_from(cs@, e as int));
            assert(lexemes_view(lexemes@) =~= before + seq![lv]);
        }
        i = e;
    }
    Some(LexOutput::Lexemes(lexemes))
}

/// Splits a text into lexemes.
///
/// White space (tab, newline, space) between lexemes is skipped. A string runs
/// from a `"` to the next `"` that no backslash takes, and keeps its
/// backslashes. A number starts with a digit other than `0` or with `-`, and
/// has a decimal point when it is a `Float`.
pub fn lex(string: String) -> (out: LexOutput)
    requires
        !(spec_lex(string@) is Aborts),
    ensures
        out@ == spec_lex(string@),
        out@ matches LexResult::Lexemes(ts) ==> lexed_floats_ok(ts),
{
    proof {
        lemma_lexed_floats(string@, 0);
    }
    let cs = crate::text::chars_of(string.as_str());
    match lex_chars(&cs) {
        Some(o) => o,
        None => {
            proof { assert(false); }
            LexOutput::UnknownCharacter
        },
    }
}


/// Whether `lex` cannot finish on this text (see `LexResult::Aborts`): the
/// condition that callers of `lex` must rule out.
pub fn lex_aborts(string: &String) -> (r: bool)
    ensures
        r == (spec_lex(string@) is Aborts),
{
    let cs = crate::text::chars_of(string.as_str());
    match lex_chars(&cs) {
        Some(_) => false,
        None => true,
    }
}


/// What a number scanned from `j` is made of: digits, and one `.` when the
/// scan found one after a digit string without one.
pub proof fn lemma_number_end_shape(cs: Seq<char>, j: int, dot: bool)
    requires
        0 <= j,
    ensures
        number_end(cs, j, dot) matches NumberEnd::End(e, d) ==> {
            &&& j <= e <= cs.len() || e == j
            &&& (dot || !d) ==> (d == dot && forall|k: int| j <= k < e ==> is_digit(#[trigger] cs[k]))
            &&& (!dot && d) ==> exists|p: int|
                #![trigger cs[p]]
                j <= p < e && cs[p] == '.' && forall|k: int|
                    j <= k < e && k != p ==> is_digit(#[trigger] cs[k])
        },
    decreases cs.len() - j,
{
    if 0 <= j < cs.len() {
        if cs[j] == '.' {
            if !dot && j + 1 < cs.len() && is_digit(cs[j + 1]) {
                lemma_number_end_shape(cs, j + 2, true);
                if let NumberEnd::End(e, d) = number_end(cs, j, dot) {
                    assert(cs[j] == '.');
                    assert(forall|k: int| j <= k < e && k != j ==> is_digit(#[trigger] cs[k]));
                }
            } else if !dot && j + 1 < cs.len() {
                if let NumberEnd::End(e, d) = number_end(cs, j, dot) {
                    assert(e == j + 1);
                    assert(cs[j] == '.');
                }
            }
        } else if is_digit(cs[j]) {
            lemma_number_end_shape(cs, j + 1, dot);
            if let NumberEnd::End(e, d) = number_end(cs, j, dot) {
                if !dot && d {
                    let p = choose|p: int|
                        #![trigger cs[p]]
                        j + 1 <= p < e && cs[p] == '.' && forall|k: int|
                            j + 1 <= k < e && k != p ==> is_digit(#[trigger] cs[k]);
                    assert(cs[p] == '.');
                }
            }
        }
    }
}

/// A number with a decimal point that the lexer reads is a decimal text.
proof fn lemma_float_token_decimal(cs: Seq<char>, i: int)
    requires
        0 <= i < cs.len(),
        ('1' <= cs[i] && cs[i] <= '9') || cs[i] == '-',
        number_end(cs, i + 1, false) matches NumberEnd::End(e, d) && d && has_digit(cs.subrange(i, e)),
    ensures
        crate::json_type::decimal_text(cs.subrange(i, number_end(cs, i + 1, false)->End_0)),
{
    lemma_number_end_shape(cs, i + 1, false);
    let e = number_end(cs, i + 1, false)->End_0;
    let t = cs.subrange(i, e);
    let p = choose|p: int|
        #![trigger cs[p]]
        i + 1 <= p < e && cs[p] == '.' && forall|k: int|
            i + 1 <= k < e && k != p ==> is_digit(#[trigger] cs[k]);
    assert(t[p - i] == '.');
    assert forall|k: int| 1 <= k < t.len() && k != p - i implies is_digit(#[trigger] t[k]) by {
        assert(t[k] == cs[i + k]);
    }
}

/// Every decimal text that lexing gives is a decimal text in the sense of
/// `decimal_text`.
pub proof fn lemma_lexed_floats(cs: Seq<char>, i: int)
    requires
        0 <= i,
    ensures
        lex_from(cs, i) matches LexResult::Lexemes(ts) ==> lexed_floats_ok(ts),
    decreases cs.len() - i,
{
    if i < cs.len() {
        lemma_lex_step_advances(cs, i);
        match lex_step(cs, i) {
            LexStep::Skip => {
                lemma_lexed_floats(cs, i + 1);
            },
            LexStep::Token(t, j) => {
                lemma_lexed_floats(cs, j);
                let c = cs[i];
                if t is Float {
                    lemma_float_token_decimal(cs, i);
                }
                if let LexResult::Lexemes(rest) = lex_from(cs, j) {
                    assert forall|k: int| 0 <= k < rest.len() + 1 implies (#[trigger] (seq![t]
                        + rest)[k] matches LexemeV::Float(x) ==> crate::json_type::decimal_text(
                        x,
                    )) by {
                        if k > 0 {
                            assert((seq![t] + rest)[k] == rest[k - 1]);
                        }
                    }
                }
            },
            LexStep::Stop(_) => {},
        }
    }
}

/// Whether every decimal-text lexeme of `lx` is a decimal text.
pub open spec fn lexed_floats_ok(lx: Seq<LexemeV>) -> bool {
    forall|k: int|
        0 <= k < lx.len() ==> (#[trigger] lx[k] matches LexemeV::Float(t)
            ==> crate::json_type::decimal_text(t))
}

} // verus!
