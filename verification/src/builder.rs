//! Text assembly through `string_builder::Builder`.
//!
//! A `Builder` is a growable byte buffer. The library reasons about it through
//! the bytes it holds, `builder_bytes`, and keeps the bytes equal to the UTF-8
//! encoding of the text appended so far.

use vstd::prelude::*;
use vstd::utf8::*;
use string_builder::Builder;
use std::string::FromUtf8Error;

verus! {

#[verifier::external_type_specification]
#[verifier::external_body]
pub struct ExBuilder(Builder);

#[verifier::external_type_specification]
#[verifier::external_body]
pub struct ExFromUtf8Error(FromUtf8Error);

/// The bytes held in the buffer of a `string_builder::Builder`.
pub uninterp spec fn builder_bytes(b: Builder) -> Seq<u8>;

/// Calls `<Builder as Default>::default`, which makes a builder over an empty
/// `Vec<u8>`: the new builder holds no bytes.
#[verifier::external_body]
pub(crate) fn builder_new() -> (b: Builder)
    ensures
        builder_bytes(b) == Seq::<u8>::empty(),
{
    Builder::default()
}

/// Calls `Builder::append` with a `char`: the character's UTF-8 encoding
/// (`char::encode_utf8`) is written at the end of the buffer.
#[verifier::external_body]
pub(crate) fn builder_append_char(b: &mut Builder, c: char)
    ensures
        builder_bytes(*final(b)) == builder_bytes(*old(b)) + encode_utf8(seq![c]),
{
    b.append(c)
}

/// Calls `Builder::append` with a `&str`: the string's bytes (`str::as_bytes`,
/// its UTF-8 encoding) are written at the end of the buffer.
#[verifier::external_body]
pub(crate) fn builder_append_str(b: &mut Builder, s: &str)
    ensures
        builder_bytes(*final(b)) == builder_bytes(*old(b)) + encode_utf8(s@),
{
    b.append(s)
}

/// Calls `Builder::string`, which is `String::from_utf8` on the buffer: it
/// succeeds exactly when the bytes are valid UTF-8, and the string then holds
/// the characters they encode.
#[verifier::external_body]
pub(crate) fn builder_string(b: Builder) -> (r: Result<String, FromUtf8Error>)
    ensures
        r is Ok <==> valid_utf8(builder_bytes(b)),
        r matches Ok(s) ==> s@ == decode_utf8(builder_bytes(b)),
{
    b.string()
}

/// The UTF-8 encoding of a concatenation is the concatenation of the encodings.
pub proof fn lemma_encode_utf8_add(a: Seq<char>, b: Seq<char>)
    ensures
        encode_utf8(a + b) == encode_utf8(a) + encode_utf8(b),
    decreases a.len(),
{
    if a.len() == 0 {
        assert(a + b =~= b);
    } else {
        lemma_encode_utf8_add(a.drop_first(), b);
        assert((a + b).drop_first() =~= a.drop_first() + b);
        assert((a + b)[0] == a[0]);
    }
}

/// Appends a character, keeping the buffer the encoding of the text `t`.
pub(crate) fn push_char(b: &mut Builder, c: char, Ghost(t): Ghost<Seq<char>>)
    requires
        builder_bytes(*old(b)) == encode_utf8(t),
    ensures
        builder_bytes(*final(b)) == encode_utf8(t.push(c)),
{
    builder_append_char(b, c);
    proof {
        lemma_encode_utf8_add(t, seq![c]);
        assert(t + seq![c] =~= t.push(c));
    }
}

/// Appends a string, keeping the buffer the encoding of the text `t`.
pub(crate) fn push_str(b: &mut Builder, s: &str, Ghost(t): Ghost<Seq<char>>)
    requires
        builder_bytes(*old(b)) == encode_utf8(t),
    ensures
        builder_bytes(*final(b)) == encode_utf8(t + s@),
{
    builder_append_str(b, s);
    proof {
        lemma_encode_utf8_add(t, s@);
    }
}

/// Takes the text out of a builder whose buffer encodes `t`.
pub(crate) fn take_string(b: Builder, Ghost(t): Ghost<Seq<char>>) -> (s: String)
    requires
        builder_bytes(b) == encode_utf8(t),
    ensures
        s@ == t,
{
    proof {
        encode_utf8_valid_utf8(t);
        encode_utf8_decode_utf8(t);
    }
    match builder_string(b) {
        Ok(s) => s,
        Err(_) => {
            proof { assert(false); }
            String::new()
        }
    }
}

} // verus!
