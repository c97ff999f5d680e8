//! JSON string literals, as serde_json writes them.

use vstd::prelude::*;

verus! {

/// Lower-case hexadecimal digits.
pub open spec fn hex_digit(d: nat) -> char {
    seq!['0', '1', '2', '3', '4', '5', '6', '7', '8', '9', 'a', 'b', 'c', 'd', 'e', 'f'][d as int]
}

/// How serde_json writes one character inside a string literal: the quote and
/// the backslash are escaped, the five short control escapes are used where
/// they exist, every other control character below U+0020 becomes `\u00XX`,
/// and everything else is written as it is.
pub open spec fn json_escaped_char(c: char) -> Seq<char> {
    if c == '"' {
        seq!['\\', '"']
    } else if c == '\\' {
        seq!['\\', '\\']
    } else if c == '\u{8}' {
        seq!['\\', 'b']
    } else if c == '\t' {
        seq!['\\', 't']
    } else if c == '\n' {
        seq!['\\', 'n']
    } else if c == '\u{c}' {
        seq!['\\', 'f']
    } else if c == '\r' {
        seq!['\\', 'r']
    } else if (c as u32) < 0x20 {
        seq!['\\', 'u', '0', '0', hex_digit((c as nat) / 16), hex_digit((c as nat) % 16)]
    } else {
        seq![c]
    }
}

/// The escaped body of a string literal.
pub open spec fn json_escaped(s: Seq<char>) -> Seq<char>
    decreases s.len(),
{
    if s.len() == 0 {
        Seq::empty()
    } else {
        json_escaped_char(s[0]) + json_escaped(s.skip(1))
    }
}

/// A JSON string literal holding `s`.
pub open spec fn json_quoted(s: Seq<char>) -> Seq<char> {
    seq!['"'] + json_escaped(s) + seq!['"']
}

/// serde_json's rendering of a string value (`Value::String(..).to_string()`):
/// the contract claims the literal is the quote, each character escaped per
/// `json_escaped_char` (the `ESCAPE` table and `write_char_escape` of
/// serde_json's `ser.rs`), and the closing quote.
#[verifier::external_body]
pub(crate) fn json_string(value: &str) -> (r: String)
    ensures
        r@ == json_quoted(value@),
{
    serde_json::Value::String(value.to_string()).to_string()
}

} // verus!
