//! Percent-encoding as `encodeURIComponent` writes it, and the decoding that
//! reads it back, with the proof that one undoes the other.

use vstd::prelude::*;
use vstd::utf8::*;
use vstd::string::*;
use crate::text::string_of;

verus! {

/// The bytes `encodeURIComponent` leaves as they are: ASCII letters and
/// digits, and `-_.!~*'()`.
pub open spec fn unreserved(b: u8) -> bool {
    (48 <= b <= 57) || (65 <= b <= 90) || (97 <= b <= 122) || b == 45 || b == 95 || b == 46
        || b == 33 || b == 126 || b == 42 || b == 39 || b == 40 || b == 41
}

/// Upper-case hexadecimal digits.
pub open spec fn hex_upper(d: nat) -> char {
    seq!['0', '1', '2', '3', '4', '5', '6', '7', '8', '9', 'A', 'B', 'C', 'D', 'E', 'F'][d as int]
}

/// One byte as it appears in an encoded URL: unreserved bytes stand for
/// themselves, `/` too where `keep_slash` says so, every other byte is `%XX`.
pub open spec fn encoded_byte(b: u8, keep_slash: bool) -> Seq<char> {
    if unreserved(b) || (keep_slash && b == 47) {
        seq![b as char]
    } else {
        seq!['%', hex_upper((b / 16) as nat), hex_upper((b % 16) as nat)]
    }
}

/// A byte string, encoded byte by byte.
pub open spec fn encoded(bytes: Seq<u8>, keep_slash: bool) -> Seq<char>
    decreases bytes.len(),
{
    if bytes.len() == 0 {
        Seq::empty()
    } else {
        encoded_byte(bytes[0], keep_slash) + encoded(bytes.skip(1), keep_slash)
    }
}

/// A URL path segment: the UTF-8 bytes of `s`, every byte outside the
/// unreserved set (`/` included) escaped.
pub open spec fn segment_encoded(s: Seq<char>) -> Seq<char> {
    encoded(encode_utf8(s), false)
}

/// A whole path: each `/`-separated segment encoded, the separators kept.
pub open spec fn path_encoded(s: Seq<char>) -> Seq<char> {
    encoded(encode_utf8(s), true)
}

/// Whether a byte is a hexadecimal digit, either case.
pub open spec fn is_hex(c: u8) -> bool {
    (48 <= c <= 57) || (65 <= c <= 70) || (97 <= c <= 102)
}

/// The value of a hexadecimal digit.
pub open spec fn hex_val(c: u8) -> nat {
    if 48 <= c <= 57 {
        (c - 48) as nat
    } else if 65 <= c <= 70 {
        (c - 55) as nat
    } else {
        (c - 87) as nat
    }
}

/// What `u8::from_str_radix(.., 16)` makes of the two characters after a
/// `%`: two hexadecimal digits, or a `+` sign and one digit; anything else is
/// no number.
pub open spec fn escape_value(a: u8, b: u8) -> Option<u8> {
    if a == 43 {
        if is_hex(b) { Some(hex_val(b) as u8) } else { None }
    } else if is_hex(a) && is_hex(b) {
        Some((16 * hex_val(a) + hex_val(b)) as u8)
    } else {
        None
    }
}

/// Bytes with every `%` escape that reads as a number replaced by its byte.
pub open spec fn decoded_bytes(b: Seq<u8>) -> Seq<u8>
    decreases b.len(),
{
    if b.len() == 0 {
        Seq::empty()
    } else if b.len() >= 3 && b[0] == 37 && escape_value(b[1], b[2]) is Some {
        seq![escape_value(b[1], b[2])->0] + decoded_bytes(b.skip(3))
    } else {
        seq![b[0]] + decoded_bytes(b.skip(1))
    }
}

/// What `String::from_utf8_lossy` makes of bytes that are not valid UTF-8
/// (each bad run replaced by U+FFFD).
pub uninterp spec fn lossy_utf8(bytes: Seq<u8>) -> Seq<char>;

/// Bytes read as text: valid UTF-8 decodes to its characters.
pub open spec fn utf8_text(bytes: Seq<u8>) -> Seq<char> {
    if valid_utf8(bytes) {
        decode_utf8(bytes)
    } else {
        lossy_utf8(bytes)
    }
}

/// A URL fragment decoded back into text.
pub open spec fn percent_decoded(s: Seq<char>) -> Seq<char> {
    utf8_text(decoded_bytes(encode_utf8(s)))
}

/// std's `String::from_utf8_lossy`: bytes that are valid UTF-8 come back as
/// the characters they encode; for other bytes the result is only named.
#[verifier::external_body]
fn text_of_bytes(bytes: &[u8]) -> (s: String)
    ensures
        valid_utf8(bytes@) ==> s@ == decode_utf8(bytes@),
        !valid_utf8(bytes@) ==> s@ == lossy_utf8(bytes@),
{
    String::from_utf8_lossy(bytes).into_owned()
}

fn unreserved_byte(b: u8) -> (r: bool)
    ensures
        r == unreserved(b),
{
    (48 <= b && b <= 57) || (65 <= b && b <= 90) || (97 <= b && b <= 122) || b == 45 || b == 95
        || b == 46 || b == 33 || b == 126 || b == 42 || b == 39 || b == 40 || b == 41
}

proof fn lemma_encoded_append(a: Seq<u8>, c: Seq<u8>, keep_slash: bool)
    ensures
        encoded(a + c, keep_slash) == encoded(a, keep_slash) + encoded(c, keep_slash),
    decreases a.len(),
{
    if a.len() == 0 {
        assert(a + c =~= c);
    } else {
        assert((a + c).skip(1) =~= a.skip(1) + c);
        lemma_encoded_append(a.skip(1), c, keep_slash);
    }
}

proof fn lemma_encoded_take(b: Seq<u8>, i: int, keep_slash: bool)
    requires
        0 <= i < b.len(),
    ensures
        encoded(b.take(i + 1), keep_slash) == encoded(b.take(i), keep_slash) + encoded_byte(
            b[i],
            keep_slash,
        ),
{
    assert(b.take(i + 1) =~= b.take(i) + seq![b[i]]);
    lemma_encoded_append(b.take(i), seq![b[i]], keep_slash);
    let one = seq![b[i]];
    assert(one.skip(1) =~= Seq::<u8>::empty());
    assert(encoded(one.skip(1), keep_slash) == Seq::<char>::empty());
    assert(encoded(one, keep_slash) == encoded_byte(one[0], keep_slash) + encoded(
        one.skip(1),
        keep_slash,
    ));
    assert(encoded_byte(b[i], keep_slash) + Seq::<char>::empty() =~= encoded_byte(
        b[i],
        keep_slash,
    ));
}

/// The digit `hex_upper(d)` is the ASCII character `0`-`9` or `A`-`F`.
proof fn lemma_hex_upper_code(d: nat)
    requires
        d < 16,
    ensures
        d < 10 ==> hex_upper(d) == ((48 + d) as u8) as char,
        d >= 10 ==> hex_upper(d) == ((55 + d) as u8) as char,
{
    let t = seq!['0', '1', '2', '3', '4', '5', '6', '7', '8', '9', 'A', 'B', 'C', 'D', 'E', 'F'];
    assert(t[d as int] == hex_upper(d));
    assert(d == 0 || d == 1 || d == 2 || d == 3 || d == 4 || d == 5 || d == 6 || d == 7 || d == 8
        || d == 9 || d == 10 || d == 11 || d == 12 || d == 13 || d == 14 || d == 15);
}

fn hex_digit_upper(d: u8) -> (c: char)
    requires
        d < 16,
    ensures
        c == hex_upper(d as nat),
{
    proof {
        lemma_hex_upper_code(d as nat);
    }
    if d < 10 {
        (48 + d) as char
    } else {
        (55 + d) as char
    }
}

/// Encodes bytes the way `encoded` says, appending to `out`.
fn push_encoded(out: &mut Vec<char>, bytes: &[u8], keep_slash: bool)
    ensures
        final(out)@ == old(out)@ + encoded(bytes@, keep_slash),
{
    let mut i: usize = 0;
    while i < bytes.len()
        invariant
            i <= bytes@.len(),
            out@ == old(out)@ + encoded(bytes@.take(i as int), keep_slash),
        decreases bytes.len() - i,
    {
        let b = bytes[i];
        proof {
            lemma_encoded_take(bytes@, i as int, keep_slash);
        }
        let ghost before = out@;
        if unreserved_byte(b) || (keep_slash && b == 47) {
            out.push(b as char);
            assert(out@ =~= before + encoded_byte(b, keep_slash));
        } else {
            let hi = hex_digit_upper(b / 16);
            let lo = hex_digit_upper(b % 16);
            out.push('%');
            out.push(hi);
            out.push(lo);
            assert(out@ =~= before + encoded_byte(b, keep_slash));
        }
        i = i + 1;
        assert(out@ =~= old(out)@ + encoded(bytes@.take(i as int), keep_slash));
    }
    assert(bytes@.take(i as int) =~= bytes@);
}

/// `encodeURIComponent` over the UTF-8 bytes of a segment.
pub fn encode_segment(segment: &str) -> (r: String)
    ensures
        r@ == segment_encoded(segment@),
{
    let mut out: Vec<char> = Vec::new();
    push_encoded(&mut out, segment.as_bytes(), false);
    string_of(&out)
}

/// A path with each `/`-separated segment encoded and the separators kept.
pub fn encode_path(path: &str) -> (r: String)
    ensures
        r@ == path_encoded(path@),
{
    let mut out: Vec<char> = Vec::new();
    push_encoded(&mut out, path.as_bytes(), true);
    string_of(&out)
}

fn hex_exec(c: u8) -> (r: Option<u8>)
    ensures
        match r {
            Some(v) => is_hex(c) && v == hex_val(c),
            None => !is_hex(c),
        },
{
    if 48 <= c && c <= 57 {
        Some(c - 48)
    } else if 65 <= c && c <= 70 {
        Some(c - 55)
    } else if 97 <= c && c <= 102 {
        Some(c - 87)
    } else {
        None
    }
}

fn escape_exec(a: u8, b: u8) -> (r: Option<u8>)
    ensures
        r == escape_value(a, b),
{
    if a == 43 {
        match hex_exec(b) {
            Some(v) => Some(v),
            None => None,
        }
    } else {
        match (hex_exec(a), hex_exec(b)) {
            (Some(x), Some(y)) => Some(16 * x + y),
            _ => None,
        }
    }
}

proof fn lemma_decoded_step(b: Seq<u8>, i: int)
    requires
        0 <= i < b.len(),
    ensures
        (b.len() - i >= 3 && b[i] == 37 && escape_value(b[i + 1], b[i + 2]) is Some)
            ==> decoded_bytes(b.skip(i)) == seq![escape_value(b[i + 1], b[i + 2])->0]
            + decoded_bytes(b.skip(i + 3)),
        !(b.len() - i >= 3 && b[i] == 37 && escape_value(b[i + 1], b[i + 2]) is Some)
            ==> decoded_bytes(b.skip(i)) == seq![b[i]] + decoded_bytes(b.skip(i + 1)),
{
    let t = b.skip(i);
    assert(t[0] == b[i]);
    if t.len() >= 3 {
        assert(t[1] == b[i + 1] && t[2] == b[i + 2]);
        assert(t.skip(3) =~= b.skip(i + 3));
    }
    assert(t.skip(1) =~= b.skip(i + 1));
}

/// Replaces every `%XX` escape with the byte it names and reads the result
/// as UTF-8, lossily.
pub fn percent_decode(value: &str) -> (r: String)
    ensures
        r@ == percent_decoded(value@),
{
    let bytes = value.as_bytes();
    let mut out: Vec<u8> = Vec::new();
    let mut i: usize = 0;
    assert(bytes@.skip(0) =~= bytes@);
    while i < bytes.len()
        invariant
            i <= bytes@.len(),
            bytes@ == encode_utf8(value@),
            decoded_bytes(bytes@) == out@ + decoded_bytes(bytes@.skip(i as int)),
        decreases bytes.len() - i,
    {
        proof {
            lemma_decoded_step(bytes@, i as int);
        }
        let mut step: usize = 1;
        if bytes[i] == 37 && bytes.len() - i >= 3 {
            match escape_exec(bytes[i + 1], bytes[i + 2]) {
                Some(v) => {
                    out.push(v);
                    step = 3;
                },
                None => {
                    out.push(bytes[i]);
                },
            }
        } else {
            out.push(bytes[i]);
        }
        i = i + step;
        assert(decoded_bytes(bytes@) == out@ + decoded_bytes(bytes@.skip(i as int)));
    }
    assert(bytes@.skip(i as int) =~= Seq::<u8>::empty());
    assert(out@ + Seq::<u8>::empty() =~= out@);
    text_of_bytes(out.as_slice())
}

/// The bytes of characters that are all ASCII.
pub open spec fn ascii_bytes(s: Seq<char>) -> Seq<u8> {
    Seq::new(s.len(), |i: int| s[i] as u8)
}

proof fn lemma_hex_round_trip(d: nat)
    requires
        d < 16,
    ensures
        is_hex(hex_upper(d) as u8),
        hex_val(hex_upper(d) as u8) == d,
        hex_upper(d) != '+',
        (hex_upper(d) as u32) < 128,
{
    assert(seq!['0', '1', '2', '3', '4', '5', '6', '7', '8', '9', 'A', 'B', 'C', 'D', 'E', 'F'][d as int]
        == hex_upper(d));
    if d < 10 {
        assert(hex_upper(d) as u8 == 48 + d) by {
            assert(d == 0 || d == 1 || d == 2 || d == 3 || d == 4 || d == 5 || d == 6 || d == 7
                || d == 8 || d == 9);
        }
    } else {
        assert(hex_upper(d) as u8 == 55 + d) by {
            assert(d == 10 || d == 11 || d == 12 || d == 13 || d == 14 || d == 15);
        }
    }
}

/// Every character an encoding writes is ASCII, and never `%` unless it
/// opens an escape.
proof fn lemma_encoded_ascii(b: Seq<u8>, keep_slash: bool)
    ensures
        is_ascii_chars(encoded(b, keep_slash)),
    decreases b.len(),
{
    if b.len() > 0 {
        lemma_encoded_ascii(b.skip(1), keep_slash);
        let e = encoded_byte(b[0], keep_slash);
        if !(unreserved(b[0]) || (keep_slash && b[0] == 47)) {
            lemma_hex_round_trip((b[0] / 16) as nat);
            lemma_hex_round_trip((b[0] % 16) as nat);
        }
        assert(is_ascii_chars(e));
        let all = e + encoded(b.skip(1), keep_slash);
        assert forall|i: int| 0 <= i < all.len() implies '\0' <= #[trigger] all[i] <= '\u{7f}' by {
            if i < e.len() {
                assert(all[i] == e[i]);
            } else {
                assert(all[i] == encoded(b.skip(1), keep_slash)[i - e.len()]);
            }
        }
    }
}

/// Decoding undoes encoding, byte for byte.
proof fn lemma_decode_encoded(b: Seq<u8>, keep_slash: bool)
    ensures
        decoded_bytes(ascii_bytes(encoded(b, keep_slash))) == b,
    decreases b.len(),
{
    if b.len() == 0 {
        assert(ascii_bytes(encoded(b, keep_slash)) =~= Seq::<u8>::empty());
    } else {
        let e = encoded_byte(b[0], keep_slash);
        let rest = encoded(b.skip(1), keep_slash);
        lemma_decode_encoded(b.skip(1), keep_slash);
        let all = ascii_bytes(e + rest);
        assert(encoded(b, keep_slash) == e + rest);
        if unreserved(b[0]) || (keep_slash && b[0] == 47) {
            assert(all[0] == b[0]);
            assert(all.skip(1) =~= ascii_bytes(rest));
            assert(all.len() >= 3 ==> all[0] != 37);
        } else {
            let hi = (b[0] / 16) as nat;
            let lo = (b[0] % 16) as nat;
            lemma_hex_round_trip(hi);
            lemma_hex_round_trip(lo);
            assert(all[0] == 37);
            assert(all[1] == hex_upper(hi) as u8);
            assert(all[2] == hex_upper(lo) as u8);
            assert(escape_value(all[1], all[2]) == Some(b[0]));
            assert(all.skip(3) =~= ascii_bytes(rest));
        }
        assert(seq![b[0]] + b.skip(1) =~= b);
    }
}

/// Reading back what `encoded` wrote gives the text that was encoded.
pub proof fn decoding_undoes_encoding(s: Seq<char>, keep_slash: bool)
    ensures
        percent_decoded(encoded(encode_utf8(s), keep_slash)) == s,
        is_ascii_chars(encoded(encode_utf8(s), keep_slash)),
{
    let e = encoded(encode_utf8(s), keep_slash);
    lemma_encoded_ascii(encode_utf8(s), keep_slash);
    is_ascii_chars_encode_utf8(e);
    assert(encode_utf8(e) =~= ascii_bytes(e));
    lemma_decode_encoded(encode_utf8(s), keep_slash);
    encode_utf8_valid_utf8(s);
    encode_utf8_decode_utf8(s);
}

/// A segment's encoding never holds a `/`, and is empty only for the empty
/// segment.
pub proof fn segment_encoding_has_no_slash(s: Seq<char>)
    ensures
        forall|i: int| 0 <= i < segment_encoded(s).len() ==> segment_encoded(s)[i] != '/',
        s.len() > 0 ==> segment_encoded(s).len() > 0,
{
    lemma_encoded_no_slash(encode_utf8(s));
    if s.len() > 0 {
        assert(encode_utf8(s) == encode_scalar(s[0] as u32) + encode_utf8(s.drop_first()));
        assert(encode_utf8(s).len() > 0);
    }
}

proof fn lemma_encoded_no_slash(b: Seq<u8>)
    ensures
        forall|i: int| 0 <= i < encoded(b, false).len() ==> encoded(b, false)[i] != '/',
        b.len() > 0 ==> encoded(b, false).len() > 0,
    decreases b.len(),
{
    if b.len() > 0 {
        lemma_encoded_no_slash(b.skip(1));
        let e = encoded_byte(b[0], false);
        if !unreserved(b[0]) {
            lemma_hex_round_trip((b[0] / 16) as nat);
            lemma_hex_round_trip((b[0] % 16) as nat);
            lemma_hex_upper_code((b[0] / 16) as nat);
            lemma_hex_upper_code((b[0] % 16) as nat);
        }
        assert forall|i: int| 0 <= i < e.len() implies e[i] != '/' by {}
        let all = e + encoded(b.skip(1), false);
        assert forall|i: int| 0 <= i < all.len() implies all[i] != '/' by {
            if i < e.len() {
                assert(all[i] == e[i]);
            } else {
                assert(all[i] == encoded(b.skip(1), false)[i - e.len()]);
            }
        }
    }
}

/// Text made only of unreserved ASCII characters is its own encoding.
pub proof fn unreserved_text_encodes_to_itself(s: Seq<char>)
    requires
        forall|i: int| 0 <= i < s.len() ==> '\0' <= #[trigger] s[i] <= '\u{7f}' && unreserved(s[i] as u8),
    ensures
        segment_encoded(s) == s,
{
    assert(is_ascii_chars(s));
    is_ascii_chars_encode_utf8(s);
    assert(encode_utf8(s) =~= ascii_bytes(s));
    lemma_unreserved_identity(s);
}

proof fn lemma_unreserved_identity(s: Seq<char>)
    requires
        forall|i: int| 0 <= i < s.len() ==> '\0' <= #[trigger] s[i] <= '\u{7f}' && unreserved(s[i] as u8),
    ensures
        encoded(ascii_bytes(s), false) == s,
    decreases s.len(),
{
    if s.len() > 0 {
        let b = ascii_bytes(s);
        assert(b.skip(1) =~= ascii_bytes(s.skip(1)));
        assert forall|i: int| 0 <= i < s.skip(1).len() implies '\0' <= #[trigger] s.skip(1)[i]
            <= '\u{7f}' && unreserved(s.skip(1)[i] as u8) by {
            assert(s.skip(1)[i] == s[i + 1]);
        }
        lemma_unreserved_identity(s.skip(1));
        assert('\0' <= s[0] <= '\u{7f}' && unreserved(s[0] as u8));
        assert(b[0] == s[0] as u8);
        assert((s[0] as u8) as char == s[0]);
        assert(encoded_byte(b[0], false) =~= seq![s[0]]);
        assert(seq![s[0]] + s.skip(1) =~= s);
    }
}

/// A path that begins with `/` is encoded beginning with `/`.
pub proof fn path_encoding_keeps_the_leading_slash(s: Seq<char>)
    requires
        s.len() > 0,
        s[0] == '/',
    ensures
        path_encoded(s).len() > 0,
        path_encoded(s)[0] == '/',
{
    let b = encode_utf8(s);
    assert(b == encode_scalar(s[0] as u32) + encode_utf8(s.drop_first()));
    assert(has_width_1_encoding(47u32));
    assert((47u32 & 0x7Fu32) == 47u32) by (bit_vector);
    assert(s[0] as u32 == 47u32);
    assert(b[0] == 47);
    assert(encoded(b, true) == encoded_byte(b[0], true) + encoded(b.skip(1), true));
}

/// An upper-case hexadecimal digit.
pub open spec fn is_upper_hex(c: char) -> bool {
    (48 <= c as u32 <= 57) || (65 <= c as u32 <= 70)
}

/// Text made only of unreserved ASCII characters and escapes `%HH` with
/// upper-case hexadecimal digits.
pub open spec fn escaped_shape(s: Seq<char>) -> bool
    decreases s.len(),
{
    if s.len() == 0 {
        true
    } else if s[0] == '%' {
        s.len() >= 3 && is_upper_hex(s[1]) && is_upper_hex(s[2]) && escaped_shape(s.skip(3))
    } else {
        (s[0] as u32) < 128 && unreserved(s[0] as u32 as u8) && escaped_shape(s.skip(1))
    }
}

proof fn lemma_hex_upper(d: nat)
    requires
        d < 16,
    ensures
        is_upper_hex(hex_upper(d)),
{
    assert(hex_upper(0) == '0' && hex_upper(1) == '1' && hex_upper(2) == '2' && hex_upper(3) == '3'
        && hex_upper(4) == '4' && hex_upper(5) == '5' && hex_upper(6) == '6' && hex_upper(7) == '7'
        && hex_upper(8) == '8' && hex_upper(9) == '9' && hex_upper(10) == 'A' && hex_upper(11) == 'B'
        && hex_upper(12) == 'C' && hex_upper(13) == 'D' && hex_upper(14) == 'E' && hex_upper(15) == 'F');
}

proof fn lemma_encoded_shape(bytes: Seq<u8>)
    ensures
        escaped_shape(encoded(bytes, false)),
    decreases bytes.len(),
{
    if bytes.len() > 0 {
        let b = bytes[0];
        let rest = encoded(bytes.skip(1), false);
        lemma_encoded_shape(bytes.skip(1));
        let e = encoded_byte(b, false) + rest;
        assert(encoded(bytes, false) == e);
        if unreserved(b) {
            assert(e[0] == b as char);
            assert((b as char) as u32 == b as u32);
            assert(e.skip(1) =~= rest);
        } else {
            lemma_hex_upper((b / 16) as nat);
            lemma_hex_upper((b % 16) as nat);
            assert(e[0] == '%');
            assert(e.skip(3) =~= rest);
        }
    }
}

/// Every character of an encoded segment is unreserved ASCII or part of an
/// escape `%HH` with upper-case hexadecimal digits.
pub proof fn segment_encoding_is_unreserved_or_escaped(s: Seq<char>)
    ensures
        escaped_shape(segment_encoded(s)),
{
    lemma_encoded_shape(encode_utf8(s));
}

} // verus!
