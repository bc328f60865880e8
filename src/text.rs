use crate::error::{DecodeCause, Error};
use vstd::prelude::*;
use vstd::utf8::*;

verus! {

pub open spec fn is_hex_digit(b: u8) -> bool {
    (48 <= b <= 57) || (65 <= b <= 70) || (97 <= b <= 102)
}

pub open spec fn hex_value(b: u8) -> int {
    if b <= 57 {
        b - 48
    } else if b <= 70 {
        b - 55
    } else {
        b - 87
    }
}

/// Whether the `%` at `i` is followed by two hexadecimal digits.
pub open spec fn escape_complete(b: Seq<u8>, i: int) -> bool {
    i + 2 < b.len() && is_hex_digit(b[i + 1]) && is_hex_digit(b[i + 2])
}

pub open spec fn malformed_at(b: Seq<u8>, i: int) -> bool {
    b[i] == 37 && !escape_complete(b, i)
}

/// The first index at or after `i` that holds a malformed escape, or the length.
pub open spec fn first_malformed(b: Seq<u8>, i: int) -> int
    decreases b.len() - i,
{
    if i >= b.len() {
        b.len() as int
    } else if malformed_at(b, i) {
        i
    } else {
        first_malformed(b, i + 1)
    }
}

/// Percent-decoding: each `%` followed by two hexadecimal digits becomes the
/// byte they spell; every other byte stays as it is.
pub open spec fn percent_decoded(b: Seq<u8>) -> Seq<u8>
    decreases b.len(),
{
    if b.len() == 0 {
        Seq::empty()
    } else if b[0] == 37 && escape_complete(b, 0) {
        seq![(hex_value(b[1]) * 16 + hex_value(b[2])) as u8] + percent_decoded(
            b.subrange(3, b.len() as int),
        )
    } else {
        seq![b[0]] + percent_decoded(b.drop_first())
    }
}

pub open spec fn plus_as_space(b: Seq<u8>) -> Seq<u8> {
    b.map_values(|x: u8| if x == 43 { 32u8 } else { x })
}

/// What a segment of the wire format decodes to: `+` is a space, escapes are
/// decoded, and the bytes must form UTF-8. An error carries the offset within
/// the segment.
pub open spec fn decode_segment(b: Seq<u8>) -> Result<Seq<char>, (int, DecodeCause)> {
    let m = first_malformed(b, 0);
    let d = percent_decoded(plus_as_space(b));
    if m < b.len() {
        Err((m, DecodeCause::MalformedEscape))
    } else if valid_utf8(d) {
        Ok(decode_utf8(d))
    } else {
        Err((0, DecodeCause::InvalidUtf8))
    }
}

/// Bytes that form-urlencoding leaves as they are.
pub open spec fn byte_unchanged(b: u8) -> bool {
    b == 42 || b == 45 || b == 46 || (48 <= b <= 57) || (65 <= b <= 90) || b == 95 || (97 <= b
        <= 122)
}

pub open spec fn hex_upper(n: int) -> u8 {
    if n < 10 {
        (48 + n) as u8
    } else {
        (55 + n) as u8
    }
}

pub open spec fn form_encode_byte(b: u8) -> Seq<u8> {
    if byte_unchanged(b) {
        seq![b]
    } else if b == 32 {
        seq![43u8]
    } else {
        seq![37u8, hex_upper(b as int / 16), hex_upper(b as int % 16)]
    }
}

/// Form-urlencoding of a byte string.
pub open spec fn form_encoded(b: Seq<u8>) -> Seq<u8>
    decreases b.len(),
{
    if b.len() == 0 {
        Seq::empty()
    } else {
        form_encode_byte(b[0]) + form_encoded(b.drop_first())
    }
}

/// The bytes of the form-urlencoding of a text, byte by byte of its UTF-8 form.
pub open spec fn encode_text(s: Seq<char>) -> Seq<u8> {
    form_encoded(encode_utf8(s))
}

pub proof fn lemma_encode_utf8_concat(a: Seq<char>, b: Seq<char>)
    ensures
        encode_utf8(a + b) == encode_utf8(a) + encode_utf8(b),
    decreases a.len(),
{
    if a.len() > 0 {
        assert((a + b).drop_first() == a.drop_first() + b);
        lemma_encode_utf8_concat(a.drop_first(), b);
        assert(encode_utf8(a + b) =~= encode_utf8(a) + encode_utf8(b));
    } else {
        assert(a + b == b);
    }
}

pub proof fn lemma_encode_one_ascii(c: char, n: u8)
    requires
        c as u32 == n as u32,
        n < 128,
    ensures
        encode_utf8(seq![c]) == seq![n],
{
    let v = c as u32;
    assert(v & 0x7F == v) by (bit_vector)
        requires
            v < 128,
    ;
    assert(seq![c].drop_first() == Seq::<char>::empty());
    assert(((v & 0x7F) as u8) == n);
    assert(encode_utf8(Seq::<char>::empty()) == Seq::<u8>::empty());
    assert(encode_scalar(v) == seq![n]);
    assert(seq![c][0] as u32 == v);
    assert(encode_utf8(seq![c]) =~= seq![n]);
}

pub open spec fn digit_char(d: int) -> char {
    (48 + d) as char
}

/// The decimal digits of `n`, without leading zeros.
pub open spec fn decimal(n: nat) -> Seq<char>
    decreases n,
{
    if n < 10 {
        seq![digit_char(n as int)]
    } else {
        decimal(n / 10).push(digit_char(n as int % 10))
    }
}

/// The decimal form of `n`, with a `-` before a negative number.
pub open spec fn signed_decimal(n: int) -> Seq<char> {
    if n < 0 {
        seq!['-'] + decimal((-n) as nat)
    } else {
        decimal(n as nat)
    }
}

/// Relies on `percent_encoding::percent_decode` and `PercentDecode::decode_utf8`:
/// escapes are decoded as `percent_decoded` says, and there is a result exactly
/// when the decoded bytes are well-formed UTF-8, holding their characters.
#[verifier::external_body]
fn percent_decode_utf8(b: &[u8]) -> (r: Option<String>)
    ensures
        r is Some <==> valid_utf8(percent_decoded(b@)),
        r matches Some(s) ==> s@ == decode_utf8(percent_decoded(b@)),
{
    match percent_encoding::percent_decode(b).decode_utf8() {
        Ok(s) => Some(s.into_owned()),
        Err(_) => None,
    }
}

/// Relies on `form_urlencoded::byte_serialize`: of the UTF-8 bytes of `s`, those
/// in `[A-Za-z0-9*-._]` stay, a space becomes `+`, and every other byte becomes
/// `%` and two upper-case hexadecimal digits.
#[verifier::external_body]
pub(crate) fn form_encode(s: &str) -> (r: String)
    ensures
        encode_utf8(r@) == encode_text(s@),
{
    form_urlencoded::byte_serialize(s.as_bytes()).collect()
}

/// Relies on `itoa::Buffer::format`: the decimal form of an integer.
#[verifier::external_body]
pub(crate) fn format_integer(n: i128) -> (r: String)
    ensures
        r@ == signed_decimal(n as int),
{
    itoa::Buffer::new().format(n).to_owned()
}

/// Replaces every `+` with a space.
pub fn replace_plus(input: &[u8]) -> (r: Vec<u8>)
    ensures
        r@ == plus_as_space(input@),
{
    let mut out: Vec<u8> = Vec::with_capacity(input.len());
    let mut i: usize = 0;
    while i < input.len()
        invariant
            i <= input@.len(),
            out@ == plus_as_space(input@.subrange(0, i as int)),
        decreases input.len() - i,
    {
        let b = input[i];
        out.push(if b == 43 { 32u8 } else { b });
        i = i + 1;
        assert(plus_as_space(input@.subrange(0, i as int)) =~= out@);
    }
    assert(input@.subrange(0, i as int) == input@);
    out
}

fn is_hex_byte(b: u8) -> (r: bool)
    ensures
        r == is_hex_digit(b),
{
    (48 <= b && b <= 57) || (65 <= b && b <= 70) || (97 <= b && b <= 102)
}

/// The offset of the first malformed escape in `b`, if there is one.
fn find_malformed(b: &[u8]) -> (r: usize)
    ensures
        r as int == first_malformed(b@, 0),
{
    let mut i: usize = 0;
    while i < b.len()
        invariant
            i <= b@.len(),
            first_malformed(b@, 0) == first_malformed(b@, i as int),
        decreases b.len() - i,
    {
        if b[i] == 37 && b.len() >= 2 {
            let complete = i < b.len() - 2 && is_hex_byte(b[i + 1]) && is_hex_byte(b[i + 2]);
            if !complete {
                return i;
            }
        } else if b[i] == 37 {
            return i;
        }
        i = i + 1;
    }
    i
}

/// Decodes the bytes `input[from..to]` as a segment of the wire format; an
/// error carries the offset in `input`.
pub fn decode_range(input: &[u8], from: usize, to: usize) -> (r: Result<String, Error>)
    requires
        from <= to <= input@.len(),
    ensures
        match decode_segment(input@.subrange(from as int, to as int)) {
            Ok(s) => r matches Ok(t) && t@ == s,
            Err((off, cause)) => r matches Err(Error::Decode(o, c)) && o == from + off && c
                == cause,
        },
{
    let seg = &input[from..to];
    assert(seg@ == input@.subrange(from as int, to as int));
    let m = find_malformed(seg);
    if m < seg.len() {
        return Err(Error::Decode(from + m, DecodeCause::MalformedEscape));
    }
    let replaced = replace_plus(seg);
    match percent_decode_utf8(replaced.as_slice()) {
        Some(s) => Ok(s),
        None => Err(Error::Decode(from, DecodeCause::InvalidUtf8)),
    }
}

} // verus!
