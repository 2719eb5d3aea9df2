//! Decoding the percent-encoded response body.

use vstd::prelude::*;
use vstd::utf8::{
    char_is_scalar, decode_utf8, encode_scalar, encode_utf8, encode_utf8_decode_utf8,
    encode_utf8_valid_utf8, has_width_1_encoding, has_width_2_encoding, has_width_3_encoding,
    valid_utf8,
};
use crate::quote::TageswortError;

verus! {

/// The value of an ASCII hex digit.
pub open spec fn hex_value(b: u8) -> Option<u8> {
    if 48 <= b <= 57 {
        Some((b - 48) as u8)
    } else if 65 <= b <= 70 {
        Some((b - 55) as u8)
    } else if 97 <= b <= 102 {
        Some((b - 87) as u8)
    } else {
        None
    }
}

/// Percent-decoding of bytes: each `%` followed by two hex digits stands for
/// the byte they spell; every other byte, `%` and `+` included, stands for
/// itself.
pub open spec fn percent_decode(b: Seq<u8>) -> Seq<u8>
    decreases b.len(),
{
    if b.len() == 0 {
        Seq::<u8>::empty()
    } else if b[0] == 37 && b.len() >= 3 && hex_value(b[1]) is Some && hex_value(b[2]) is Some {
        seq![(hex_value(b[1])->0 * 16 + hex_value(b[2])->0) as u8] + percent_decode(b.skip(3))
    } else {
        seq![b[0]] + percent_decode(b.drop_first())
    }
}

/// The bytes that a percent-encoded text stands for.
pub open spec fn decoded_bytes(body: Seq<char>) -> Seq<u8> {
    percent_decode(encode_utf8(body))
}

/// `urlencoding::decode`, made owned: percent-decodes the UTF-8 bytes of
/// `body` and reads the result as UTF-8. The contract claims that the result
/// is `Ok` exactly when the decoded bytes are valid UTF-8, and then holds
/// their characters.
#[verifier::external_body]
fn url_decode(body: &str) -> (r: Result<String, std::string::FromUtf8Error>)
    ensures
        match r {
            Ok(s) => valid_utf8(decoded_bytes(body@)) && s@ == decode_utf8(decoded_bytes(body@)),
            Err(_) => !valid_utf8(decoded_bytes(body@)),
        },
{
    match urlencoding::decode(body) {
        Ok(text) => Ok(text.into_owned()),
        Err(e) => Err(e),
    }
}

/// Decodes the raw response body returned by aphorismen.de into plain text:
/// percent-decoding, then UTF-8. Where the decoded bytes are not UTF-8 the
/// result is `TageswortError::UrlEncoding`.
pub fn decode_tageswort_response(body: &str) -> (r: Result<String, TageswortError>)
    ensures
        valid_utf8(decoded_bytes(body@)) ==> (r matches Ok(s) && s@ == decode_utf8(
            decoded_bytes(body@),
        )),
        !valid_utf8(decoded_bytes(body@)) ==> (r matches Err(TageswortError::UrlEncoding(_))),
{
    match url_decode(body) {
        Ok(text) => Ok(text),
        Err(e) => Err(TageswortError::from(e)),
    }
}

/// No byte of the UTF-8 encoding of a character other than `%` is `%`.
proof fn lemma_scalar_without_percent(c: char)
    requires
        c != '%',
    ensures
        forall|i: int| 0 <= i < encode_scalar(c as u32).len() ==> #[trigger] encode_scalar(c as u32)[i] != 37,
{
    char_is_scalar(c);
    let v = c as u32;
    if has_width_1_encoding(v) {
        assert(v <= 0x7f ==> (v & 0x7f) as u8 == v) by (bit_vector);
        assert(v != 37);
    } else if has_width_2_encoding(v) {
        assert(0xC0 | ((v >> 6) & 0x1F) as u8 != 37u8) by (bit_vector);
        assert(0x80 | (v & 0x3F) as u8 != 37u8) by (bit_vector);
    } else if has_width_3_encoding(v) {
        assert(0xE0 | ((v >> 12) & 0x0F) as u8 != 37u8) by (bit_vector);
        assert(0x80 | ((v >> 6) & 0x3F) as u8 != 37u8) by (bit_vector);
        assert(0x80 | (v & 0x3F) as u8 != 37u8) by (bit_vector);
    } else {
        assert(0xF0 | ((v >> 18) & 0x7) as u8 != 37u8) by (bit_vector);
        assert(0x80 | ((v >> 12) & 0x3F) as u8 != 37u8) by (bit_vector);
        assert(0x80 | ((v >> 6) & 0x3F) as u8 != 37u8) by (bit_vector);
        assert(0x80 | (v & 0x3F) as u8 != 37u8) by (bit_vector);
    }
}

/// A text without `%` has no `%` byte in its UTF-8 encoding.
proof fn lemma_encoding_without_percent(body: Seq<char>)
    requires
        forall|i: int| 0 <= i < body.len() ==> body[i] != '%',
    ensures
        forall|i: int| 0 <= i < encode_utf8(body).len() ==> #[trigger] encode_utf8(body)[i] != 37,
    decreases body.len(),
{
    if body.len() > 0 {
        let rest = body.drop_first();
        lemma_scalar_without_percent(body[0]);
        lemma_encoding_without_percent(rest);
        let first = encode_scalar(body[0] as u32);
        assert forall|i: int| 0 <= i < encode_utf8(body).len() implies #[trigger] encode_utf8(body)[i]
            != 37 by {
            if i < first.len() {
                assert(encode_utf8(body)[i] == first[i]);
            } else {
                assert(encode_utf8(body)[i] == encode_utf8(rest)[i - first.len()]);
            }
        }
    }
}

/// Bytes without `%` are their own percent-decoding.
proof fn lemma_percent_decode_plain(b: Seq<u8>)
    requires
        forall|i: int| 0 <= i < b.len() ==> b[i] != 37,
    ensures
        percent_decode(b) == b,
    decreases b.len(),
{
    if b.len() > 0 {
        lemma_percent_decode_plain(b.drop_first());
        assert(seq![b[0]] + b.drop_first() =~= b);
    }
}

/// A body without `%` decodes to itself.
pub proof fn law_plain_body_decodes_to_itself(body: Seq<char>)
    requires
        forall|i: int| 0 <= i < body.len() ==> body[i] != '%',
    ensures
        valid_utf8(decoded_bytes(body)),
        decode_utf8(decoded_bytes(body)) == body,
{
    lemma_encoding_without_percent(body);
    lemma_percent_decode_plain(encode_utf8(body));
    encode_utf8_valid_utf8(body);
    encode_utf8_decode_utf8(body);
}

} // verus!
