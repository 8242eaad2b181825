//! Base64 (the standard alphabet, with padding) and UTF-8 conversions.
//!
//! The base64 text of some bytes is named by `base64_text` and the bytes
//! read back from a text by `base64_read`: the `base64` crate computes both.

use vstd::prelude::*;
use vstd::utf8::{decode_utf8, encode_utf8, valid_utf8};
use base64::Engine;

verus! {

/// The base64 text (standard alphabet, `=` padding) of `bytes`, as the
/// `base64` crate's `STANDARD` engine writes it.
pub uninterp spec fn base64_text(bytes: Seq<u8>) -> Seq<char>;

/// The bytes that the `STANDARD` engine reads from the text `text` (given
/// as its UTF-8 bytes); `None` when the engine refuses the text.
pub uninterp spec fn base64_read(text: Seq<u8>) -> Option<Seq<u8>>;

/// The UTF-8 bytes of `s` (`str::as_bytes`).  vstd states what the bytes
/// are; this adds the bound that Rust documents for every slice, at most
/// `isize::MAX` bytes, which the length computation of the base64 encoder
/// needs.
#[verifier::external_body]
pub(crate) fn utf8_bytes(s: &str) -> (b: &[u8])
    ensures
        b@ == encode_utf8(s@),
        b@.len() <= isize::MAX,
{
    s.as_bytes()
}

/// A character of the standard base64 alphabet (RFC 4648), or the padding
/// character `=`.
pub open spec fn base64_char(c: char) -> bool {
    ||| 'A' <= c <= 'Z'
    ||| 'a' <= c <= 'z'
    ||| '0' <= c <= '9'
    ||| c == '+'
    ||| c == '/'
    ||| c == '='
}

/// `base64::engine::general_purpose::STANDARD.encode(bytes)`: the text is
/// written in the standard alphabet, padded with `=`.  The engine panics
/// only when the length of the text would overflow `usize`, which a length
/// of at most `isize::MAX` rules out.
#[verifier::external_body]
pub(crate) fn base64_encode(bytes: &[u8]) -> (r: String)
    requires
        bytes@.len() <= isize::MAX,
    ensures
        r@ == base64_text(bytes@),
        forall|k: int| 0 <= k < r@.len() ==> base64_char(#[trigger] r@[k]),
{
    base64::engine::general_purpose::STANDARD.encode(bytes)
}

/// `base64::engine::general_purpose::STANDARD.decode(text)`, its error
/// turned into `None`.  The engine requires canonical padding and no
/// trailing bits, so it reads the text it writes for some bytes back into
/// exactly those bytes.
#[verifier::external_body]
pub(crate) fn base64_decode(text: &[u8]) -> (r: Option<Vec<u8>>)
    ensures
        match r {
            Some(v) => base64_read(text@) == Some(v@),
            None => base64_read(text@) is None,
        },
        r is None ==> forall|b: Seq<u8>| encode_utf8(#[trigger] base64_text(b)) != text@,
        r matches Some(v) ==> forall|b: Seq<u8>| encode_utf8(#[trigger] base64_text(b)) == text@ ==> v@ == b,
{
    match base64::engine::general_purpose::STANDARD.decode(text) {
        Ok(v) => Some(v),
        Err(_) => None,
    }
}

/// `String::from_utf8(bytes).ok()`: the text the bytes encode, when they are
/// valid UTF-8.
#[verifier::external_body]
pub(crate) fn utf8_string(bytes: Vec<u8>) -> (r: Option<String>)
    ensures
        r is Some <==> valid_utf8(bytes@),
        r matches Some(s) ==> s@ == decode_utf8(bytes@),
{
    String::from_utf8(bytes).ok()
}

/// The base64 text of the UTF-8 bytes of `s`.
pub fn encode_text(s: &str) -> (r: String)
    ensures
        r@ == base64_text(encode_utf8(s@)),
        forall|k: int| 0 <= k < r@.len() ==> base64_char(#[trigger] r@[k]),
{
    base64_encode(utf8_bytes(s))
}

/// What reading `encoded` as base64 and the bytes as UTF-8 gives: `None`
/// when either step fails.
pub open spec fn decode_text_spec(encoded: Seq<char>) -> Option<Seq<char>> {
    match base64_read(encode_utf8(encoded)) {
        Some(b) => if valid_utf8(b) {
            Some(decode_utf8(b))
        } else {
            None
        },
        None => None,
    }
}

/// Reads `encoded` as base64, then the bytes as UTF-8 text.
pub fn decode_text(encoded: &str) -> (r: Option<String>)
    ensures
        match decode_text_spec(encoded@) {
            Some(t) => r matches Some(s) && s@ == t,
            None => r is None,
        },
        forall|s: Seq<char>| #[trigger] base64_text(encode_utf8(s)) == encoded@ ==> (r matches Some(t)
            && t@ == s),
{
    let bytes = utf8_bytes(encoded);
    match base64_decode(bytes) {
        Some(decoded) => {
            proof {
                assert forall|s: Seq<char>| #[trigger] base64_text(encode_utf8(s)) == encoded@ implies
                    decoded@ == encode_utf8(s) by {
                    assert(encode_utf8(base64_text(encode_utf8(s))) == bytes@);
                }
                assert forall|s: Seq<char>| #[trigger] base64_text(encode_utf8(s)) == encoded@ implies
                    valid_utf8(decoded@) && decode_utf8(decoded@) == s by {
                    vstd::utf8::encode_utf8_valid_utf8(s);
                    vstd::utf8::encode_utf8_decode_utf8(s);
                }
            }
            utf8_string(decoded)
        },
        None => {
            proof {
                assert forall|s: Seq<char>| #[trigger] base64_text(encode_utf8(s)) != encoded@ by {
                    if base64_text(encode_utf8(s)) == encoded@ {
                        assert(encode_utf8(base64_text(encode_utf8(s))) == bytes@);
                    }
                }
            }
            None
        },
    }
}

} // verus!
