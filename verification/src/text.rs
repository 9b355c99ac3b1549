//! Text read from byte regions.
//!
//! Tags, names and control characters in the interchange format are ASCII,
//! but the format permits any UTF-8 text in names, so the reader accepts
//! exactly the valid UTF-8 regions.

use vstd::prelude::*;

use vstd::utf8::{decode_utf8, valid_utf8};

use crate::error::{Error, ErrorKind};

verus! {

/// The characters of an all-ASCII byte region, byte for byte.
pub open spec fn ascii_view(s: Seq<u8>) -> Seq<char> {
    Seq::new(s.len(), |i: int| s[i] as char)
}

/// Every byte of `s` is ASCII.
pub open spec fn all_ascii(s: Seq<u8>) -> bool {
    forall|i: int| 0 <= i < s.len() ==> #[trigger] s[i] < 128
}

/// An all-ASCII region is valid UTF-8 and decodes byte for byte.
pub proof fn lemma_ascii_utf8(s: Seq<u8>)
    requires
        all_ascii(s),
    ensures
        valid_utf8(s),
        decode_utf8(s) == ascii_view(s),
    decreases s.len(),
{
    if s.len() > 0 {
        let b = s[0];
        assert(b < 128);
        assert(vstd::utf8::is_leading_byte_width_1(b));
        assert(b & 0x7f == b) by (bit_vector)
            requires b < 128,
        ;
        let rest = vstd::utf8::pop_first_scalar(s);
        assert(rest =~= s.subrange(1, s.len() as int));
        assert(all_ascii(rest));
        lemma_ascii_utf8(rest);
        assert(decode_utf8(s) =~= ascii_view(s));
    } else {
        assert(decode_utf8(s) =~= ascii_view(s));
    }
}

/// Relies on std::str::from_utf8: returns a string exactly when the bytes
/// are valid UTF-8, and then decodes them.
#[verifier::external_body]
fn utf8_to_string(bytes: &[u8]) -> (r: Option<String>)
    ensures
        r is Some <==> valid_utf8(bytes@),
        r matches Some(s) ==> s@ == decode_utf8(bytes@),
{
    match std::str::from_utf8(bytes) {
        Ok(s) => Some(s.to_owned()),
        Err(_) => None,
    }
}

/// Reads a text region into an owned string, as the interchange format
/// stores field names and subfield tags.
///
/// Succeeds exactly on valid UTF-8, and decodes it.
pub fn parse_to_string(bytes: &[u8]) -> (r: Result<String, Error>)
    ensures
        r is Ok <==> valid_utf8(bytes@),
        r matches Ok(s) ==> s@ == decode_utf8(bytes@),
        all_ascii(bytes@) ==> (r matches Ok(s) && s@ == ascii_view(bytes@)),
        r matches Err(e) ==> e.kind is Utf && e.cause is None,
{
    proof {
        if all_ascii(bytes@) {
            lemma_ascii_utf8(bytes@);
        }
    }
    match utf8_to_string(bytes) {
        Some(s) => Ok(s),
        None => Err(Error::new(ErrorKind::Utf)),
    }
}

} // verus!
