//! The scalar value decoder: one typed value read at a cursor.
//!
//! Given a format spec and a cursor into a field area, consumes the right
//! number of bytes and yields a typed value, advancing the cursor past what
//! it consumed. A fixed-width spec takes exactly its width; a variable-width
//! spec takes the bytes up to the next unit or record separator, consuming a
//! unit separator but leaving a record separator for the field-level skip.
//! Real values are kept in their character form.

use vstd::prelude::*;

use vstd::utf8::{decode_utf8, valid_utf8};

use crate::error::{Error, ErrorKind};
use crate::formats::{ParseData, ParseType};
use crate::num::{all_digits, dec_val, is_digit, parse_to_usize, uint_digits};
use crate::text::parse_to_string;

verus! {

/// One decoded subfield value.
#[derive(Debug)]
pub enum Data {
    /// Character data.
    Text(String),
    /// Integer data; absent when the region was empty or all spaces.
    Integer(Option<i64>),
    /// Real data, kept as its character form.
    Real(String),
}

impl PartialEq for Data {
    fn eq(&self, o: &Data) -> (r: bool) {
        match (self, o) {
            (Data::Text(a), Data::Text(b)) => *a == *b,
            (Data::Integer(a), Data::Integer(b)) => match (*a, *b) {
                (Some(x), Some(y)) => x == y,
                (None, None) => true,
                _ => false,
            },
            (Data::Real(a), Data::Real(b)) => *a == *b,
            _ => false,
        }
    }
}

impl vstd::std_specs::cmp::PartialEqSpecImpl for Data {
    open spec fn obeys_eq_spec() -> bool {
        true
    }

    open spec fn eq_spec(&self, o: &Data) -> bool {
        match (self, o) {
            (Data::Text(a), Data::Text(b)) => a@ == b@,
            (Data::Integer(a), Data::Integer(b)) => a == b,
            (Data::Real(a), Data::Real(b)) => a@ == b@,
            _ => false,
        }
    }
}

/// The scalar type of a format spec.
pub open spec fn pd_ty(pd: ParseData) -> ParseType {
    match pd {
        ParseData::Fixed(t, _) => t,
        ParseData::Variable(t) => t,
    }
}

/// Every byte of `s` is an ASCII space.
pub open spec fn all_spaces(s: Seq<u8>) -> bool {
    forall|i: int| 0 <= i < s.len() ==> #[trigger] s[i] == 32
}

/// The digit region of a signed decimal literal: one leading `+` or `-` is
/// dropped.
pub open spec fn int_digits(s: Seq<u8>) -> Seq<u8> {
    if s.len() > 0 && (s[0] == 43 || s[0] == 45) {
        s.subrange(1, s.len() as int)
    } else {
        s
    }
}

/// `s` is a well-formed signed decimal literal whose magnitude fits both the
/// machine word and a signed 64-bit integer.
pub open spec fn is_int_str(s: Seq<u8>) -> bool {
    let d = int_digits(s);
    &&& d.len() > 0
    &&& all_digits(d)
    &&& dec_val(d) <= usize::MAX
    &&& dec_val(d) <= i64::MAX
}

/// The value of the signed decimal literal `s`.
pub open spec fn int_val(s: Seq<u8>) -> int {
    if s.len() > 0 && s[0] == 45 {
        -(dec_val(int_digits(s)) as int)
    } else {
        dec_val(int_digits(s)) as int
    }
}

/// Reads a signed decimal integer: an optional sign, then digits.
pub fn parse_to_i64(bytes: &[u8]) -> (r: Result<i64, Error>)
    ensures
        r is Ok <==> is_int_str(bytes@),
        r matches Ok(v) ==> v == int_val(bytes@),
        r matches Err(e) ==> e.kind is ParseInt,
{
    let n = bytes.len();
    if n == 0 {
        return Err(Error::new(ErrorKind::ParseInt));
    }
    let (neg, start): (bool, usize) = if bytes[0] == 45 {
        (true, 1)
    } else if bytes[0] == 43 {
        (false, 1)
    } else {
        (false, 0)
    };
    if start == n || bytes[start] == 43 || bytes[start] == 45 {
        proof {
            if start < n {
                assert(int_digits(bytes@) =~= bytes@.subrange(1, n as int));
                assert(int_digits(bytes@)[0] == bytes@[1]);
                assert(!is_digit(int_digits(bytes@)[0]));
            }
        }
        return Err(Error::new(ErrorKind::ParseInt));
    }
    let ghost d = int_digits(bytes@);
    proof {
        assert(d =~= bytes@.subrange(start as int, n as int));
        assert(uint_digits(bytes@.subrange(start as int, n as int)) =~= d);
    }
    let mag = match parse_to_usize(vstd::slice::slice_subrange(bytes, start, n)) {
        Ok(v) => v,
        Err(e) => {
            return Err(e);
        },
    };
    if (mag as u64) > (i64::MAX as u64) {
        return Err(Error::new(ErrorKind::ParseInt));
    }
    if neg {
        Ok(-(mag as i64))
    } else {
        Ok(mag as i64)
    }
}

/// The region value a scalar type gives to a byte region: integers may be
/// absent, text and reals are decoded characters.
pub open spec fn data_is(ty: ParseType, s: Seq<u8>, v: Data) -> bool {
    match ty {
        ParseType::Text => v matches Data::Text(t) && t@ == decode_utf8(s),
        ParseType::Integer => v matches Data::Integer(ov) && (if s.len() == 0 || all_spaces(s) {
            ov is None
        } else {
            ov matches Some(x) && x == int_val(s)
        }),
        ParseType::Real => v matches Data::Real(t) && t@ == decode_utf8(s),
    }
}

/// A byte region decodes under a scalar type: text regions must be UTF-8,
/// integer regions must be empty, all spaces, or a signed decimal literal.
pub open spec fn region_ok(ty: ParseType, s: Seq<u8>) -> bool {
    match ty {
        ParseType::Text => valid_utf8(s),
        ParseType::Integer => s.len() == 0 || all_spaces(s) || is_int_str(s),
        ParseType::Real => valid_utf8(s),
    }
}

/// Decodes one byte region as one scalar type.
fn decode_region(ty: ParseType, region: &[u8]) -> (r: Result<Data, Error>)
    ensures
        r is Ok <==> region_ok(ty, region@),
        r matches Ok(v) ==> data_is(ty, region@, v),
        r matches Err(e) ==> (e.kind is Utf || e.kind is ParseInt),
{
    match ty {
        ParseType::Text => match parse_to_string(region) {
            Ok(s) => Ok(Data::Text(s)),
            Err(e) => Err(e),
        },
        ParseType::Real => match parse_to_string(region) {
            Ok(s) => Ok(Data::Real(s)),
            Err(e) => Err(e),
        },
        ParseType::Integer => {
            let n = region.len();
            let mut i: usize = 0;
            while i < n && region[i] == 32
                invariant
                    0 <= i <= n,
                    n == region@.len(),
                    forall|k: int| 0 <= k < i ==> #[trigger] region@[k] == 32,
                decreases n - i,
            {
                i = i + 1;
            }
            if i == n {
                return Ok(Data::Integer(None));
            }
            proof {
                assert(region@[i as int] != 32);
                assert(!all_spaces(region@));
                assert(region@.len() > 0);
            }
            match parse_to_i64(region) {
                Ok(v) => Ok(Data::Integer(Some(v))),
                Err(e) => Err(e),
            }
        },
    }
}

/// The first unit- or record-separator at or after `pos`, or -1.
pub open spec fn find_term(d: Seq<u8>, pos: int) -> int
    decreases d.len() - pos
        when pos >= 0
{
    if pos < 0 || pos >= d.len() {
        -1
    } else if d[pos] == 30 || d[pos] == 31 {
        pos
    } else {
        find_term(d, pos + 1)
    }
}

/// A scan that stops at the first separator computes `find_term`.
pub proof fn lemma_find_term_is(d: Seq<u8>, pos: int, j: int)
    requires
        0 <= pos <= j <= d.len(),
        forall|k: int| pos <= k < j ==> !(#[trigger] d[k] == 30 || d[k] == 31),
        j == d.len() || d[j] == 30 || d[j] == 31,
    ensures
        find_term(d, pos) == (if j == d.len() {
            -1int
        } else {
            j
        }),
    decreases j - pos,
{
    if pos < j {
        assert(!(d[pos] == 30 || d[pos] == 31));
        lemma_find_term_is(d, pos + 1, j);
    }
}

/// The byte region a scalar consumes as its value.
pub open spec fn scalar_region(pd: ParseData, d: Seq<u8>, pos: int) -> Seq<u8> {
    match pd {
        ParseData::Fixed(_, w) => d.subrange(pos, pos + w),
        ParseData::Variable(_) => d.subrange(pos, find_term(d, pos)),
    }
}

/// A scalar decodes at `pos`: a fixed width must fit before the end, a
/// variable width must find a separator, and the region must decode.
pub open spec fn scalar_ok(pd: ParseData, d: Seq<u8>, pos: int) -> bool {
    match pd {
        ParseData::Fixed(ty, w) => pos + w <= d.len() && region_ok(ty, scalar_region(pd, d, pos)),
        ParseData::Variable(ty) => find_term(d, pos) >= 0 && region_ok(
            ty,
            scalar_region(pd, d, pos),
        ),
    }
}

/// Where the cursor stands after a scalar: past a fixed width; past a
/// variable region's unit separator, or upon a record separator, which is
/// left for the field-level skip.
pub open spec fn scalar_end(pd: ParseData, d: Seq<u8>, pos: int) -> int {
    match pd {
        ParseData::Fixed(_, w) => pos + w,
        ParseData::Variable(_) => if find_term(d, pos) >= 0 && d[find_term(d, pos)] == 31 {
            find_term(d, pos) + 1
        } else {
            find_term(d, pos)
        },
    }
}

/// Decodes one scalar at the cursor, advancing it past the consumed bytes.
///
/// Succeeds exactly when the spec's region lies inside the area and decodes;
/// the cursor does not move on failure.
pub fn parse_scalar(pd: &ParseData, d: &[u8], pos: &mut usize) -> (r: Result<Data, Error>)
    requires
        *old(pos) <= d@.len(),
    ensures
        r is Ok <==> scalar_ok(*pd, d@, *old(pos) as int),
        r matches Ok(v) ==> {
            &&& data_is(pd_ty(*pd), scalar_region(*pd, d@, *old(pos) as int), v)
            &&& *final(pos) == scalar_end(*pd, d@, *old(pos) as int)
            &&& *final(pos) <= d@.len()
        },
        r is Err ==> *final(pos) == *old(pos),
        r matches Err(e) ==> (e.kind is UnexpectedEof || e.kind is Utf || e.kind is ParseInt),
{
    let p = *pos;
    let n = d.len();
    match *pd {
        ParseData::Fixed(_, w) => {
            if w > n - p {
                return Err(Error::new(ErrorKind::UnexpectedEof));
            }
            let region = vstd::slice::slice_subrange(d, p, p + w);
            let v = match decode_region(fixed_ty(pd), region) {
                Ok(v) => v,
                Err(e) => {
                    return Err(e);
                },
            };
            *pos = p + w;
            Ok(v)
        },
        ParseData::Variable(_) => {
            let mut j: usize = p;
            while j < n && d[j] != 30 && d[j] != 31
                invariant
                    p <= j <= n,
                    n == d@.len(),
                    forall|k: int| p <= k < j ==> !(#[trigger] d@[k] == 30 || d@[k] == 31),
                decreases n - j,
            {
                j = j + 1;
            }
            proof {
                lemma_find_term_is(d@, p as int, j as int);
            }
            if j == n {
                return Err(Error::new(ErrorKind::UnexpectedEof));
            }
            let region = vstd::slice::slice_subrange(d, p, j);
            let v = match decode_region(fixed_ty(pd), region) {
                Ok(v) => v,
                Err(e) => {
                    return Err(e);
                },
            };
            *pos = if d[j] == 31 {
                j + 1
            } else {
                j
            };
            Ok(v)
        },
    }
}

/// The scalar type of a format spec.
fn fixed_ty(pd: &ParseData) -> (r: ParseType)
    ensures
        r == pd_ty(*pd),
{
    match *pd {
        ParseData::Fixed(t, _) => t,
        ParseData::Variable(t) => t,
    }
}

} // verus!
