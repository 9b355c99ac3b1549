//! Format controls: the mini-language of typed width specifiers.
//!
//! A format-control region is a parenthesized, comma-separated list of
//! elements `[count]letter[(width)]`; each element expands into `count`
//! copies of its format spec (one when the count is absent), and the flat
//! expansion, in order, is the subfield decoding recipe.

use vstd::prelude::*;

use crate::error::{Error, ErrorKind};
use crate::num::{all_digits, dec_val, is_digit, is_uint_str, parse_to_usize, uint_val};
use crate::split::{part_views, spec_split, split_bytes};

verus! {

/// The scalar type of one subfield value.
#[derive(Debug, PartialEq, Eq, Structural, Clone, Copy)]
pub enum ParseType {
    /// Character data (`A`).
    Text,
    /// Implicit-point integer data (`I`).
    Integer,
    /// Explicit-point real data (`R`), kept as its character form.
    Real,
}

/// One subfield's decoding recipe: a scalar type at a fixed byte width, or a
/// delimited variable width.
#[derive(Debug, PartialEq, Eq, Structural, Clone, Copy)]
pub enum ParseData {
    /// Exactly the given number of bytes.
    Fixed(ParseType, usize),
    /// Bytes up to the next unit or record separator.
    Variable(ParseType),
}

/// The scalar type a format letter denotes, if any.
pub open spec fn ty_of(b: u8) -> Option<ParseType> {
    if b == 65 {
        Some(ParseType::Text)
    } else if b == 73 {
        Some(ParseType::Integer)
    } else if b == 82 {
        Some(ParseType::Real)
    } else {
        None
    }
}

/// How many leading bytes of `s` are decimal digits.
pub open spec fn digits_len(s: Seq<u8>) -> int
    decreases s.len(),
{
    if s.len() == 0 || !is_digit(s[0]) {
        0
    } else {
        1 + digits_len(s.drop_first())
    }
}

/// The digit prefix is exactly the region up to the first non-digit.
pub proof fn lemma_digits_len(s: Seq<u8>)
    ensures
        0 <= digits_len(s) <= s.len(),
        forall|i: int| 0 <= i < digits_len(s) ==> is_digit(#[trigger] s[i]),
        digits_len(s) < s.len() ==> !is_digit(s[digits_len(s)]),
    decreases s.len(),
{
    if s.len() > 0 && is_digit(s[0]) {
        lemma_digits_len(s.drop_first());
        assert forall|i: int| 0 <= i < digits_len(s) implies is_digit(#[trigger] s[i]) by {
            if i > 0 {
                assert(is_digit(s.drop_first()[i - 1]));
            }
        }
        if digits_len(s) < s.len() {
            assert(!is_digit(s.drop_first()[digits_len(s) - 1]));
        }
    }
}

/// A point that cuts digits from a non-digit is the digit prefix length.
pub proof fn lemma_digits_len_is(s: Seq<u8>, i: int)
    requires
        0 <= i <= s.len(),
        forall|j: int| 0 <= j < i ==> is_digit(#[trigger] s[j]),
        i == s.len() || !is_digit(s[i]),
    ensures
        digits_len(s) == i,
    decreases s.len(),
{
    if s.len() == 0 {
    } else if !is_digit(s[0]) {
        assert(i == 0);
    } else {
        assert(i >= 1);
        lemma_digits_len_is(s.drop_first(), i - 1);
    }
}

/// A format element is well-formed: an optional digit count that fits the
/// machine word, a recognized type letter, and either nothing or a
/// parenthesized width that fits the machine word.
pub open spec fn elem_ok(e: Seq<u8>) -> bool {
    let dl = digits_len(e);
    &&& dl < e.len()
    &&& ty_of(e[dl]) is Some
    &&& (dl > 0 ==> dec_val(e.subrange(0, dl)) <= usize::MAX)
    &&& {
        let rest = e.subrange(dl + 1, e.len() as int);
        ||| rest.len() == 0
        ||| (rest.len() >= 3 && rest[0] == 40 && rest.last() == 41 && is_uint_str(
            rest.subrange(1, rest.len() - 1),
        ))
    }
}

/// The repeat count of a well-formed format element; one when absent.
pub open spec fn elem_count(e: Seq<u8>) -> nat {
    let dl = digits_len(e);
    if dl == 0 {
        1
    } else {
        dec_val(e.subrange(0, dl))
    }
}

/// The format spec of a well-formed format element.
pub open spec fn elem_data(e: Seq<u8>) -> ParseData {
    let dl = digits_len(e);
    let ty = ty_of(e[dl])->0;
    let rest = e.subrange(dl + 1, e.len() as int);
    if rest.len() == 0 {
        ParseData::Variable(ty)
    } else {
        ParseData::Fixed(ty, uint_val(rest.subrange(1, rest.len() - 1)) as usize)
    }
}

/// `n` copies of one format spec.
pub open spec fn repeat_pd(pd: ParseData, n: nat) -> Seq<ParseData> {
    Seq::new(n, |i: int| pd)
}

/// Every element of the list is well-formed.
pub open spec fn elems_ok(parts: Seq<Seq<u8>>) -> bool {
    forall|i: int| 0 <= i < parts.len() ==> elem_ok(#[trigger] parts[i])
}

/// The flat expansion of a format-element list: each element repeated by its
/// count, in order.
pub open spec fn expand_elems(parts: Seq<Seq<u8>>) -> Seq<ParseData>
    decreases parts.len(),
{
    if parts.len() == 0 {
        Seq::empty()
    } else {
        repeat_pd(elem_data(parts[0]), elem_count(parts[0])) + expand_elems(parts.drop_first())
    }
}

/// Expansion grows element by element.
pub proof fn lemma_expand_take_succ(parts: Seq<Seq<u8>>, j: int)
    requires
        0 <= j < parts.len(),
    ensures
        expand_elems(parts.take(j + 1)) == expand_elems(parts.take(j)) + repeat_pd(
            elem_data(parts[j]),
            elem_count(parts[j]),
        ),
    decreases j,
{
    if j == 0 {
        assert(parts.take(1).drop_first() =~~= Seq::<Seq<u8>>::empty());
        assert(parts.take(1)[0] == parts[0]);
        assert(expand_elems(Seq::<Seq<u8>>::empty()) =~= Seq::<ParseData>::empty());
        assert(expand_elems(parts.take(1)) =~= repeat_pd(elem_data(parts[0]), elem_count(parts[0])));
        assert(expand_elems(parts.take(0)) =~= Seq::<ParseData>::empty());
        assert(expand_elems(parts.take(1)) =~= expand_elems(parts.take(0)) + repeat_pd(
            elem_data(parts[0]),
            elem_count(parts[0]),
        ));
    } else {
        let q = parts.drop_first();
        lemma_expand_take_succ(q, j - 1);
        assert(parts.take(j + 1).drop_first() =~~= q.take(j));
        assert(parts.take(j).drop_first() =~~= q.take(j - 1));
        assert(parts.take(j + 1)[0] == parts[0]);
        assert(parts.take(j)[0] == parts[0]);
        assert(q[j - 1] == parts[j]);
        assert(expand_elems(parts.take(j + 1)) =~= expand_elems(parts.take(j)) + repeat_pd(
            elem_data(parts[j]),
            elem_count(parts[j]),
        ));
    }
}

/// Decodes one format element `[count]letter[(width)]`.
///
/// Succeeds exactly on well-formed elements, yielding the count and spec.
pub fn parse_format_element(e: &[u8]) -> (r: Result<(usize, ParseData), Error>)
    ensures
        r is Ok <==> elem_ok(e@),
        r matches Ok(v) ==> v.0 == elem_count(e@) && v.1 == elem_data(e@),
        r matches Err(err) ==> err.kind is BadFormatControls,
{
    let n = e.len();
    let mut dl: usize = 0;
    while dl < n && 48 <= e[dl] && e[dl] <= 57
        invariant
            0 <= dl <= n,
            n == e@.len(),
            forall|j: int| 0 <= j < dl ==> is_digit(#[trigger] e@[j]),
        decreases n - dl,
    {
        dl = dl + 1;
    }
    proof {
        lemma_digits_len_is(e@, dl as int);
    }
    if dl == n {
        return Err(Error::new(ErrorKind::BadFormatControls));
    }
    let ty = match e[dl] {
        65 => ParseType::Text,
        73 => ParseType::Integer,
        82 => ParseType::Real,
        _ => {
            return Err(Error::new(ErrorKind::BadFormatControls));
        },
    };
    let cnt: usize = if dl == 0 {
        1
    } else {
        match parse_to_usize(vstd::slice::slice_subrange(e, 0, dl)) {
            Ok(v) => v,
            Err(_) => {
                proof {
                    let d = e@.subrange(0, dl as int);
                    assert(d[0] != 43);
                    assert(crate::num::uint_digits(d) =~= d);
                }
                return Err(Error::new(ErrorKind::BadFormatControls));
            },
        }
    };
    proof {
        if dl > 0 {
            let d = e@.subrange(0, dl as int);
            assert(d[0] != 43);
            assert(crate::num::uint_digits(d) =~= d);
        }
    }
    if dl + 1 == n {
        proof {
            assert(e@.subrange(dl as int + 1, n as int).len() == 0);
        }
        return Ok((cnt, ParseData::Variable(ty)));
    }
    let ghost rest = e@.subrange(dl as int + 1, n as int);
    proof {
        assert(rest.len() >= 1);
        assert(rest[0] == e@[dl as int + 1]);
        assert(rest.last() == e@[n as int - 1]);
    }
    if n - dl < 4 || e[dl + 1] != 40 || e[n - 1] != 41 {
        return Err(Error::new(ErrorKind::BadFormatControls));
    }
    proof {
        assert(rest.len() >= 3);
        assert(rest.subrange(1, rest.len() - 1) =~= e@.subrange(dl as int + 2, n as int - 1));
    }
    let width = match parse_to_usize(vstd::slice::slice_subrange(e, dl + 2, n - 1)) {
        Ok(v) => v,
        Err(_) => {
            return Err(Error::new(ErrorKind::BadFormatControls));
        },
    };
    Ok((cnt, ParseData::Fixed(ty, width)))
}

/// Decodes a format-control region into the flat, repeat-expanded sequence
/// of format specs.
///
/// A region of fewer than two bytes cannot contain a parenthesized list and
/// always fails with the empty-format-controls error. Otherwise the first
/// and last bytes are dropped, the rest is split on commas, and the region
/// decodes exactly when every element is well-formed.
pub fn parse_format_controls(byte: &[u8]) -> (r: Result<Vec<ParseData>, Error>)
    ensures
        byte@.len() < 2 ==> (r matches Err(e) && e.kind is EmptyFormatControls),
        byte@.len() >= 2 ==> {
            let parts = spec_split(byte@.subrange(1, byte@.len() - 1), 44);
            &&& (r is Ok <==> elems_ok(parts))
            &&& (r matches Ok(v) ==> v@ == expand_elems(parts))
            &&& (r matches Err(e) ==> e.kind is BadFormatControls)
        },
{
    let n = byte.len();
    if n < 2 {
        return Err(Error::new(ErrorKind::EmptyFormatControls));
    }
    let inner = vstd::slice::slice_subrange(byte, 1, n - 1);
    let parts = split_bytes(inner, 44);
    let ghost pviews = spec_split(byte@.subrange(1, n as int - 1), 44);
    proof {
        assert(part_views(parts@) == pviews);
    }
    let mut out: Vec<ParseData> = Vec::new();
    let mut j: usize = 0;
    proof {
        assert(pviews.take(0) =~~= Seq::<Seq<u8>>::empty());
        assert(out@ =~= expand_elems(pviews.take(0)));
    }
    while j < parts.len()
        invariant
            0 <= j <= parts@.len(),
            n == byte@.len(),
            n >= 2,
            pviews == spec_split(byte@.subrange(1, n as int - 1), 44),
            part_views(parts@) == pviews,
            elems_ok(pviews.take(j as int)),
            out@ == expand_elems(pviews.take(j as int)),
        decreases parts@.len() - j,
    {
        proof {
            assert(parts@[j as int]@ == pviews[j as int]);
        }
        let (cnt, pd) = match parse_format_element(parts[j].as_slice()) {
            Ok(v) => v,
            Err(e) => {
                proof {
                    assert(!elem_ok(pviews[j as int]));
                }
                return Err(e);
            },
        };
        proof {
            lemma_expand_take_succ(pviews, j as int);
        }
        let mut c: usize = 0;
        while c < cnt
            invariant
                0 <= c <= cnt,
                cnt == elem_count(pviews[j as int]),
                pd == elem_data(pviews[j as int]),
                0 <= j < pviews.len(),
                out@ == expand_elems(pviews.take(j as int)) + repeat_pd(pd, c as nat),
            decreases cnt - c,
        {
            proof {
                assert(repeat_pd(pd, c as nat + 1) =~= repeat_pd(pd, c as nat).push(pd));
            }
            out.push(pd);
            c = c + 1;
        }
        proof {
            assert(out@ == expand_elems(pviews.take(j as int + 1)));
        }
        j = j + 1;
    }
    proof {
        assert(pviews.take(pviews.len() as int) =~~= pviews);
    }
    Ok(out)
}

} // verus!
