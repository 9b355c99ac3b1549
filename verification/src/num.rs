//! Decimal integers read from ASCII byte regions.
//!
//! The interchange format writes every number as decimal digit characters,
//! optionally preceded by a sign. `dec_val` is the mathematical value of a
//! digit sequence; the executable readers are proved against it.

use vstd::prelude::*;

use crate::error::{Error, ErrorKind};

verus! {

/// `b` is an ASCII decimal digit.
pub open spec fn is_digit(b: u8) -> bool {
    48 <= b <= 57
}

/// The numeric value of one ASCII digit.
pub open spec fn digit_val(b: u8) -> nat {
    (b - 48) as nat
}

/// Every byte of `s` is an ASCII decimal digit.
pub open spec fn all_digits(s: Seq<u8>) -> bool {
    forall|i: int| 0 <= i < s.len() ==> is_digit(#[trigger] s[i])
}

/// The value of a digit sequence read in base ten.
pub open spec fn dec_val(s: Seq<u8>) -> nat
    decreases s.len(),
{
    if s.len() == 0 {
        0
    } else {
        dec_val(s.drop_last()) * 10 + digit_val(s.last())
    }
}

/// Where the digit region of an unsigned decimal literal starts: an optional
/// single leading `+` is dropped.
pub open spec fn uint_digits_start(s: Seq<u8>) -> int {
    if s.len() > 0 && s[0] == 43 {
        1
    } else {
        0
    }
}

/// The digit region of an unsigned decimal literal.
pub open spec fn uint_digits(s: Seq<u8>) -> Seq<u8> {
    s.subrange(uint_digits_start(s), s.len() as int)
}

/// `s` is a well-formed unsigned decimal literal whose value fits in `usize`:
/// an optional `+`, then at least one digit.
pub open spec fn is_uint_str(s: Seq<u8>) -> bool {
    let d = uint_digits(s);
    d.len() > 0 && all_digits(d) && dec_val(d) <= usize::MAX
}

/// The value of the unsigned decimal literal `s`.
pub open spec fn uint_val(s: Seq<u8>) -> nat {
    dec_val(uint_digits(s))
}

/// Reading one more digit multiplies the prefix value by ten and adds it.
pub proof fn lemma_dec_val_take_succ(s: Seq<u8>, i: int)
    requires
        0 <= i < s.len(),
    ensures
        dec_val(s.take(i + 1)) == dec_val(s.take(i)) * 10 + digit_val(s[i]),
{
    assert(s.take(i + 1).drop_last() =~= s.take(i));
    assert(s.take(i + 1).last() == s[i]);
}

/// The value of a digit sequence is at least the value of any prefix.
pub proof fn lemma_dec_val_take_le(s: Seq<u8>, i: int)
    requires
        0 <= i <= s.len(),
    ensures
        dec_val(s.take(i)) <= dec_val(s),
    decreases s.len() - i,
{
    if i == s.len() {
        assert(s.take(i) =~= s);
    } else {
        lemma_dec_val_take_succ(s, i);
        lemma_dec_val_take_le(s, i + 1);
    }
}

/// Ten to the `n`.
pub open spec fn pow10(n: nat) -> nat
    decreases n,
{
    if n == 0 {
        1
    } else {
        10 * pow10((n - 1) as nat)
    }
}

/// A sequence of `n` digits has a value below ten to the `n`.
pub proof fn lemma_dec_val_bound(s: Seq<u8>)
    requires
        all_digits(s),
    ensures
        dec_val(s) < pow10(s.len()),
    decreases s.len(),
{
    if s.len() > 0 {
        assert(all_digits(s.drop_last()));
        lemma_dec_val_bound(s.drop_last());
        assert(digit_val(s.last()) <= 9);
    }
}

/// Reads an unsigned decimal integer from `bytes`, as the interchange format
/// stores record lengths, base addresses, entry-map widths, directory
/// lengths and offsets.
///
/// Succeeds exactly on `[+]digit+` whose value fits in `usize`.
pub fn parse_to_usize(bytes: &[u8]) -> (r: Result<usize, Error>)
    ensures
        r is Ok <==> is_uint_str(bytes@),
        r matches Ok(v) ==> v == uint_val(bytes@),
        r matches Err(e) ==> e.kind is ParseInt && e.cause is None,
{
    let n = bytes.len();
    let start: usize = if n > 0 && bytes[0] == 43 {
        1
    } else {
        0
    };
    if n == start {
        return Err(Error::new(ErrorKind::ParseInt));
    }
    let ghost digits = uint_digits(bytes@);
    proof {
        assert(digits =~= bytes@.subrange(start as int, n as int));
    }
    let mut acc: usize = 0;
    let mut i: usize = start;
    while i < n
        invariant
            start <= i <= n,
            n == bytes@.len(),
            start == uint_digits_start(bytes@),
            digits =~= bytes@.subrange(start as int, n as int),
            digits.take(i - start) =~= bytes@.subrange(start as int, i as int),
            all_digits(digits.take(i - start)),
            acc == dec_val(digits.take(i - start)),
        decreases n - i,
    {
        let b = bytes[i];
        if !(48 <= b && b <= 57) {
            proof {
                assert(digits[i - start] == b);
                assert(!is_digit(digits[i - start]));
                assert(!all_digits(digits));
            }
            return Err(Error::new(ErrorKind::ParseInt));
        }
        let shifted = match acc.checked_mul(10) {
            Some(m) => m,
            None => {
                proof {
                    lemma_dec_val_take_succ(digits, i - start);
                    lemma_dec_val_take_le(digits, i - start + 1);
                }
                return Err(Error::new(ErrorKind::ParseInt));
            },
        };
        let ghost old_acc = acc;
        acc = match shifted.checked_add((b - 48) as usize) {
            Some(v) => v,
            None => {
                proof {
                    lemma_dec_val_take_succ(digits, i - start);
                    lemma_dec_val_take_le(digits, i - start + 1);
                }
                return Err(Error::new(ErrorKind::ParseInt));
            },
        };
        proof {
            lemma_dec_val_take_succ(digits, i - start);
            assert(digits.take(i - start + 1) =~= bytes@.subrange(start as int, i + 1));
        }
        i = i + 1;
    }
    proof {
        assert(digits.take(n - start) =~= digits);
    }
    Ok(acc)
}

} // verus!
