//! Reading a field selection: a line of text that holds the index of a
//! header, written in base ten.

use crate::rules::{trim, trimmed};
use vstd::prelude::*;
use vstd::string::StringSliceAdditionalSpecFns;
use vstd::utf8::encode_utf8;

verus! {

/// Why a selection was refused.
#[derive(Clone, Copy, Debug, PartialEq, Eq, Structural)]
pub enum SelectError {
    /// The text is not a number in base ten, or the number does not fit the
    /// machine's index type.
    NotANumber,
    /// The number is not the index of a header.
    OutOfRange,
}

/// Every byte is an ASCII digit.
pub open spec fn all_digits(b: Seq<u8>) -> bool {
    forall|i: int| 0 <= i < b.len() ==> 48 <= #[trigger] b[i] <= 57
}

/// The number that the digits of `b` write in base ten.
pub open spec fn digits_value(b: Seq<u8>) -> nat
    decreases b.len(),
{
    if b.len() == 0 {
        0
    } else {
        (digits_value(b.drop_last()) * 10 + (b.last() - 48)) as nat
    }
}

/// The digits of a number text: the text itself, without a plus sign at its
/// start if it has one.
pub open spec fn unsigned_part(b: Seq<u8>) -> Seq<u8> {
    if b.len() > 0 && b[0] == 43 {
        b.drop_first()
    } else {
        b
    }
}

/// The number that `text` holds: between whitespace, an optional plus sign
/// and then digits only, at least one.
pub open spec fn selection(text: Seq<char>) -> Option<nat> {
    let digits = unsigned_part(encode_utf8(trimmed(text)));
    if digits.len() > 0 && all_digits(digits) {
        Some(digits_value(digits))
    } else {
        None
    }
}

/// More digits write no smaller number.
pub proof fn lemma_digits_value_grows(b: Seq<u8>, k: int)
    requires
        all_digits(b),
        0 <= k <= b.len(),
    ensures
        digits_value(b.take(k)) <= digits_value(b),
    decreases b.len() - k,
{
    if k < b.len() {
        lemma_digits_value_grows(b, k + 1);
        assert(b.take(k + 1).drop_last() =~= b.take(k));
        assert(b.take(k + 1).last() == b[k]);
    } else {
        assert(b.take(k) =~= b);
    }
}

/// Reads the number that `text` holds, if it holds one that fits.
pub fn parse_selection(text: &str) -> (r: Option<usize>)
    ensures
        r == match selection(text@) {
            Some(v) => if v <= usize::MAX {
                Some(v as usize)
            } else {
                None
            },
            None => None,
        },
{
    let bytes = trim(text).as_bytes();
    let start: usize = if bytes.len() > 0 && bytes[0] == 43 {
        1
    } else {
        0
    };
    let ghost digits = unsigned_part(bytes@);
    assert(digits =~= bytes@.skip(start as int));
    if start == bytes.len() {
        return None;
    }
    let mut value: usize = 0;
    let mut i: usize = start;
    assert(digits.take(0) =~= Seq::<u8>::empty());
    while i < bytes.len()
        invariant
            start <= i <= bytes.len(),
            start < bytes.len(),
            bytes@ == encode_utf8(trimmed(text@)),
            digits == unsigned_part(bytes@),
            digits == bytes@.skip(start as int),
            all_digits(digits.take(i - start)),
            value == digits_value(digits.take(i - start)),
        decreases bytes.len() - i,
    {
        let b = bytes[i];
        assert(digits[i - start] == b);
        if b < 48 || b > 57 {
            return None;
        }
        proof {
            let t = digits.take(i - start + 1);
            assert(t.drop_last() =~= digits.take(i - start));
            assert(t.last() == b);
            assert forall|j: int| 0 <= j < t.len() implies 48 <= #[trigger] t[j] <= 57 by {
                if j < t.len() - 1 {
                    assert(t[j] == digits.take(i - start)[j]);
                }
            }
        }
        let next = match value.checked_mul(10) {
            Some(v) => v.checked_add((b - 48) as usize),
            None => None,
        };
        match next {
            Some(v) => {
                value = v;
            },
            None => {
                let mut j: usize = i + 1;
                while j < bytes.len()
                    invariant
                        i < j <= bytes.len(),
                        start <= i,
                        bytes@ == encode_utf8(trimmed(text@)),
                        digits == unsigned_part(bytes@),
                        digits == bytes@.skip(start as int),
                        all_digits(digits.take(j - start)),
                    decreases bytes.len() - j,
                {
                    let c = bytes[j];
                    assert(digits[j - start] == c);
                    if c < 48 || c > 57 {
                        return None;
                    }
                    proof {
                        let t = digits.take(j - start + 1);
                        assert forall|m: int| 0 <= m < t.len() implies 48 <= #[trigger] t[m]
                            <= 57 by {
                            if m < t.len() - 1 {
                                assert(t[m] == digits.take(j - start)[m]);
                            }
                        }
                    }
                    j += 1;
                }
                proof {
                    assert(digits.take(bytes.len() - start) =~= digits);
                    lemma_digits_value_grows(digits, i - start + 1);
                }
                return None;
            },
        }
        i += 1;
    }
    assert(digits.take(bytes.len() - start) =~= digits);
    Some(value)
}

/// Reads a selection and holds it against the headers: the index that
/// `text` holds, if it is the index of one of `header_count` headers.
pub fn select_field(text: &str, header_count: usize) -> (r: Result<usize, SelectError>)
    ensures
        match r {
            Ok(index) => selection(text@) == Some(index as nat) && index < header_count,
            Err(SelectError::NotANumber) => selection(text@) is None || selection(text@)->0
                > usize::MAX,
            Err(SelectError::OutOfRange) => selection(text@) is Some && header_count
                <= selection(text@)->0 <= usize::MAX,
        },
{
    match parse_selection(text) {
        None => Err(SelectError::NotANumber),
        Some(index) => if index < header_count {
            Ok(index)
        } else {
            Err(SelectError::OutOfRange)
        },
    }
}

} // verus!
