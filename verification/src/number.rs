//! Decimal numbers as fixed-point scalars.
use vstd::prelude::*;
use crate::styles::Scalar;
use crate::text::{find_from, first_at, lemma_first_at, lemma_first_within};

verus! {

/// Why a text is no number.
#[derive(Clone, Copy, Debug, PartialEq, Eq, Structural)]
pub enum NumberError {
    /// The text is not an optional sign followed by digits with at most one
    /// decimal point and at least one digit.
    Malformed,
    /// The number does not fit a scalar.
    OutOfRange,
}

/// The largest number of thousandths that a scalar holds.
pub const SCALAR_MAX: u64 = 9223372036854775807;

/// The largest whole part of a scalar.
pub const WHOLE_MAX: u64 = 9223372036854775;

/// Whether `c` is a decimal digit.
pub open spec fn is_digit(c: char) -> bool {
    '0' <= c <= '9'
}

/// The value of a decimal digit.
pub open spec fn digit_value(c: char) -> int {
    c as u32 - '0' as u32
}

/// Whether `s` holds decimal digits only.
pub open spec fn all_digits(s: Seq<char>) -> bool {
    forall|i: int| 0 <= i < s.len() ==> is_digit(#[trigger] s[i])
}

/// The number that the digits of `s` write.
pub open spec fn digits_value(s: Seq<char>) -> int
    decreases s.len(),
{
    if s.len() == 0 {
        0
    } else {
        digits_value(s.drop_last()) * 10 + digit_value(s.last())
    }
}

/// The digit of `s` at `i`, or zero beyond its end.
pub open spec fn digit_or_zero(s: Seq<char>, i: int) -> int {
    if 0 <= i < s.len() {
        digit_value(s[i])
    } else {
        0
    }
}

/// The first three digits after the decimal point, as thousandths.
pub open spec fn thousandths(frac: Seq<char>) -> int {
    digit_or_zero(frac, 0) * 100 + digit_or_zero(frac, 1) * 10 + digit_or_zero(frac, 2)
}

/// The thousandths that an unsigned decimal writes: digits with at most one
/// decimal point and at least one digit. Digits beyond the third decimal
/// place are cut off.
pub open spec fn decimal(s: Seq<char>) -> Option<int> {
    let dot = first_at(s, '.', 0);
    let whole = s.subrange(0, dot);
    let frac = if dot < s.len() {
        s.subrange(dot + 1, s.len() as int)
    } else {
        Seq::empty()
    };
    if all_digits(whole) && all_digits(frac) && whole.len() + frac.len() > 0 {
        Some(digits_value(whole) * 1000 + thousandths(frac))
    } else {
        None
    }
}

/// The thousandths that a decimal with an optional sign writes.
pub open spec fn signed_decimal(s: Seq<char>) -> Option<int> {
    if s.len() > 0 && s[0] == '-' {
        match decimal(s.drop_first()) {
            Some(v) => Some(-v),
            None => None,
        }
    } else if s.len() > 0 && s[0] == '+' {
        decimal(s.drop_first())
    } else {
        decimal(s)
    }
}

/// The scalar of a number of thousandths, if there is one and it fits.
pub open spec fn scalar_of(value: Option<int>) -> Result<Scalar, NumberError> {
    match value {
        Some(v) => if -(SCALAR_MAX as int) <= v <= SCALAR_MAX as int {
            Ok(Scalar { thousandths: v as i64 })
        } else {
            Err(NumberError::OutOfRange)
        },
        None => Err(NumberError::Malformed),
    }
}

/// The number of a run of digits is not negative.
pub proof fn lemma_digits_nonnegative(s: Seq<char>)
    requires
        all_digits(s),
    ensures
        0 <= digits_value(s),
    decreases s.len(),
{
    if s.len() > 0 {
        assert(is_digit(s.last()));
        assert forall|i: int| 0 <= i < s.drop_last().len() implies is_digit(
            #[trigger] s.drop_last()[i],
        ) by {
            assert(s.drop_last()[i] == s[i]);
        }
        lemma_digits_nonnegative(s.drop_last());
    }
}

/// Whether the characters of `v` from `lo` up to `hi` are digits.
fn digits_only(v: &Vec<char>, lo: usize, hi: usize) -> (r: bool)
    requires
        lo <= hi <= v@.len(),
    ensures
        r == all_digits(v@.subrange(lo as int, hi as int)),
{
    let mut i = lo;
    while i < hi
        invariant
            lo <= i <= hi <= v@.len(),
            forall|j: int| lo <= j < i ==> is_digit(#[trigger] v@[j]),
        decreases hi - i,
    {
        if !(v[i] >= '0' && v[i] <= '9') {
            proof {
                let s = v@.subrange(lo as int, hi as int);
                assert(s[i - lo] == v@[i as int]);
            }
            return false;
        }
        i += 1;
    }
    proof {
        let s = v@.subrange(lo as int, hi as int);
        assert forall|j: int| 0 <= j < s.len() implies is_digit(#[trigger] s[j]) by {
            assert(s[j] == v@[j + lo]);
        }
    }
    true
}

/// The value of the digit `c`.
fn digit(c: char) -> (d: u64)
    requires
        is_digit(c),
    ensures
        d == digit_value(c),
        d <= 9,
{
    (c as u32 - '0' as u32) as u64
}

/// The unsigned decimal that the characters of `v` from `lo` on write, in thousandths.
fn parse_unsigned(v: &Vec<char>, lo: usize) -> (r: Result<u64, NumberError>)
    requires
        lo <= v@.len(),
    ensures
        match decimal(v@.subrange(lo as int, v@.len() as int)) {
            Some(value) => if value <= SCALAR_MAX {
                r == Ok::<u64, NumberError>(value as u64)
            } else {
                r == Err::<u64, NumberError>(NumberError::OutOfRange)
            },
            None => r == Err::<u64, NumberError>(NumberError::Malformed),
        },
        r matches Ok(x) ==> x <= SCALAR_MAX && decimal(v@.subrange(lo as int, v@.len() as int))
            == Some(x as int),
{
    let n = v.len();
    let ghost s = v@.subrange(lo as int, n as int);
    let dot = find_from(v, '.', lo);
    proof {
        lemma_first_at(v@, '.', lo as int);
        lemma_first_at(s, '.', 0);
        lemma_first_within(v@, '.', lo as int, n as int, lo as int);
    }
    let ghost whole = s.subrange(0, dot - lo);
    assert(whole =~= v@.subrange(lo as int, dot as int));
    let frac_lo = if dot < n {
        dot + 1
    } else {
        n
    };
    let ghost frac = if dot < n {
        s.subrange(dot - lo + 1, s.len() as int)
    } else {
        Seq::<char>::empty()
    };
    assert(frac =~= v@.subrange(frac_lo as int, n as int));
    if !digits_only(v, lo, dot) || !digits_only(v, frac_lo, n) || (dot - lo) + (n - frac_lo) == 0 {
        return Err(NumberError::Malformed);
    }
    let mut acc: u64 = 0;
    let mut big = false;
    let mut i = lo;
    assert(whole.subrange(0, 0) =~= Seq::<char>::empty());
    while i < dot
        invariant
            lo <= i <= dot <= n,
            n == v@.len(),
            whole == v@.subrange(lo as int, dot as int),
            all_digits(whole),
            !big ==> acc == digits_value(whole.subrange(0, i - lo)) && acc <= WHOLE_MAX,
            big ==> digits_value(whole.subrange(0, i - lo)) > WHOLE_MAX,
        decreases dot - i,
    {
        proof {
            let longer = whole.subrange(0, i - lo + 1);
            assert(longer.drop_last() =~= whole.subrange(0, i - lo));
            assert(longer.last() == v@[i as int]);
            assert(is_digit(whole[i - lo]));
        }
        let d = digit(v[i]);
        if !big {
            if acc > (WHOLE_MAX - d) / 10 {
                big = true;
            } else {
                acc = acc * 10 + d;
            }
        }
        i += 1;
    }
    proof {
        assert(whole.subrange(0, dot - lo) =~= whole);
    }
    if big {
        proof {
            lemma_digits_nonnegative(whole);
        }
        return Err(NumberError::OutOfRange);
    }
    let mut part: u64 = 0;
    let mut k: usize = 0;
    while k < 3
        invariant
            k <= 3,
            frac_lo <= n,
            n == v@.len(),
            frac == v@.subrange(frac_lo as int, n as int),
            all_digits(frac),
            part <= 999,
            k == 0 ==> part == 0,
            k == 1 ==> part == digit_or_zero(frac, 0),
            k == 2 ==> part == digit_or_zero(frac, 0) * 10 + digit_or_zero(frac, 1),
            k == 3 ==> part == thousandths(frac),
        decreases 3 - k,
    {
        let d = if k < n - frac_lo {
            proof {
                assert(frac[k as int] == v@[frac_lo + k]);
                assert(is_digit(frac[k as int]));
            }
            digit(v[frac_lo + k])
        } else {
            0
        };
        part = part * 10 + d;
        k += 1;
    }
    let total = acc * 1000 + part;
    proof {
        lemma_digits_nonnegative(whole);
    }
    if total > SCALAR_MAX {
        Err(NumberError::OutOfRange)
    } else {
        Ok(total)
    }
}

/// Reads a decimal number with an optional sign: digits with at most one
/// decimal point and at least one digit. Digits beyond the third decimal
/// place are cut off.
pub fn parse_scalar(v: &Vec<char>) -> (r: Result<Scalar, NumberError>)
    ensures
        r == scalar_of(signed_decimal(v@)),
{
    let n = v.len();
    if n > 0 && (v[0] == '-' || v[0] == '+') {
        assert(v@.drop_first() =~= v@.subrange(1, n as int));
        match parse_unsigned(v, 1) {
            Ok(value) => {
                if v[0] == '-' {
                    Ok(Scalar { thousandths: -(value as i64) })
                } else {
                    Ok(Scalar { thousandths: value as i64 })
                }
            },
            Err(e) => Err(e),
        }
    } else {
        assert(v@ =~= v@.subrange(0, n as int));
        match parse_unsigned(v, 0) {
            Ok(value) => Ok(Scalar { thousandths: value as i64 }),
            Err(e) => Err(e),
        }
    }
}

} // verus!
