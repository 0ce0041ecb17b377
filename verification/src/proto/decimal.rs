//! Decimal ASCII numbers, as the length fields of the protocol carry them.

use crate::error::Error;
use vstd::prelude::*;

verus! {

/// Whether `b` is one of the ASCII digits `0` to `9`.
pub open spec fn is_digit(b: u8) -> bool {
    48 <= b <= 57
}

/// Whether `s` is a decimal number: one digit or more, and digits only.
pub open spec fn is_decimal(s: Seq<u8>) -> bool {
    s.len() > 0 && forall|i: int| 0 <= i < s.len() ==> is_digit(#[trigger] s[i])
}

/// The number that the digits of `s` denote, most significant digit first.
pub open spec fn decimal_value(s: Seq<u8>) -> nat
    decreases s.len(),
{
    if s.len() == 0 {
        0
    } else {
        (decimal_value(s.drop_last()) * 10 + (s.last() - 48)) as nat
    }
}

/// The decimal digits of `n`, without leading zeros.
pub open spec fn decimal(n: nat) -> Seq<u8>
    decreases n,
{
    if n < 10 {
        seq![(48 + n) as u8]
    } else {
        decimal(n / 10).push((48 + n % 10) as u8)
    }
}

/// Reading back the digits of a number gives the number.
pub proof fn lemma_decimal_round_trip(n: nat)
    ensures
        is_decimal(decimal(n)),
        decimal_value(decimal(n)) == n,
    decreases n,
{
    if n < 10 {
        let s = decimal(n);
        assert(s.drop_last() =~= Seq::<u8>::empty());
        assert(decimal_value(s.drop_last()) == 0);
    } else {
        lemma_decimal_round_trip(n / 10);
        let s = decimal(n);
        assert(s.drop_last() =~= decimal(n / 10));
    }
}

/// A number read from more digits is no smaller than the one read from
/// fewer of them.
pub proof fn lemma_decimal_value_prefix(s: Seq<u8>, k: int)
    requires
        0 <= k <= s.len(),
        forall|i: int| 0 <= i < s.len() ==> is_digit(#[trigger] s[i]),
    ensures
        decimal_value(s.subrange(0, k)) <= decimal_value(s),
    decreases s.len() - k,
{
    if k == s.len() {
        assert(s.subrange(0, k) =~= s);
    } else {
        lemma_decimal_value_prefix(s, k + 1);
        let t = s.subrange(0, k + 1);
        assert(t.drop_last() =~= s.subrange(0, k));
    }
}

/// What a length field announces whose colons enclose `digits`: the number
/// that they denote, where they are a decimal number that fits a `usize`.
pub open spec fn announced(digits: Seq<u8>) -> Result<usize, Error> {
    if !is_decimal(digits) {
        Err(Error::InvalidLength)
    } else if decimal_value(digits) > usize::MAX {
        Err(Error::LengthTooLarge)
    } else {
        Ok(decimal_value(digits) as usize)
    }
}

/// Reads the digits of a length field.
pub fn parse_length(digits: &[u8]) -> (r: Result<usize, Error>)
    ensures
        r == announced(digits@),
{
    if digits.len() == 0 {
        return Err(Error::InvalidLength);
    }
    let mut i: usize = 0;
    while i < digits.len()
        invariant
            0 <= i <= digits.len(),
            forall|j: int| 0 <= j < i ==> is_digit(#[trigger] digits@[j]),
        decreases digits.len() - i,
    {
        if digits[i] < 48 || digits[i] > 57 {
            return Err(Error::InvalidLength);
        }
        i += 1;
    }
    let mut n: usize = 0;
    let mut overflow = false;
    let mut k: usize = 0;
    while k < digits.len()
        invariant
            0 <= k <= digits.len(),
            is_decimal(digits@),
            !overflow ==> n == decimal_value(digits@.subrange(0, k as int)),
            overflow ==> decimal_value(digits@) > usize::MAX,
        decreases digits.len() - k,
    {
        if !overflow {
            let d: usize = (digits[k] - 48) as usize;
            proof {
                let t = digits@.subrange(0, k + 1);
                assert(t.drop_last() =~= digits@.subrange(0, k as int));
                assert(t.last() == digits@[k as int]);
                lemma_decimal_value_prefix(digits@, k + 1);
            }
            match n.checked_mul(10) {
                Some(m) => match m.checked_add(d) {
                    Some(v) => {
                        n = v;
                    },
                    None => {
                        overflow = true;
                    },
                },
                None => {
                    overflow = true;
                },
            }
        }
        k += 1;
    }
    if overflow {
        Err(Error::LengthTooLarge)
    } else {
        assert(digits@.subrange(0, k as int) =~= digits@);
        Ok(n)
    }
}

/// Writes `n` in decimal digits, without leading zeros.
pub fn to_decimal(n: usize) -> (digits: Vec<u8>)
    ensures
        digits@ == decimal(n as nat),
    decreases n,
{
    if n < 10 {
        let mut digits: Vec<u8> = Vec::new();
        digits.push(48 + n as u8);
        assert(digits@ =~= decimal(n as nat));
        digits
    } else {
        let mut digits = to_decimal(n / 10);
        digits.push(48 + (n % 10) as u8);
        digits
    }
}

} // verus!
