//! Models of the small text scans the sources share.
use vstd::prelude::*;
use crate::json_utils::{is_digit, is_ws, skip_while, ws_fn};

verus! {

/// First index at or after `lo` of the trailing whitespace run that ends
/// at `e`.
pub open spec fn trim_end(s: Seq<u8>, lo: int, e: int) -> int
    decreases e - lo,
{
    if e > lo && is_ws(s[e - 1]) {
        trim_end(s, lo, e - 1)
    } else {
        e
    }
}

/// `s` without leading and trailing spaces, tabs, CR and LF.
pub open spec fn trimmed(s: Seq<u8>) -> Seq<u8> {
    let a = skip_while(s, 0, ws_fn());
    s.subrange(a, trim_end(s, a, s.len() as int))
}

pub open spec fn all_digits(s: Seq<u8>) -> bool {
    forall|i: int| 0 <= i < s.len() ==> is_digit(#[trigger] s[i])
}

/// Value of a run of decimal digits.
pub open spec fn digits_value(s: Seq<u8>) -> nat
    decreases s.len(),
{
    if s.len() == 0 {
        0
    } else {
        digits_value(s.drop_last()) * 10 + (s.last() - 48) as nat
    }
}

/// Reading the digits of `s` from the left never exceeds `max` before the
/// first non-digit.
pub open spec fn digits_fit(s: Seq<u8>, max: nat) -> bool {
    forall|k: int| 0 <= k <= s.len() && all_digits(#[trigger] s.take(k)) ==> digits_value(s.take(k)) <= max
}

/// `s` read as a non-empty decimal number.
pub open spec fn parse_decimal(s: Seq<u8>) -> Option<nat> {
    if s.len() > 0 && all_digits(s) {
        Some(digits_value(s))
    } else {
        None
    }
}

pub proof fn lemma_all_digits_step(s: Seq<u8>, k: int)
    requires
        0 <= k < s.len(),
        all_digits(s.take(k)),
        is_digit(s[k]),
    ensures
        all_digits(s.take(k + 1)),
        s.take(k + 1).drop_last() == s.take(k),
        s.take(k + 1).last() == s[k],
{
    assert(s.take(k + 1).drop_last() =~= s.take(k));
    let t = s.take(k + 1);
    assert forall|j: int| 0 <= j < t.len() implies is_digit(#[trigger] t[j]) by {
        if j < k {
            assert(t[j] == s.take(k)[j]);
        }
    }
}

/// Reads the non-empty all-digit `bytes` as a number.
pub fn parse_decimal_exec(bytes: &[u8]) -> (r: Option<usize>)
    requires
        digits_fit(bytes@, usize::MAX as nat),
    ensures
        match r {
            Some(n) => parse_decimal(bytes@) == Some(n as nat),
            None => parse_decimal(bytes@) is None,
        },
{
    let mut n: usize = 0;
    let mut i: usize = 0;
    while i < bytes.len()
        invariant
            0 <= i <= bytes@.len(),
            all_digits(bytes@.take(i as int)),
            n == digits_value(bytes@.take(i as int)),
            digits_fit(bytes@, usize::MAX as nat),
        decreases bytes@.len() - i,
    {
        let b = bytes[i];
        if b < 48 || b > 57 {
            assert(!all_digits(bytes@)) by {
                assert(bytes@[i as int] == b);
            }
            return None;
        }
        proof {
            lemma_all_digits_step(bytes@, i as int);
        }
        n = n * 10 + (b - 48) as usize;
        i = i + 1;
    }
    assert(bytes@.take(bytes@.len() as int) =~= bytes@);
    if i == 0 {
        return None;
    }
    Some(n)
}

/// Whether reading the digits of `bytes` from the left stays within a
/// `usize` up to the first non-digit.
pub fn digits_fit_exec(bytes: &[u8]) -> (r: bool)
    ensures
        r == digits_fit(bytes@, usize::MAX as nat),
{
    let mut n: usize = 0;
    let mut i: usize = 0;
    assert(bytes@.take(0) =~= Seq::<u8>::empty());
    while i < bytes.len()
        invariant
            0 <= i <= bytes@.len(),
            all_digits(bytes@.take(i as int)),
            n == digits_value(bytes@.take(i as int)),
            forall|k: int| 0 <= k <= i ==> #[trigger] digits_value(bytes@.take(k)) <= usize::MAX
                || !all_digits(bytes@.take(k)),
        decreases bytes@.len() - i,
    {
        let b = bytes[i];
        if b < 48 || b > 57 {
            proof {
                assert forall|k: int| i < k <= bytes@.len() implies !all_digits(#[trigger] bytes@.take(k)) by {
                    assert(bytes@.take(k)[i as int] == b);
                }
            }
            return true;
        }
        proof {
            lemma_all_digits_step(bytes@, i as int);
        }
        if n > (usize::MAX - 9) / 10 && (n > usize::MAX / 10 || (b - 48) as usize > usize::MAX - n * 10) {
            assert(digits_value(bytes@.take(i + 1)) > usize::MAX);
            return false;
        }
        n = n * 10 + (b - 48) as usize;
        i = i + 1;
    }
    assert(bytes@.take(bytes@.len() as int) =~= bytes@);
    true
}

} // verus!
