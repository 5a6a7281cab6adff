//! The JSON request a host hands to a source, and the substring probes the
//! SDK answers about it.
use vstd::prelude::*;
use crate::json_utils::{decimal, find, key_pattern, matches_at, is_digit, lemma_decimal_len, pow10};

verus! {

/// `"key":"value"`.
pub open spec fn string_field_pattern(key: Seq<u8>, value: Seq<u8>) -> Seq<u8> {
    key_pattern(key, seq![58u8, 34u8] + value + seq![34u8])
}

/// `"key":` followed by the decimal digits of `value`.
pub open spec fn number_field_pattern(key: Seq<u8>, value: nat) -> Seq<u8> {
    key_pattern(key, seq![58u8] + decimal(value))
}

/// `n` occurs at `i` and is not directly followed by a digit.
pub open spec fn matches_with_boundary(h: Seq<u8>, n: Seq<u8>, i: int) -> bool {
    matches_at(h, n, i) && (i + n.len() >= h.len() || !is_digit(h[i + n.len()]))
}

/// The text contains `"key":"value"`, a pattern of at most 96 bytes.
pub open spec fn has_string_field(text: Seq<u8>, key: Seq<u8>, value: Seq<u8>) -> bool {
    string_field_pattern(key, value).len() <= pattern_cap() && exists|i: int|
        matches_at(text, string_field_pattern(key, value), i)
}

/// The text contains `"key":` and the decimal digits of `value`, not
/// followed by another digit, a pattern of at most 96 bytes.
pub open spec fn has_number_field(text: Seq<u8>, key: Seq<u8>, value: nat) -> bool {
    number_field_pattern(key, value).len() <= pattern_cap() && exists|i: int|
        matches_with_boundary(text, number_field_pattern(key, value), i)
}

/// The text contains the non-empty `needle`.
pub open spec fn has_text(text: Seq<u8>, needle: Seq<u8>) -> bool {
    needle.len() > 0 && exists|i: int| matches_at(text, needle, i)
}

/// Longest pattern the request probes build.
pub open spec fn pattern_cap() -> nat {
    96
}

/// A non-empty request body borrowed from the host.
pub struct Request<'a> {
    bytes: &'a [u8],
}

impl<'a> View for Request<'a> {
    type V = Seq<u8>;

    closed spec fn view(&self) -> Seq<u8> {
        self.bytes@
    }
}

impl<'a> Request<'a> {
    /// Wraps request bytes; an empty body is no request.
    pub fn from_bytes_for_test(bytes: &'a [u8]) -> (r: Option<Self>)
        ensures
            bytes@.len() == 0 <==> r is None,
            r matches Some(req) ==> req@ == bytes@,
    {
        if bytes.len() == 0 {
            return None;
        }
        Some(Request { bytes })
    }

    /// The request text contains the non-empty `needle`.
    pub fn contains(&self, needle: &[u8]) -> (r: bool)
        ensures
            r == has_text(self@, needle@),
    {
        assert(self@ == self.bytes@);
        contains_bytes(self.bytes, needle)
    }

    /// The request text contains `"key":"value"` literally (patterns longer
    /// than 96 bytes are never found).
    pub fn contains_json_string(&self, key: &[u8], value: &[u8]) -> (r: bool)
        ensures
            r == has_string_field(self@, key@, value@),
    {
        if key.len() > 91 || value.len() > 91 - key.len() {
            return false;
        }
        let mut pattern: Vec<u8> = Vec::new();
        pattern.push(34);
        append_slice(&mut pattern, key);
        pattern.push(34);
        pattern.push(58);
        pattern.push(34);
        append_slice(&mut pattern, value);
        pattern.push(34);
        assert(pattern@ =~= string_field_pattern(key@, value@));
        assert(self@ == self.bytes@);
        contains_bytes(self.bytes, pattern.as_slice())
    }

    /// The request text contains `"key":` followed by the decimal form of
    /// `value` and then a non-digit or the end (so 20 does not match 200).
    pub fn contains_json_number(&self, key: &[u8], value: u32) -> (r: bool)
        ensures
            r == has_number_field(self@, key@, value as nat),
    {
        let mut digits: [u8; 10] = [0; 10];
        let digits_len = encode_u32_decimal(value, &mut digits);
        if key.len() > 93 || digits_len > 93 - key.len() {
            return false;
        }
        let mut pattern: Vec<u8> = Vec::new();
        pattern.push(34);
        append_slice(&mut pattern, key);
        pattern.push(34);
        pattern.push(58);
        let mut i: usize = 0;
        let ghost before = pattern@;
        while i < digits_len
            invariant
                0 <= i <= digits_len <= 10,
                digits@.take(digits_len as int) == decimal(value as nat),
                pattern@ == before + digits@.take(i as int),
            decreases digits_len - i,
        {
            pattern.push(digits[i]);
            i = i + 1;
            assert(pattern@ =~= before + digits@.take(i as int));
        }
        assert(pattern@ =~= number_field_pattern(key@, value as nat));
        assert(self@ == self.bytes@);
        find_with_non_digit_boundary(self.bytes, pattern.as_slice())
    }
}

/// Appends all of `src` to `v`.
fn append_slice(v: &mut Vec<u8>, src: &[u8])
    ensures
        final(v)@ == old(v)@ + src@,
{
    let mut i: usize = 0;
    while i < src.len()
        invariant
            0 <= i <= src@.len(),
            v@ == old(v)@ + src@.take(i as int),
        decreases src@.len() - i,
    {
        v.push(src[i]);
        i = i + 1;
        assert(v@ =~= old(v)@ + src@.take(i as int));
    }
    assert(src@.take(src@.len() as int) =~= src@);
}

/// Writes the decimal digits of `value` to the front of `out` and returns
/// how many there are.
pub fn encode_u32_decimal(value: u32, out: &mut [u8; 10]) -> (len: usize)
    ensures
        len == decimal(value as nat).len(),
        1 <= len <= 10,
        final(out)@.take(len as int) == decimal(value as nat),
        final(out)@.skip(len as int) == old(out)@.skip(len as int),
{
    proof {
        assert(pow10(10) == 10000000000) by {
            reveal_with_fuel(pow10, 11);
        }
        lemma_decimal_len(value as nat, 10);
    }
    let digits = crate::json_utils::decimal_digits(value as usize);
    let len = digits.len();
    let mut i: usize = 0;
    while i < len
        invariant
            0 <= i <= len <= 10,
            digits@ == decimal(value as nat),
            len == digits@.len(),
            out@.len() == 10,
            forall|k: int| 0 <= k < i ==> out@[k] == digits@[k],
            forall|k: int| i <= k < 10 ==> out@[k] == old(out)@[k],
        decreases len - i,
    {
        out[i] = digits[i];
        i = i + 1;
    }
    assert(out@.take(len as int) =~= decimal(value as nat));
    assert(out@.skip(len as int) =~= old(out)@.skip(len as int));
    proof {
        let d = decimal(value as nat);
        assert(d.len() >= 1) by {
            reveal_with_fuel(decimal, 1);
        }
    }
    len
}

/// The non-empty `needle` occurs in `haystack` somewhere not followed
/// directly by a digit.
pub fn find_with_non_digit_boundary(haystack: &[u8], needle: &[u8]) -> (r: bool)
    ensures
        r == (needle@.len() > 0 && exists|i: int| matches_with_boundary(haystack@, needle@, i)),
{
    if needle.len() == 0 || haystack.len() < needle.len() {
        return false;
    }
    let last = haystack.len() - needle.len();
    let mut index: usize = 0;
    while index <= last
        invariant
            last + needle.len() == haystack.len(),
            needle@.len() > 0,
            0 <= index <= last + 1,
            forall|j: int| 0 <= j < index ==> !matches_with_boundary(haystack@, needle@, j),
        decreases last + 1 - index,
    {
        if crate::json_utils::matches_at_exec(haystack, needle, index) {
            let tail = index + needle.len();
            if tail >= haystack.len() {
                assert(matches_with_boundary(haystack@, needle@, index as int));
                return true;
            }
            let next = haystack[tail];
            if !(next >= 48 && next <= 57) {
                assert(matches_with_boundary(haystack@, needle@, index as int));
                return true;
            }
        }
        index = index + 1;
    }
    false
}

/// The non-empty `needle` occurs somewhere in `haystack`.
pub fn contains_bytes(haystack: &[u8], needle: &[u8]) -> (r: bool)
    ensures
        r == (needle@.len() > 0 && exists|i: int| matches_at(haystack@, needle@, i)),
{
    crate::json_utils::contains_bytes(haystack, needle)
}

/// The decimal digits of a number are digits, at least one of them.
pub proof fn lemma_decimal_is_digits(n: nat)
    ensures
        decimal(n).len() >= 1,
        forall|j: int| 0 <= j < decimal(n).len() ==> is_digit(#[trigger] decimal(n)[j]),
    decreases n,
{
    if n >= 10 {
        lemma_decimal_is_digits(n / 10);
        let d = decimal(n);
        assert forall|j: int| 0 <= j < d.len() implies is_digit(#[trigger] d[j]) by {
            if j < decimal(n / 10).len() {
                assert(d[j] == decimal(n / 10)[j]);
            }
        }
    }
}

/// Different numbers have different decimal digits.
pub proof fn lemma_decimal_injective(n: nat, m: nat)
    requires
        decimal(n) == decimal(m),
    ensures
        n == m,
    decreases n,
{
    if n >= 10 {
        lemma_decimal_is_digits(n / 10);
    }
    if m >= 10 {
        lemma_decimal_is_digits(m / 10);
    }
    if n >= 10 && m >= 10 {
        let a = decimal(n);
        assert(decimal(n / 10) =~= a.drop_last());
        assert(decimal(m / 10) =~= decimal(m).drop_last());
        assert(a.last() == decimal(m).last());
        lemma_decimal_injective(n / 10, m / 10);
        assert(a.last() == (48 + n % 10) as u8);
        assert(decimal(m).last() == (48 + m % 10) as u8);
        assert(n % 10 == m % 10);
        assert(n == (n / 10) * 10 + n % 10);
        assert(m == (m / 10) * 10 + m % 10);
        assert(n == m);
    } else if n < 10 && m < 10 {
        assert(decimal(n)[0] == decimal(m)[0]);
        assert(decimal(n)[0] == (48 + n) as u8);
        assert(decimal(m)[0] == (48 + m) as u8);
        assert(n == m);
    } else if n < 10 {
        assert(decimal(n).len() == 1);
        assert(decimal(m).len() >= 2);
    } else {
        assert(decimal(m).len() == 1);
        assert(decimal(n).len() >= 2);
    }
}

/// A number probe matches a whole number only: where `"key":` and the
/// digits of `n` occur with no digit right after them, and likewise those
/// of `m` at the same place, `n` and `m` are the same number. So a probe
/// for 20 never matches where 200 is written.
pub proof fn lemma_number_field_whole(text: Seq<u8>, key: Seq<u8>, n: nat, m: nat, i: int)
    requires
        matches_with_boundary(text, number_field_pattern(key, n), i),
        matches_with_boundary(text, number_field_pattern(key, m), i),
    ensures
        n == m,
{
    let pn = number_field_pattern(key, n);
    let pm = number_field_pattern(key, m);
    let dn = decimal(n);
    let dm = decimal(m);
    let p = i + key.len() + 3;
    lemma_decimal_is_digits(n);
    lemma_decimal_is_digits(m);
    assert(pn.len() == key.len() + 3 + dn.len());
    assert(pm.len() == key.len() + 3 + dm.len());
    assert forall|j: int| 0 <= j < dn.len() implies text[p + j] == dn[j] by {
        assert(text.subrange(i, i + pn.len())[key.len() + 3 + j] == pn[key.len() + 3 + j]);
    }
    assert forall|j: int| 0 <= j < dm.len() implies text[p + j] == dm[j] by {
        assert(text.subrange(i, i + pm.len())[key.len() + 3 + j] == pm[key.len() + 3 + j]);
    }
    if dn.len() < dm.len() {
        assert(is_digit(dm[dn.len() as int]));
        assert(text[i + pn.len()] == dm[dn.len() as int]);
    } else if dm.len() < dn.len() {
        assert(is_digit(dn[dm.len() as int]));
        assert(text[i + pm.len()] == dn[dm.len() as int]);
    } else {
        assert(dn =~= dm);
        lemma_decimal_injective(n, m);
    }
}

} // verus!
