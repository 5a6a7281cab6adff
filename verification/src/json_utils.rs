//! Byte-level helpers shared by source implementations: writing into a
//! caller-provided buffer through a cursor, JSON string escaping, URL
//! encoding, and small scanners that pull values out of JSON text.
use vstd::prelude::*;
use vstd::slice::slice_subrange;
use vstd::string::StringSliceAdditionalSpecFns;
use crate::units::{byte_units, cat, fitting, wrote_units};

verus! {

// ---------------------------------------------------------------------------
// Models
// ---------------------------------------------------------------------------

/// `bytes` written over `dst` starting at `pos`, everything else kept.
pub open spec fn splice(dst: Seq<u8>, pos: int, bytes: Seq<u8>) -> Seq<u8> {
    if bytes.len() == 0 {
        dst
    } else {
        dst.take(pos) + bytes + dst.skip(pos + bytes.len())
    }
}

/// JSON insignificant whitespace.
pub open spec fn is_ws(b: u8) -> bool {
    b == 32 || b == 9 || b == 10 || b == 13
}

pub open spec fn is_digit(b: u8) -> bool {
    48 <= b <= 57
}

pub open spec fn ws_fn() -> spec_fn(u8) -> bool {
    |b: u8| is_ws(b)
}

pub open spec fn digit_fn() -> spec_fn(u8) -> bool {
    |b: u8| is_digit(b)
}

/// Decimal digits of `n`, most significant first, no leading zeros.
pub open spec fn decimal(n: nat) -> Seq<u8>
    decreases n,
{
    if n < 10 {
        seq![(48 + n) as u8]
    } else {
        decimal(n / 10) + seq![(48 + n % 10) as u8]
    }
}

pub open spec fn pow10(k: nat) -> nat
    decreases k,
{
    if k == 0 {
        1
    } else {
        10 * pow10((k - 1) as nat)
    }
}

/// Each byte of `s` replaced by `f` of it, in order.
pub open spec fn per_byte(s: Seq<u8>, f: spec_fn(u8) -> Seq<u8>) -> Seq<u8>
    decreases s.len(),
{
    if s.len() == 0 {
        Seq::empty()
    } else {
        per_byte(s.drop_last(), f) + f(s.last())
    }
}

/// What one byte becomes inside a JSON string literal. Control bytes
/// without a short escape become a space.
pub open spec fn escape_byte(b: u8) -> Seq<u8> {
    if b == 34 {
        seq![92u8, 34u8]
    } else if b == 92 {
        seq![92u8, 92u8]
    } else if b == 10 {
        seq![92u8, 110u8]
    } else if b == 13 {
        seq![92u8, 114u8]
    } else if b == 9 {
        seq![92u8, 116u8]
    } else if b == 8 {
        seq![92u8, 98u8]
    } else if b == 12 {
        seq![92u8, 102u8]
    } else if b < 32 {
        seq![32u8]
    } else {
        seq![b]
    }
}

pub open spec fn escape_fn() -> spec_fn(u8) -> Seq<u8> {
    |b: u8| escape_byte(b)
}

pub open spec fn escaped(s: Seq<u8>) -> Seq<u8> {
    per_byte(s, escape_fn())
}

/// Upper-case hexadecimal digit for `n < 16`.
pub open spec fn hex_upper(n: u8) -> u8 {
    if n < 10 {
        (48 + n) as u8
    } else {
        (55 + n) as u8
    }
}

pub open spec fn is_unreserved(b: u8) -> bool {
    (65 <= b <= 90) || (97 <= b <= 122) || (48 <= b <= 57) || b == 45 || b == 95 || b == 46
        || b == 126
}

/// RFC 3986 percent-encoding of one byte.
pub open spec fn url_encode_byte(b: u8) -> Seq<u8> {
    if is_unreserved(b) {
        seq![b]
    } else {
        seq![37u8, hex_upper(b >> 4), hex_upper(b & 15)]
    }
}

pub open spec fn url_fn() -> spec_fn(u8) -> Seq<u8> {
    |b: u8| url_encode_byte(b)
}

pub open spec fn url_encoded(s: Seq<u8>) -> Seq<u8> {
    per_byte(s, url_fn())
}

/// The state a per-byte writer leaves behind when it stops at the first
/// unit that does not fit: the units before it are written, nothing else.
pub open spec fn stopped_at_unit(
    dst0: Seq<u8>,
    c0: int,
    f: spec_fn(u8) -> Seq<u8>,
    src: Seq<u8>,
    dst1: Seq<u8>,
    c1: int,
) -> bool {
    exists|k: int|
        0 <= k < src.len() && (k > 0 ==> c0 + per_byte(src.take(k), f).len() <= dst0.len())
            && dst0.len()
            < c0 + per_byte(src.take(k + 1), f).len() && dst1 == splice(
            dst0,
            c0,
            per_byte(src.take(k), f),
        ) && c1 == c0 + per_byte(src.take(k), f).len()
}

pub open spec fn is_hex(b: u8) -> bool {
    (48 <= b <= 57) || (97 <= b <= 102) || (65 <= b <= 70)
}

pub open spec fn hex_value(b: u8) -> nat {
    if 48 <= b <= 57 {
        (b - 48) as nat
    } else if 97 <= b <= 102 {
        (b - 87) as nat
    } else {
        (b - 55) as nat
    }
}

pub open spec fn all_hex(s: Seq<u8>) -> bool {
    forall|i: int| 0 <= i < s.len() ==> is_hex(#[trigger] s[i])
}

/// Value of a run of hexadecimal digits.
pub open spec fn hex_number(s: Seq<u8>) -> nat
    decreases s.len(),
{
    if s.len() == 0 {
        0
    } else {
        hex_number(s.drop_last()) * 16 + hex_value(s.last())
    }
}

pub open spec fn pow16(k: nat) -> nat
    decreases k,
{
    if k == 0 {
        1
    } else {
        16 * pow16((k - 1) as nat)
    }
}

/// UTF-8 encoding of a code point as the SDK writes it (no surrogate or
/// range check: larger values keep only the bits that fit each byte).
pub open spec fn utf8_encode(cp: u32) -> Seq<u8> {
    if cp < 0x80 {
        seq![cp as u8]
    } else if cp < 0x800 {
        seq![(0xC0u8 | ((cp >> 6u32) as u8)), (0x80u8 | ((cp & 0x3Fu32) as u8))]
    } else if cp < 0x10000 {
        seq![
            (0xE0u8 | ((cp >> 12u32) as u8)),
            (0x80u8 | (((cp >> 6u32) & 0x3Fu32) as u8)),
            (0x80u8 | ((cp & 0x3Fu32) as u8)),
        ]
    } else {
        seq![
            (0xF0u8 | ((cp >> 18u32) as u8)),
            (0x80u8 | (((cp >> 12u32) & 0x3Fu32) as u8)),
            (0x80u8 | (((cp >> 6u32) & 0x3Fu32) as u8)),
            (0x80u8 | ((cp & 0x3Fu32) as u8)),
        ]
    }
}

/// For a Unicode scalar value, `utf8_encode` gives the bytes of the
/// standard UTF-8 encoding of that value, as vstd's model of `char`
/// encoding states it.
pub proof fn law_utf8_encode_is_standard(cp: u32)
    requires
        vstd::utf8::is_scalar(cp),
    ensures
        utf8_encode(cp) == vstd::utf8::encode_scalar(cp),
{
    if cp < 0x80 {
        assert((cp as u8) == ((cp & 0x7F) as u8)) by (bit_vector)
            requires
                cp < 0x80,
        ;
        assert(utf8_encode(cp) =~= vstd::utf8::encode_scalar(cp));
    } else if cp < 0x800 {
        assert((0xC0u8 | ((cp >> 6u32) as u8)) == (0xC0u8 | (((cp >> 6u32) & 0x1Fu32) as u8))) by (bit_vector)
            requires
                cp < 0x800,
        ;
        assert(utf8_encode(cp) =~= vstd::utf8::encode_scalar(cp));
    } else if cp < 0x10000 {
        assert((0xE0u8 | ((cp >> 12u32) as u8)) == (0xE0u8 | (((cp >> 12u32) & 0x0Fu32) as u8))) by (bit_vector)
            requires
                cp < 0x10000,
        ;
        assert(utf8_encode(cp) =~= vstd::utf8::encode_scalar(cp));
    } else {
        assert((0xF0u8 | ((cp >> 18u32) as u8)) == (0xF0u8 | (((cp >> 18u32) & 0x7u32) as u8))) by (bit_vector)
            requires
                cp <= 0x10FFFF,
        ;
        assert(utf8_encode(cp) =~= vstd::utf8::encode_scalar(cp));
    }
}

/// The bytes `utf8_encode` gives a `char` are its UTF-8 encoding.
pub proof fn law_utf8_encode_char(c: char)
    ensures
        utf8_encode(c as u32) == vstd::utf8::encode_utf8(seq![c]),
{
    broadcast use vstd::utf8::char_is_scalar;
    law_utf8_encode_is_standard(c as u32);
    reveal_with_fuel(vstd::utf8::encode_utf8, 2);
    assert(seq![c].drop_first() =~= Seq::<char>::empty());
    assert(vstd::utf8::encode_utf8(seq![c]) =~= vstd::utf8::encode_scalar(seq![c][0] as u32));
}

/// `n` occurs in `h` at `i`.
pub open spec fn matches_at(h: Seq<u8>, n: Seq<u8>, i: int) -> bool {
    0 <= i && i + n.len() <= h.len() && h.subrange(i, i + n.len()) == n
}

/// First position at or after `i` where the non-empty `n` occurs in `h`.
pub open spec fn find_from(h: Seq<u8>, n: Seq<u8>, i: int) -> Option<int>
    decreases h.len() - i,
{
    if n.len() == 0 || i < 0 || i + n.len() > h.len() {
        None
    } else if matches_at(h, n, i) {
        Some(i)
    } else {
        find_from(h, n, i + 1)
    }
}

pub open spec fn find(h: Seq<u8>, n: Seq<u8>) -> Option<int> {
    find_from(h, n, 0)
}

/// `"key"` followed by `tail`.
pub open spec fn key_pattern(key: Seq<u8>, tail: Seq<u8>) -> Seq<u8> {
    seq![34u8] + key + seq![34u8] + tail
}

/// Position of the quote that closes a JSON string whose body starts at
/// `i`; a backslash skips the byte after it.
pub open spec fn string_close(data: Seq<u8>, i: int) -> Option<int>
    decreases data.len() + 2 - i,
{
    if i < 0 || i >= data.len() {
        None
    } else if data[i] == 92 {
        string_close(data, i + 2)
    } else if data[i] == 34 {
        Some(i)
    } else {
        string_close(data, i + 1)
    }
}

/// The raw (still escaped) string value stored under `key`, taken from the
/// first `"key":"` in `data`. Keys longer than 60 bytes are never matched.
pub open spec fn json_string_value(data: Seq<u8>, key: Seq<u8>) -> Option<Seq<u8>> {
    let pat = key_pattern(key, seq![58u8, 34u8]);
    if key.len() + 4 > 64 {
        None
    } else {
        match find(data, pat) {
            None => None,
            Some(p) => match string_close(data, p + pat.len()) {
                None => None,
                Some(e) => Some(data.subrange(p + pat.len(), e)),
            },
        }
    }
}

/// First index at or after `i` whose byte does not satisfy `skip`.
pub open spec fn skip_while(data: Seq<u8>, i: int, skip: spec_fn(u8) -> bool) -> int
    decreases data.len() - i,
{
    if i < 0 || i >= data.len() || !skip(data[i]) {
        i
    } else {
        skip_while(data, i + 1, skip)
    }
}

/// The run of digits stored under `key`, after the first `"key":` and any
/// whitespace. Keys longer than 61 bytes are never matched.
pub open spec fn json_number_value(data: Seq<u8>, key: Seq<u8>) -> Option<Seq<u8>> {
    let pat = key_pattern(key, seq![58u8]);
    if key.len() + 3 > 64 {
        None
    } else {
        match find(data, pat) {
            None => None,
            Some(p) => {
                let s = skip_while(data, p + pat.len(), ws_fn());
                let e = skip_while(data, s, digit_fn());
                if e == s {
                    None
                } else {
                    Some(data.subrange(s, e))
                }
            },
        }
    }
}


/// Value of the four hex digits after `\u` at `i`, or 0 when one of them is
/// not a hex digit.
pub open spec fn unicode_escape_value(src: Seq<u8>, i: int) -> nat {
    let h = src.subrange(i + 2, i + 6);
    if all_hex(h) {
        hex_number(h)
    } else {
        0
    }
}

/// Output for the escape or byte at `i` when re-escaping JSON string text:
/// known escapes are kept, `\/` becomes `/`, `\uXXXX` becomes the escaped
/// UTF-8 bytes of the code point, other bytes are escaped.
pub open spec fn reescape_unit(src: Seq<u8>, i: int) -> Seq<u8> {
    if src[i] == 92 && i + 1 < src.len() {
        let next = src[i + 1];
        if next == 47 {
            seq![47u8]
        } else if next == 34 || next == 92 || next == 110 || next == 114 || next == 116 {
            seq![92u8, next]
        } else if next == 117 && i + 5 < src.len() {
            if unicode_escape_value(src, i) > 0 {
                escaped(utf8_encode(unicode_escape_value(src, i) as u32))
            } else {
                seq![92u8]
            }
        } else {
            escape_byte(next)
        }
    } else {
        escape_byte(src[i])
    }
}

/// How many input bytes the unit at `i` consumes.
pub open spec fn reescape_step(src: Seq<u8>, i: int) -> int {
    if src[i] == 92 && i + 1 < src.len() {
        let next = src[i + 1];
        if next == 117 && i + 5 < src.len() {
            if unicode_escape_value(src, i) > 0 {
                6
            } else {
                1
            }
        } else {
            2
        }
    } else {
        1
    }
}

/// Re-escaped output for the input from `i` on.
pub open spec fn reescape_from(src: Seq<u8>, i: int) -> Seq<u8>
    decreases src.len() - i,
{
    if i < 0 || i >= src.len() {
        Seq::empty()
    } else {
        reescape_unit(src, i) + reescape_from(src, i + reescape_step(src, i))
    }
}

pub open spec fn reescaped(src: Seq<u8>) -> Seq<u8> {
    reescape_from(src, 0)
}

/// The units the re-escaped output of the escape or byte at `i` is put
/// down in: one per escaped byte of a `\uXXXX` code point, else one.
pub open spec fn reescape_subunits(src: Seq<u8>, i: int) -> Seq<Seq<u8>> {
    if src[i] == 92 && i + 1 < src.len() && src[i + 1] == 117 && i + 5 < src.len() && unicode_escape_value(src, i)
        > 0 {
        byte_units(utf8_encode(unicode_escape_value(src, i) as u32), escape_fn())
    } else {
        seq![reescape_unit(src, i)]
    }
}

/// The units of the re-escaped output for the input from `i` on.
pub open spec fn reescape_units_from(src: Seq<u8>, i: int) -> Seq<Seq<u8>>
    decreases src.len() - i,
{
    if i < 0 || i >= src.len() {
        Seq::empty()
    } else {
        reescape_subunits(src, i) + reescape_units_from(src, i + reescape_step(src, i))
    }
}

pub proof fn lemma_reescape_units_cat(src: Seq<u8>, i: int)
    ensures
        cat(reescape_units_from(src, i)) == reescape_from(src, i),
    decreases src.len() - i,
{
    if 0 <= i < src.len() {
        lemma_reescape_units_cat(src, i + reescape_step(src, i));
        crate::units::lemma_cat_concat(reescape_subunits(src, i), reescape_units_from(src, i + reescape_step(src, i)));
        if src[i] == 92 && i + 1 < src.len() && src[i + 1] == 117 && i + 5 < src.len() && unicode_escape_value(src, i)
            > 0 {
            crate::units::lemma_byte_units_cat(utf8_encode(unicode_escape_value(src, i) as u32), escape_fn());
        } else {
            crate::units::lemma_cat_one(reescape_unit(src, i));
        }
    }
}


pub open spec fn is_array_sep(b: u8) -> bool {
    is_ws(b) || b == 44
}

/// Scans an object or array from `p`; `depth` counts open brackets, and
/// `in_str` says whether `p` is inside a string literal. Returns whether
/// the outermost bracket closed, and the position just after the scan.
pub open spec fn scan_value(data: Seq<u8>, p: int, depth: int, in_str: bool) -> (bool, int)
    decreases data.len() + 2 - p,
{
    if p < 0 || p >= data.len() {
        (false, p)
    } else if in_str {
        if data[p] == 92 {
            scan_value(data, p + 2, depth, true)
        } else if data[p] == 34 {
            scan_value(data, p + 1, depth, false)
        } else {
            scan_value(data, p + 1, depth, true)
        }
    } else if data[p] == 34 {
        scan_value(data, p + 1, depth, true)
    } else if data[p] == 123 || data[p] == 91 {
        scan_value(data, p + 1, depth + 1, false)
    } else if data[p] == 125 || data[p] == 93 {
        if depth - 1 == 0 {
            (true, p + 1)
        } else {
            scan_value(data, p + 1, depth - 1, false)
        }
    } else {
        scan_value(data, p + 1, depth, false)
    }
}

/// Where the next element of an object array starts: the first byte at or
/// after `pos` that is not whitespace or a comma.
pub open spec fn sep_fn() -> spec_fn(u8) -> bool {
    |b: u8| is_array_sep(b)
}

pub open spec fn next_element_start(data: Seq<u8>, pos: int) -> int {
    skip_while(data, pos, sep_fn())
}

/// Result and new position of [`JsonArrayIter::next_object`] at `pos`.
pub open spec fn next_object_spec(data: Seq<u8>, pos: int) -> (Option<Seq<u8>>, int) {
    let q = next_element_start(data, pos);
    if q >= data.len() || data[q] != 123 {
        (None, q)
    } else {
        let (found, e) = scan_value(data, q, 0, false);
        if found {
            (Some(data.subrange(q, e)), e)
        } else {
            (None, e)
        }
    }
}

// ---------------------------------------------------------------------------
// Lemmas
// ---------------------------------------------------------------------------

pub proof fn lemma_per_byte_step(s: Seq<u8>, f: spec_fn(u8) -> Seq<u8>, i: int)
    requires
        0 <= i < s.len(),
    ensures
        per_byte(s.take(i + 1), f) == per_byte(s.take(i), f) + f(s[i]),
{
    assert(s.take(i + 1).drop_last() =~= s.take(i));
}

pub proof fn lemma_per_byte_prefix_len(s: Seq<u8>, f: spec_fn(u8) -> Seq<u8>, k: int)
    requires
        0 <= k <= s.len(),
    ensures
        per_byte(s.take(k), f).len() <= per_byte(s, f).len(),
    decreases s.len(),
{
    if k < s.len() {
        lemma_per_byte_prefix_len(s.drop_last(), f, k);
        assert(s.drop_last().take(k) =~= s.take(k));
        assert(s.take(s.len() as int) =~= s);
    } else {
        assert(s.take(k) =~= s);
    }
}

pub proof fn lemma_per_byte_prefix(s: Seq<u8>, f: spec_fn(u8) -> Seq<u8>, k: int)
    requires
        0 <= k <= s.len(),
    ensures
        per_byte(s.take(k), f).len() <= per_byte(s, f).len(),
        per_byte(s, f).take(per_byte(s.take(k), f).len() as int) == per_byte(s.take(k), f),
    decreases s.len(),
{
    if k < s.len() {
        lemma_per_byte_prefix(s.drop_last(), f, k);
        assert(s.drop_last().take(k) =~= s.take(k));
        let p = per_byte(s.take(k), f);
        assert(per_byte(s, f) == per_byte(s.drop_last(), f) + f(s.last()));
        assert(per_byte(s, f).take(p.len() as int) =~= per_byte(s.drop_last(), f).take(
            p.len() as int,
        ));
    } else {
        assert(s.take(k) =~= s);
        assert(per_byte(s, f).take(per_byte(s, f).len() as int) =~= per_byte(s, f));
    }
}

/// Two writes one after the other are one write of the concatenation.
pub proof fn lemma_splice_concat(d: Seq<u8>, c: int, a: Seq<u8>, b: Seq<u8>)
    requires
        0 <= c,
        b.len() == 0 || c + a.len() + b.len() <= d.len(),
        a.len() == 0 || c + a.len() <= d.len(),
    ensures
        splice(splice(d, c, a), c + a.len(), b) == splice(d, c, a + b),
{
    if b.len() == 0 {
        assert(a + b =~= a);
    } else if a.len() == 0 {
        assert(a + b =~= b);
    } else {
        assert(splice(splice(d, c, a), c + a.len(), b) =~= splice(d, c, a + b));
    }
}


/// A writer appended `out` at `c0`: when it fits (`ok`) all of it is
/// written and the cursor moves past it; otherwise a proper prefix of it
/// that fits is written and the cursor moves past that prefix.
pub open spec fn appended(d0: Seq<u8>, c0: int, out: Seq<u8>, d1: Seq<u8>, c1: int, ok: bool) -> bool {
    &&& ok == (c0 + out.len() <= d0.len())
    &&& ok ==> c1 == c0 + out.len() && d1 == splice(d0, c0, out)
    &&& !ok ==> c0 <= c1 < c0 + out.len() && c1 <= d0.len() && d1 == splice(
        d0,
        c0,
        out.take(c1 - c0),
    )
}

pub proof fn lemma_appended_then(
    d0: Seq<u8>,
    c0: int,
    a: Seq<u8>,
    d1: Seq<u8>,
    c1: int,
    b: Seq<u8>,
    d2: Seq<u8>,
    c2: int,
    ok: bool,
)
    requires
        0 <= c0 <= d0.len(),
        appended(d0, c0, a, d1, c1, true),
        appended(d1, c1, b, d2, c2, ok),
    ensures
        appended(d0, c0, a + b, d2, c2, ok),
{
    assert(d1.len() == d0.len()) by {
        if a.len() > 0 {
        }
    }
    if ok {
        lemma_splice_concat(d0, c0, a, b);
    } else {
        let t = c2 - c1;
        lemma_splice_concat(d0, c0, a, b.take(t));
        assert((a + b).take(c2 - c0) =~= a + b.take(t));
    }
}

pub proof fn lemma_appended_fail_extend(
    d0: Seq<u8>,
    c0: int,
    a: Seq<u8>,
    d1: Seq<u8>,
    c1: int,
    b: Seq<u8>,
)
    requires
        appended(d0, c0, a, d1, c1, false),
    ensures
        appended(d0, c0, a + b, d1, c1, false),
{
    assert((a + b).take(c1 - c0) =~= a.take(c1 - c0));
}

/// What [`write_bytes`] promises, in the form writers compose by.
pub proof fn lemma_write_bytes_appended(
    d0: Seq<u8>,
    c0: int,
    src: Seq<u8>,
    d1: Seq<u8>,
    c1: int,
    ok: bool,
)
    requires
        0 <= c0 <= d0.len(),
        ok == (c0 + src.len() <= d0.len()),
        ok ==> d1 == splice(d0, c0, src) && c1 == c0 + src.len(),
        !ok ==> d1 == d0 && c1 == c0,
    ensures
        appended(d0, c0, src, d1, c1, ok),
{
    if !ok {
        assert(src.take(0) =~= Seq::<u8>::empty());
    }
}

/// What the per-byte writers promise, in the form writers compose by.
pub proof fn lemma_per_byte_appended(
    d0: Seq<u8>,
    c0: int,
    f: spec_fn(u8) -> Seq<u8>,
    src: Seq<u8>,
    d1: Seq<u8>,
    c1: int,
    ok: bool,
)
    requires
        0 <= c0 <= d0.len(),
        ok == (src.len() == 0 || c0 + per_byte(src, f).len() <= d0.len()),
        ok ==> d1 == splice(d0, c0, per_byte(src, f)) && c1 == c0 + per_byte(src, f).len(),
        !ok ==> stopped_at_unit(d0, c0, f, src, d1, c1),
    ensures
        appended(d0, c0, per_byte(src, f), d1, c1, ok),
{
    if !ok {
        let k = choose|k: int|
            0 <= k < src.len() && (k > 0 ==> c0 + per_byte(src.take(k), f).len() <= d0.len())
                && d0.len() < c0 + per_byte(src.take(k + 1), f).len() && d1 == splice(
                d0,
                c0,
                per_byte(src.take(k), f),
            ) && c1 == c0 + per_byte(src.take(k), f).len();
        lemma_per_byte_prefix(src, f, k);
        lemma_per_byte_prefix(src, f, k + 1);
        lemma_per_byte_step(src, f, k);
        assert(per_byte(src.take(0), f) =~= Seq::<u8>::empty()) by {
            assert(src.take(0) =~= Seq::<u8>::empty());
        }
    } else if src.len() == 0 {
        assert(per_byte(src, f) =~= Seq::<u8>::empty());
    }
}



/// Nothing written yet.
pub proof fn lemma_appended_start(d0: Seq<u8>, c0: int)
    requires
        0 <= c0 <= d0.len(),
    ensures
        appended(d0, c0, Seq::empty(), d0, c0, true),
{
}

pub proof fn lemma_per_byte_all(s: Seq<u8>, f: spec_fn(u8) -> Seq<u8>)
    ensures
        per_byte(s.take(s.len() as int), f) == per_byte(s, f),
{
    assert(s.take(s.len() as int) =~= s);
}

pub proof fn lemma_find_from_spec(h: Seq<u8>, n: Seq<u8>, i: int)
    requires
        0 <= i,
    ensures
        match find_from(h, n, i) {
            Some(p) => i <= p && matches_at(h, n, p) && n.len() > 0 && forall|j: int|
                i <= j < p ==> !matches_at(h, n, j),
            None => n.len() == 0 || forall|j: int| i <= j ==> !matches_at(h, n, j),
        },
    decreases h.len() - i,
{
    if n.len() == 0 || i + n.len() > h.len() {
    } else if matches_at(h, n, i) {
    } else {
        lemma_find_from_spec(h, n, i + 1);
    }
}

pub proof fn lemma_decimal_len(n: nat, k: nat)
    requires
        k >= 1,
        n < pow10(k),
    ensures
        decimal(n).len() <= k,
    decreases k,
{
    if n >= 10 {
        let k1 = (k - 1) as nat;
        if k1 == 0 {
            assert(pow10(k) == 10) by {
                reveal_with_fuel(pow10, 2);
            }
        } else {
            assert(pow10(k) == 10 * pow10(k1));
            assert(n / 10 < pow10(k1)) by (nonlinear_arith)
                requires
                    n < 10 * pow10(k1),
            ;
            lemma_decimal_len(n / 10, k1);
        }
    }
}

pub proof fn lemma_hex_number_bound(s: Seq<u8>)
    requires
        all_hex(s),
    ensures
        hex_number(s) < pow16(s.len()),
    decreases s.len(),
{
    if s.len() > 0 {
        let t = s.drop_last();
        assert(all_hex(t)) by {
            assert forall|i: int| 0 <= i < t.len() implies is_hex(#[trigger] t[i]) by {
                assert(t[i] == s[i]);
            }
        }
        lemma_hex_number_bound(t);
        assert(is_hex(s[s.len() - 1]));
        let a = hex_number(t);
        let b = pow16(t.len());
        assert(hex_value(s.last()) < 16);
        assert(a * 16 + hex_value(s.last()) < 16 * b) by (nonlinear_arith)
            requires
                a < b,
                hex_value(s.last()) < 16,
        ;
    }
}

pub proof fn lemma_pow16_4()
    ensures
        pow16(0) == 1,
        pow16(1) == 16,
        pow16(2) == 256,
        pow16(3) == 4096,
        pow16(4) == 65536,
{
    reveal_with_fuel(pow16, 5);
}

/// Any all-hex prefix of four bytes has a value below 0x10000.
pub proof fn lemma_four_hex_fits(h: Seq<u8>)
    requires
        h.len() == 4,
    ensures
        forall|k: int|
            0 <= k <= h.len() && all_hex(#[trigger] h.take(k)) ==> hex_number(h.take(k))
                < 0x10000,
{
    lemma_pow16_4();
    assert forall|k: int| 0 <= k <= h.len() && all_hex(#[trigger] h.take(k)) implies hex_number(
        h.take(k),
    ) < 0x10000 by {
        lemma_hex_number_bound(h.take(k));
    }
}

// ---------------------------------------------------------------------------
// Writers
// ---------------------------------------------------------------------------

/// Copies `src` into `dst` at `*cursor` and advances the cursor, or, when
/// `src` does not fit, leaves both untouched and returns `false`.
pub fn write_bytes(dst: &mut [u8], cursor: &mut usize, src: &[u8]) -> (ok: bool)
    ensures
        ok == (*old(cursor) + src@.len() <= old(dst)@.len()),
        ok ==> final(dst)@ == splice(old(dst)@, *old(cursor) as int, src@),
        ok ==> *final(cursor) == *old(cursor) + src@.len(),
        !ok ==> final(dst)@ == old(dst)@ && *final(cursor) == *old(cursor),
{
    let c = *cursor;
    if src.len() > dst.len() || c > dst.len() - src.len() {
        return false;
    }
    let mut i: usize = 0;
    while i < src.len()
        invariant
            c + src@.len() <= dst.len(),
            dst@.len() == old(dst)@.len(),
            0 <= i <= src@.len(),
            dst@ == splice(old(dst)@, c as int, src@.take(i as int)),
        decreases src@.len() - i,
    {
        dst[c + i] = src[i];
        i = i + 1;
        assert(dst@ =~= splice(old(dst)@, c as int, src@.take(i as int)));
    }
    assert(src@.take(src@.len() as int) =~= src@);
    *cursor = c + src.len();
    true
}

/// Decimal digits of `n` as bytes.
pub fn decimal_digits(n: usize) -> (r: Vec<u8>)
    ensures
        r@ == decimal(n as nat),
    decreases n,
{
    if n < 10 {
        let mut v: Vec<u8> = Vec::new();
        v.push((48 + n) as u8);
        v
    } else {
        let mut v = decimal_digits(n / 10);
        v.push((48 + n % 10) as u8);
        v
    }
}

/// Writes the decimal form of `val` at the cursor.
pub fn write_usize(dst: &mut [u8], cursor: &mut usize, val: usize) -> (ok: bool)
    ensures
        ok == (*old(cursor) + decimal(val as nat).len() <= old(dst)@.len()),
        ok ==> final(dst)@ == splice(old(dst)@, *old(cursor) as int, decimal(val as nat)),
        ok ==> *final(cursor) == *old(cursor) + decimal(val as nat).len(),
        !ok ==> final(dst)@ == old(dst)@ && *final(cursor) == *old(cursor),
{
    let digits = decimal_digits(val);
    write_bytes(dst, cursor, digits.as_slice())
}

/// Writes one byte as it must appear inside a JSON string literal.
pub fn append_json_escaped_byte(dst: &mut [u8], cursor: &mut usize, b: u8) -> (ok: bool)
    ensures
        ok == (*old(cursor) + escape_byte(b).len() <= old(dst)@.len()),
        ok ==> final(dst)@ == splice(old(dst)@, *old(cursor) as int, escape_byte(b)),
        ok ==> *final(cursor) == *old(cursor) + escape_byte(b).len(),
        !ok ==> final(dst)@ == old(dst)@ && *final(cursor) == *old(cursor),
{
    if b == 34 || b == 92 || b == 10 || b == 13 || b == 9 || b == 8 || b == 12 {
        let second: u8 = if b == 34 {
            34
        } else if b == 92 {
            92
        } else if b == 10 {
            110
        } else if b == 13 {
            114
        } else if b == 9 {
            116
        } else if b == 8 {
            98
        } else {
            102
        };
        let unit: [u8; 2] = [92, second];
        assert(unit@ =~= escape_byte(b));
        write_bytes(dst, cursor, unit.as_slice())
    } else if b < 32 {
        let unit: [u8; 1] = [32];
        assert(unit@ =~= escape_byte(b));
        write_bytes(dst, cursor, unit.as_slice())
    } else {
        if *cursor >= dst.len() {
            return false;
        }
        let c = *cursor;
        dst[c] = b;
        *cursor = c + 1;
        assert(final(dst)@ =~= splice(old(dst)@, c as int, seq![b]));
        true
    }
}

/// Writes `src` escaped for a JSON string literal. On failure the bytes
/// written are exactly the escapes of the bytes before the first one that
/// did not fit.
pub fn append_json_escaped(dst: &mut [u8], cursor: &mut usize, src: &[u8]) -> (ok: bool)
    ensures
        ok == (src@.len() == 0 || *old(cursor) + escaped(src@).len() <= old(dst)@.len()),
        ok ==> final(dst)@ == splice(old(dst)@, *old(cursor) as int, escaped(src@)),
        ok ==> *final(cursor) == *old(cursor) + escaped(src@).len(),
        !ok ==> stopped_at_unit(
            old(dst)@,
            *old(cursor) as int,
            escape_fn(),
            src@,
            final(dst)@,
            *final(cursor) as int,
        ),
{
    let ghost f = escape_fn();
    let ghost d0 = dst@;
    let ghost c0 = *cursor as int;
    let mut i: usize = 0;
    while i < src.len()
        invariant
            0 <= i <= src@.len(),
            dst@.len() == d0.len(),
            d0 == old(dst)@,
            c0 == *old(cursor),
            f == escape_fn(),
            *cursor == c0 + per_byte(src@.take(i as int), f).len(),
            i > 0 ==> *cursor <= dst@.len(),
            dst@ == splice(d0, c0, per_byte(src@.take(i as int), f)),
        decreases src@.len() - i,
    {
        proof {
            lemma_per_byte_step(src@, f, i as int);
        }
        let ghost before = dst@;
        if !append_json_escaped_byte(dst, cursor, src[i]) {
            proof {
                lemma_per_byte_prefix_len(src@, f, i + 1);
            }
            let ghost k = i as int;
            assert(dst@ == splice(d0, c0, per_byte(src@.take(k), f)));
            assert(d0.len() < c0 + per_byte(src@.take(k + 1), f).len());
            assert(stopped_at_unit(d0, c0, f, src@, dst@, *cursor as int));
            return false;
        }
        proof {
            let p = per_byte(src@.take(i as int), f);
            assert(dst@ =~= splice(d0, c0, p + f(src@[i as int])));
        }
        i = i + 1;
    }
    proof {
        lemma_per_byte_all(src@, f);
    }
    true
}


/// Writes the output unit for the input at `i` (see [`reescape_unit`]) and
/// returns whether it fit and how many input bytes it consumed. On failure
/// a prefix of the unit may have been written.
fn append_reescaped_unit(dst: &mut [u8], cursor: &mut usize, src: &[u8], i: usize) -> (r: (
    bool,
    usize,
))
    requires
        i < src@.len(),
    ensures
        r.1 == reescape_step(src@, i as int),
        r.0 == (*old(cursor) + reescape_unit(src@, i as int).len() <= old(dst)@.len()),
        r.0 ==> final(dst)@ == splice(old(dst)@, *old(cursor) as int, reescape_unit(src@, i as int)),
        r.0 ==> *final(cursor) == *old(cursor) + reescape_unit(src@, i as int).len(),
        !r.0 ==> *old(cursor) <= *final(cursor) < *old(cursor) + reescape_unit(src@, i as int).len(),
        *final(cursor) > *old(cursor) ==> *final(cursor) <= old(dst)@.len(),
        !r.0 ==> final(dst)@ == splice(
            old(dst)@,
            *old(cursor) as int,
            reescape_unit(src@, i as int).take(*final(cursor) - *old(cursor)),
        ),
        !r.0 && src@[i as int] != 92 ==> *final(cursor) == *old(cursor),
        *old(cursor) <= old(dst)@.len() ==> wrote_units(
            old(dst)@,
            *old(cursor) as int,
            reescape_subunits(src@, i as int),
            final(dst)@,
            *final(cursor) as int,
            r.0,
        ),
{
    let ghost unit = reescape_unit(src@, i as int);
    let ghost d0 = dst@;
    let ghost c0 = *cursor as int;
    let b = src[i];
    if b == 92 && i + 1 < src.len() {
        let next = src[i + 1];
        if next == 47 || next == 34 || next == 92 || next == 110 || next == 114 || next == 116 {
            let ok = if next == 47 {
                let u: [u8; 1] = [47];
                assert(u@ =~= unit);
                write_bytes(dst, cursor, u.as_slice())
            } else {
                let u: [u8; 2] = [92, next];
                assert(u@ =~= unit);
                write_bytes(dst, cursor, u.as_slice())
            };
            assert(unit.take(0) =~= Seq::<u8>::empty());
            proof {
                if c0 <= d0.len() {
                    crate::units::lemma_wrote_one(d0, c0, unit, dst@, *cursor as int, ok);
                }
            }
            (ok, 2)
        } else if next == 117 && src.len() > 5 && i < src.len() - 5 {
            let hex = slice_subrange(src, i + 2, i + 6);
            proof {
                lemma_four_hex_fits(hex@);
            }
            let cp = hex_to_u16(hex);
            if cp > 0 {
                let mut utf8: [u8; 4] = [0, 0, 0, 0];
                let len = encode_utf8(cp as u32, &mut utf8);
                let ghost enc = utf8_encode(cp as u32);
                let ghost f = escape_fn();
                assert(unit == per_byte(enc, f));
                let enc_slice = slice_subrange(utf8.as_slice(), 0, len);
                assert(enc_slice@ =~= enc);
                if !append_json_escaped(dst, cursor, enc_slice) {
                    proof {
                        let k = choose|k: int|
                            0 <= k < enc.len() && (k > 0 ==> c0 + per_byte(enc.take(k), f).len()
                                <= d0.len()) && d0.len() < c0 + per_byte(enc.take(k + 1), f).len()
                                && dst@ == splice(d0, c0, per_byte(enc.take(k), f)) && *cursor == c0
                                + per_byte(enc.take(k), f).len();
                        lemma_per_byte_prefix(enc, f, k);
                        lemma_per_byte_prefix(enc, f, k + 1);
                        if c0 <= d0.len() {
                            crate::units::lemma_per_byte_wrote(d0, c0, f, enc, dst@, *cursor as int, false);
                        }
                    }
                    return (false, 6);
                }
                proof {
                    if c0 <= d0.len() {
                        crate::units::lemma_per_byte_wrote(d0, c0, f, enc, dst@, *cursor as int, true);
                    }
                }
                (true, 6)
            } else {
                assert(unit == seq![92u8]);
                if *cursor >= dst.len() {
                    assert(unit.take(0) =~= Seq::<u8>::empty());
                    proof {
                        if c0 <= d0.len() {
                            crate::units::lemma_wrote_one(d0, c0, unit, dst@, *cursor as int, false);
                        }
                    }
                    return (false, 1);
                }
                let c = *cursor;
                dst[c] = b;
                *cursor = c + 1;
                assert(dst@ =~= splice(d0, c0, unit));
                proof {
                    crate::units::lemma_wrote_one(d0, c0, unit, dst@, *cursor as int, true);
                }
                (true, 1)
            }
        } else {
            let ok = append_json_escaped_byte(dst, cursor, next);
            assert(unit.take(0) =~= Seq::<u8>::empty());
            proof {
                if c0 <= d0.len() {
                    crate::units::lemma_wrote_one(d0, c0, unit, dst@, *cursor as int, ok);
                }
            }
            (ok, 2)
        }
    } else {
        let ok = append_json_escaped_byte(dst, cursor, b);
        assert(unit.take(0) =~= Seq::<u8>::empty());
        proof {
            if c0 <= d0.len() {
                crate::units::lemma_wrote_one(d0, c0, unit, dst@, *cursor as int, ok);
            }
        }
        (ok, 1)
    }
}

/// Copies JSON string text into `dst`, normalising its escapes: `\/`
/// becomes `/`, `\uXXXX` becomes the (escaped) UTF-8 bytes of the code
/// point, and every other byte is escaped as by [`append_json_escaped`].
/// On failure the bytes written are a prefix of the full output; for text
/// without a backslash, exactly the escapes of the bytes before the first
/// one that did not fit.
#[verifier::rlimit(60)]
pub fn append_json_unescaped_then_escaped(dst: &mut [u8], cursor: &mut usize, src: &[u8]) -> (ok:
    bool)
    ensures
        ok == (src@.len() == 0 || *old(cursor) + reescaped(src@).len() <= old(dst)@.len()),
        ok ==> final(dst)@ == splice(old(dst)@, *old(cursor) as int, reescaped(src@)),
        ok ==> *final(cursor) == *old(cursor) + reescaped(src@).len(),
        !ok ==> *old(cursor) <= *final(cursor) < *old(cursor) + reescaped(src@).len(),
        !ok ==> final(dst)@ == splice(
            old(dst)@,
            *old(cursor) as int,
            reescaped(src@).take(*final(cursor) - *old(cursor)),
        ),
        !ok ==> *final(cursor) == *old(cursor) || *final(cursor) <= old(dst)@.len(),
        !ok && (forall|j: int| 0 <= j < src@.len() ==> src@[j] != 92) ==> stopped_at_unit(
            old(dst)@,
            *old(cursor) as int,
            escape_fn(),
            src@,
            final(dst)@,
            *final(cursor) as int,
        ),
        *old(cursor) <= old(dst)@.len() ==> wrote_units(
            old(dst)@,
            *old(cursor) as int,
            reescape_units_from(src@, 0),
            final(dst)@,
            *final(cursor) as int,
            ok,
        ),
{
    let ghost d0 = dst@;
    let ghost c0 = *cursor as int;
    let ghost full = reescaped(src@);
    let ghost plain = forall|j: int| 0 <= j < src@.len() ==> src@[j] != 92;
    let mut i: usize = 0;
    let ghost mut done: Seq<Seq<u8>> = Seq::empty();
    proof {
        assert(done + reescape_units_from(src@, 0) =~= reescape_units_from(src@, 0));
        if c0 <= d0.len() {
            assert(fitting(done, d0.len() - c0) =~= Seq::<u8>::empty());
            assert(cat(done) =~= Seq::<u8>::empty());
            assert(wrote_units(d0, c0, done, dst@, *cursor as int, true));
        }
    }
    proof {
        if plain {
            lemma_reescape_plain(src@);
            assert(src@.take(0) =~= Seq::<u8>::empty());
        }
    }
    while i < src.len()
        invariant
            plain == (forall|j: int| 0 <= j < src@.len() ==> src@[j] != 92),
            i > 0 ==> *cursor <= dst@.len(),
            plain ==> *cursor - c0 == escaped(src@.take(i as int)).len(),
            plain ==> escaped(src@.take(i as int)).len() == per_byte(src@.take(i as int), escape_fn()).len(),
            0 <= i <= src@.len(),
            d0 == old(dst)@,
            c0 == *old(cursor),
            full == reescaped(src@),
            dst@.len() == d0.len(),
            c0 <= *cursor,
            *cursor - c0 <= full.len(),
            *cursor > c0 ==> *cursor <= dst@.len(),
            full == full.take(*cursor - c0) + reescape_from(src@, i as int),
            dst@ == splice(d0, c0, full.take(*cursor - c0)),
            c0 <= d0.len() ==> reescape_units_from(src@, 0) == done + reescape_units_from(src@, i as int),
            c0 <= d0.len() ==> wrote_units(d0, c0, done, dst@, *cursor as int, true),
        decreases src@.len() - i,
    {
        let ghost out = full.take(*cursor - c0);
        let ghost unit = reescape_unit(src@, i as int);
        let ghost step = reescape_step(src@, i as int);
        let ghost before = dst@;
        let ghost cb = *cursor as int;
        assert(reescape_from(src@, i as int) == unit + reescape_from(src@, i + step));
        let ghost sub = reescape_subunits(src@, i as int);
        let ghost rest = reescape_units_from(src@, i + step);
        assert(reescape_units_from(src@, i as int) == sub + rest);
        let (ok, step_exec) = append_reescaped_unit(dst, cursor, src, i);
        proof {
            if c0 <= d0.len() {
                crate::units::lemma_wrote_then(d0, c0, done, before, cb, sub, dst@, *cursor as int, ok);
                assert(done + (sub + rest) =~= (done + sub) + rest);
                if !ok {
                    crate::units::lemma_wrote_fail_extend(d0, c0, done + sub, dst@, *cursor as int, rest);
                }
                done = done + sub;
            }
        }
        let ghost t = *cursor - cb;
        assert(full.take(out.len() + t) =~= out + unit.take(t));
        proof {
            lemma_splice_concat(d0, c0, out, unit.take(t));
        }
        assert(dst@ =~= splice(d0, c0, out + unit.take(t)));
        proof {
            if plain {
                assert(src@[i as int] != 92);
                assert(unit == escape_byte(src@[i as int]));
                assert(escape_fn()(src@[i as int]) == escape_byte(src@[i as int]));
                lemma_per_byte_step(src@, escape_fn(), i as int);
                lemma_reescape_plain(src@);
                lemma_per_byte_concat(src@.take(i as int), src@.skip(i as int), escape_fn());
                assert(src@.take(i as int) + src@.skip(i as int) =~= src@);
                lemma_reescape_plain_from(src@, i as int);
                assert(out =~= escaped(src@.take(i as int)));
            }
        }
        if !ok {
            proof {
                if plain {
                    let k = i as int;
                    assert(t == 0);
                    assert(unit.take(0) =~= Seq::<u8>::empty());
                    assert(out + unit.take(t) =~= per_byte(src@.take(k), escape_fn()));
                    assert(0 <= k < src@.len() && (k > 0 ==> c0 + per_byte(src@.take(k), escape_fn()).len()
                        <= d0.len()) && d0.len() < c0 + per_byte(src@.take(k + 1), escape_fn()).len()
                        && dst@ == splice(d0, c0, per_byte(src@.take(k), escape_fn())) && *cursor == c0
                        + per_byte(src@.take(k), escape_fn()).len());
                }
            }
            return false;
        }
        assert(unit.take(t) =~= unit);
        i = i + step_exec;
    }
    assert(full.take(*cursor - c0) =~= full);
    proof {
        if c0 <= d0.len() {
            assert(done + Seq::<Seq<u8>>::empty() =~= done);
        }
    }
    true
}


/// Percent-encodes `src` into `dst` (RFC 3986 unreserved bytes are kept).
/// On failure the bytes written are exactly the encodings of the bytes
/// before the first one that did not fit.
pub fn write_url_encoded(dst: &mut [u8], cursor: &mut usize, src: &[u8]) -> (ok: bool)
    ensures
        ok == (src@.len() == 0 || *old(cursor) + url_encoded(src@).len() <= old(dst)@.len()),
        ok ==> final(dst)@ == splice(old(dst)@, *old(cursor) as int, url_encoded(src@)),
        ok ==> *final(cursor) == *old(cursor) + url_encoded(src@).len(),
        !ok ==> stopped_at_unit(
            old(dst)@,
            *old(cursor) as int,
            url_fn(),
            src@,
            final(dst)@,
            *final(cursor) as int,
        ),
{
    let ghost f = url_fn();
    let ghost d0 = dst@;
    let ghost c0 = *cursor as int;
    let mut i: usize = 0;
    while i < src.len()
        invariant
            0 <= i <= src@.len(),
            dst@.len() == d0.len(),
            d0 == old(dst)@,
            c0 == *old(cursor),
            f == url_fn(),
            *cursor == c0 + per_byte(src@.take(i as int), f).len(),
            i > 0 ==> *cursor <= dst@.len(),
            dst@ == splice(d0, c0, per_byte(src@.take(i as int), f)),
        decreases src@.len() - i,
    {
        proof {
            lemma_per_byte_step(src@, f, i as int);
        }
        let b = src[i];
        let unreserved = (b >= 65 && b <= 90) || (b >= 97 && b <= 122) || (b >= 48 && b <= 57)
            || b == 45 || b == 95 || b == 46 || b == 126;
        let c = *cursor;
        if unreserved {
            if c >= dst.len() {
                proof {
                    lemma_per_byte_prefix_len(src@, f, i + 1);
                    let k = i as int;
                    assert(d0.len() < c0 + per_byte(src@.take(k + 1), f).len());
                }
                return false;
            }
            dst[c] = b;
            *cursor = c + 1;
        } else {
            if dst.len() < 3 || c > dst.len() - 3 {
                proof {
                    lemma_per_byte_prefix_len(src@, f, i + 1);
                    let k = i as int;
                    assert(d0.len() < c0 + per_byte(src@.take(k + 1), f).len());
                }
                return false;
            }
            let hi = b >> 4;
            let lo = b & 15;
            assert(hi < 16 && lo < 16) by (bit_vector)
                requires
                    hi == b >> 4,
                    lo == b & 15,
            ;
            dst[c] = 37;
            dst[c + 1] = if hi < 10 {
                48 + hi
            } else {
                55 + hi
            };
            dst[c + 2] = if lo < 10 {
                48 + lo
            } else {
                55 + lo
            };
            *cursor = c + 3;
        }
        proof {
            let p = per_byte(src@.take(i as int), f);
            assert(dst@ =~= splice(d0, c0, p + f(src@[i as int])));
        }
        i = i + 1;
    }
    proof {
        lemma_per_byte_all(src@, f);
    }
    true
}

/// `needle` occurs in `haystack` at `i`.
pub(crate) fn matches_at_exec(haystack: &[u8], needle: &[u8], i: usize) -> (r: bool)
    requires
        i + needle@.len() <= haystack@.len(),
    ensures
        r == matches_at(haystack@, needle@, i as int),
{
    let mut j: usize = 0;
    while j < needle.len()
        invariant
            0 <= j <= needle@.len(),
            i + needle.len() <= haystack.len(),
            forall|k: int| 0 <= k < j ==> haystack@[i + k] == needle@[k],
        decreases needle@.len() - j,
    {
        if haystack[i + j] != needle[j] {
            assert(haystack@.subrange(i as int, i + needle@.len())[j as int] != needle@[j as int]);
            return false;
        }
        j = j + 1;
    }
    assert(haystack@.subrange(i as int, i + needle@.len()) =~= needle@);
    true
}

/// Position of the first occurrence of the non-empty `needle`.
pub fn find_subslice(haystack: &[u8], needle: &[u8]) -> (r: Option<usize>)
    ensures
        match r {
            Some(i) => find(haystack@, needle@) == Some(i as int),
            None => find(haystack@, needle@) is None,
        },
        match r {
            Some(i) => needle@.len() > 0 && matches_at(haystack@, needle@, i as int) && forall|j: int|
                0 <= j < i ==> !matches_at(haystack@, needle@, j),
            None => needle@.len() == 0 || forall|j: int| !matches_at(haystack@, needle@, j),
        },
{
    proof {
        lemma_find_from_spec(haystack@, needle@, 0);
    }
    if needle.len() == 0 || haystack.len() < needle.len() {
        return None;
    }
    let last = haystack.len() - needle.len();
    let mut i: usize = 0;
    while i <= last
        invariant
            last + needle.len() == haystack.len(),
            needle@.len() > 0,
            0 <= i <= last + 1,
            find_from(haystack@, needle@, 0) == find_from(haystack@, needle@, i as int),
        decreases last + 1 - i,
    {
        if matches_at_exec(haystack, needle, i) {
            assert(find_from(haystack@, needle@, i as int) == Some(i as int));
            assert(find_from(haystack@, needle@, 0) == Some(i as int));
            proof {
                lemma_find_from_spec(haystack@, needle@, 0);
            }
            return Some(i);
        }
        i = i + 1;
    }
    None
}

/// The non-empty `needle` occurs somewhere in `haystack`.
pub fn contains_bytes(haystack: &[u8], needle: &[u8]) -> (r: bool)
    ensures
        r == find(haystack@, needle@) is Some,
        r == (needle@.len() > 0 && exists|i: int| matches_at(haystack@, needle@, i)),
{
    find_subslice(haystack, needle).is_some()
}

/// `"` + `key` + `"` + `tail` as a vector.
pub fn key_pattern_vec(key: &[u8], tail: &[u8]) -> (r: Vec<u8>)
    ensures
        r@ == key_pattern(key@, tail@),
{
    let mut v: Vec<u8> = Vec::new();
    v.push(34);
    let mut i: usize = 0;
    while i < key.len()
        invariant
            0 <= i <= key@.len(),
            v@ == seq![34u8] + key@.take(i as int),
        decreases key@.len() - i,
    {
        v.push(key[i]);
        i = i + 1;
        assert(v@ =~= seq![34u8] + key@.take(i as int));
    }
    v.push(34);
    let mut j: usize = 0;
    while j < tail.len()
        invariant
            0 <= j <= tail@.len(),
            v@ == seq![34u8] + key@ + seq![34u8] + tail@.take(j as int),
        decreases tail@.len() - j,
    {
        v.push(tail[j]);
        j = j + 1;
        assert(v@ =~= seq![34u8] + key@ + seq![34u8] + tail@.take(j as int));
    }
    assert(key@.take(key@.len() as int) =~= key@);
    assert(tail@.take(tail@.len() as int) =~= tail@);
    v
}

/// The raw text of the first string value stored under `key`, without its
/// quotes and with its escapes untouched.
pub fn extract_json_string<'a>(data: &'a [u8], key: &[u8]) -> (r: Option<&'a [u8]>)
    ensures
        match r {
            Some(v) => json_string_value(data@, key@) == Some(v@),
            None => json_string_value(data@, key@) is None,
        },
{
    if key.len() > 60 {
        return None;
    }
    let tail: [u8; 2] = [58, 34];
    let pattern = key_pattern_vec(key, tail.as_slice());
    assert(tail@ =~= seq![58u8, 34u8]);
    assert(pattern@ == key_pattern(key@, seq![58u8, 34u8]));
    let p = match find_subslice(data, pattern.as_slice()) {
        Some(p) => p,
        None => return None,
    };
    assert(p + pattern@.len() <= data@.len());
    assert(data@.len() == data.len());
    let start = p + pattern.len();
    let mut i = start;
    while i < data.len()
        invariant
            start <= i,
            i <= data@.len() + 1,
            start == p + key_pattern(key@, seq![58u8, 34u8]).len(),
            find(data@, key_pattern(key@, seq![58u8, 34u8])) == Some(p as int),
            key@.len() <= 60,
            start <= data@.len(),
            string_close(data@, start as int) == string_close(data@, i as int),
        decreases data@.len() + 2 - i,
    {
        let b = data[i];
        if b == 92 {
            if data.len() - i <= 2 {
                assert(string_close(data@, i + 2) is None);
                assert(string_close(data@, i as int) is None);
                assert(find(data@, key_pattern(key@, seq![58u8, 34u8])) == Some(p as int));
                return None;
            }
            i = i + 2;
            continue;
        }
        if b == 34 {
            assert(string_close(data@, i as int) == Some(i as int));
            assert(find(data@, key_pattern(key@, seq![58u8, 34u8])) == Some(p as int));
            return Some(slice_subrange(data, start, i));
        }
        i = i + 1;
    }
    assert(string_close(data@, i as int) is None);
    assert(find(data@, key_pattern(key@, seq![58u8, 34u8])) == Some(p as int));
    None
}

/// The digits of the first number stored under `key`, after any
/// whitespace that follows the colon.
pub fn extract_json_number<'a>(data: &'a [u8], key: &[u8]) -> (r: Option<&'a [u8]>)
    ensures
        match r {
            Some(v) => json_number_value(data@, key@) == Some(v@),
            None => json_number_value(data@, key@) is None,
        },
{
    if key.len() > 61 {
        return None;
    }
    let tail: [u8; 1] = [58];
    let pattern = key_pattern_vec(key, tail.as_slice());
    assert(tail@ =~= seq![58u8]);
    let p = match find_subslice(data, pattern.as_slice()) {
        Some(p) => p,
        None => return None,
    };
    assert(p + pattern@.len() <= data@.len());
    assert(data@.len() == data.len());
    let start = p + pattern.len();
    let ghost ws = ws_fn();
    let ghost dg = digit_fn();
    let mut i = start;
    while i < data.len() && (data[i] == 32 || data[i] == 9 || data[i] == 10 || data[i] == 13)
        invariant
            start <= i <= data@.len(),
            ws == ws_fn(),
            skip_while(data@, start as int, ws) == skip_while(data@, i as int, ws),
        decreases data@.len() - i,
    {
        i = i + 1;
    }
    let num_start = i;
    while i < data.len() && data[i] >= 48 && data[i] <= 57
        invariant
            num_start <= i <= data@.len(),
            dg == digit_fn(),
            skip_while(data@, num_start as int, dg) == skip_while(data@, i as int, dg),
        decreases data@.len() - i,
    {
        i = i + 1;
    }
    if i == num_start {
        return None;
    }
    Some(slice_subrange(data, num_start, i))
}

/// Walks the objects of the JSON array stored under a key.
pub struct JsonArrayIter<'a> {
    data: &'a [u8],
    pos: usize,
}

impl<'a> JsonArrayIter<'a> {
    #[verifier::type_invariant]
    spec fn well_formed(self) -> bool {
        self.data@.len() < usize::MAX && self.pos <= self.data@.len() + 1
    }
}

impl<'a> View for JsonArrayIter<'a> {
    /// The text being walked and the position the next search starts at.
    type V = (Seq<u8>, int);

    closed spec fn view(&self) -> (Seq<u8>, int) {
        (self.data@, self.pos as int)
    }
}

impl<'a> JsonArrayIter<'a> {
    /// Starts just after the first `"array_key":[` in `data`; `None` when
    /// there is none (or the key is longer than 60 bytes).
    pub fn new(data: &'a [u8], array_key: &[u8]) -> (r: Option<Self>)
        ensures
            match r {
                Some(it) => array_key@.len() + 4 <= 64 && find(
                    data@,
                    key_pattern(array_key@, seq![58u8, 91u8]),
                ) is Some && it@ == (data@, find(
                    data@,
                    key_pattern(array_key@, seq![58u8, 91u8]),
                ).unwrap() + array_key@.len() + 4),
                None => array_key@.len() + 4 > 64 || find(
                    data@,
                    key_pattern(array_key@, seq![58u8, 91u8]),
                ) is None || data@.len() == usize::MAX,
            },
    {
        if array_key.len() > 60 {
            return None;
        }
        let tail: [u8; 2] = [58, 91];
        let pattern = key_pattern_vec(array_key, tail.as_slice());
        assert(tail@ =~= seq![58u8, 91u8]);
        if data.len() == usize::MAX {
            // no slice reaches this length; ruling it out keeps positions in range
            return None;
        }
        match find_subslice(data, pattern.as_slice()) {
            Some(p) => {
                assert(p + pattern@.len() <= data@.len());
                assert(data@.len() == data.len());
                Some(JsonArrayIter { data, pos: p + pattern.len() })
            },
            None => None,
        }
    }

    /// The next `{...}` element, skipping whitespace and commas before it;
    /// `None` at `]`, at any other byte, or when the object never closes.
    pub fn next_object(&mut self) -> (r: Option<&'a [u8]>)
        ensures
            final(self)@.0 == old(self)@.0,
            r matches Some(v) ==> next_object_spec(old(self)@.0, old(self)@.1).0 == Some(v@),
            r is None ==> next_object_spec(old(self)@.0, old(self)@.1).0 is None,
            final(self)@.1 == next_object_spec(old(self)@.0, old(self)@.1).1,
    {
        proof {
            use_type_invariant(&*self);
        }
        let ghost data = self.data@;
        let ghost sep = sep_fn();
        let ghost p0 = self.pos as int;
        while self.pos < self.data.len() && (self.data[self.pos] == 32 || self.data[self.pos] == 9
            || self.data[self.pos] == 10 || self.data[self.pos] == 13 || self.data[self.pos] == 44)
            invariant
                self.data@ == data,
                data == old(self)@.0,
                p0 == old(self)@.1,
                sep == sep_fn(),
                data.len() < usize::MAX,
                p0 <= self.pos <= data.len() + 1,
                skip_while(data, p0, sep) == skip_while(data, self.pos as int, sep),
            decreases data.len() - self.pos,
        {
            self.pos = self.pos + 1;
        }
        if self.pos >= self.data.len() || self.data[self.pos] != 123 {
            return None;
        }
        let start = self.pos;
        let mut depth: usize = 0;
        let mut in_string = false;
        while self.pos < self.data.len()
            invariant
                self.data@ == data,
                data == old(self)@.0,
                p0 == old(self)@.1,
                data.len() < usize::MAX,
                start < data.len(),
                data[start as int] == 123,
                start == next_element_start(data, p0),
                start <= self.pos <= data.len() + 1,
                depth <= self.pos - start,
                self.pos > start ==> depth >= 1 || in_string,
                self.pos > start ==> depth >= 1,
                self.pos == start ==> depth == 0 && !in_string,
                scan_value(data, start as int, 0, false) == scan_value(
                    data,
                    self.pos as int,
                    depth as int,
                    in_string,
                ),
            decreases data.len() + 2 - self.pos,
        {
            let b = self.data[self.pos];
            if in_string {
                if b == 92 {
                    self.pos = self.pos + 1;
                } else if b == 34 {
                    in_string = false;
                }
            } else {
                if b == 34 {
                    in_string = true;
                } else if b == 123 || b == 91 {
                    depth = depth + 1;
                } else if b == 125 || b == 93 {
                    depth = depth - 1;
                    if depth == 0 {
                        self.pos = self.pos + 1;
                        return Some(slice_subrange(self.data, start, self.pos));
                    }
                }
            }
            self.pos = self.pos + 1;
        }
        None
    }
}


/// [`write_bytes`] as a step of a chain of writes.
pub fn put_bytes(dst: &mut [u8], cursor: &mut usize, src: &[u8]) -> (ok: bool)
    requires
        *old(cursor) <= old(dst)@.len(),
    ensures
        appended(old(dst)@, *old(cursor) as int, src@, final(dst)@, *final(cursor) as int, ok),
        wrote_units(old(dst)@, *old(cursor) as int, seq![src@], final(dst)@, *final(cursor) as int, ok),
        final(dst)@.len() == old(dst)@.len(),
        *final(cursor) <= final(dst)@.len(),
{
    let ghost d0 = dst@;
    let ghost c0 = *cursor as int;
    let ok = write_bytes(dst, cursor, src);
    proof {
        lemma_write_bytes_appended(d0, c0, src@, dst@, *cursor as int, ok);
        crate::units::lemma_wrote_one(d0, c0, src@, dst@, *cursor as int, ok);
    }
    ok
}

/// Writes a string constant as a step of a chain of writes.
pub fn put_str(dst: &mut [u8], cursor: &mut usize, s: &str) -> (ok: bool)
    requires
        *old(cursor) <= old(dst)@.len(),
    ensures
        appended(old(dst)@, *old(cursor) as int, s.spec_bytes(), final(dst)@, *final(cursor) as int, ok),
        wrote_units(old(dst)@, *old(cursor) as int, seq![s.spec_bytes()], final(dst)@, *final(cursor) as int, ok),
        final(dst)@.len() == old(dst)@.len(),
        *final(cursor) <= final(dst)@.len(),
{
    put_bytes(dst, cursor, s.as_bytes())
}

/// [`append_json_escaped`] as a step of a chain of writes.
pub fn put_escaped(dst: &mut [u8], cursor: &mut usize, src: &[u8]) -> (ok: bool)
    requires
        *old(cursor) <= old(dst)@.len(),
    ensures
        appended(old(dst)@, *old(cursor) as int, escaped(src@), final(dst)@, *final(cursor) as int, ok),
        wrote_units(old(dst)@, *old(cursor) as int, byte_units(src@, escape_fn()), final(dst)@, *final(cursor) as int, ok),
        final(dst)@.len() == old(dst)@.len(),
        *final(cursor) <= final(dst)@.len(),
{
    let ghost d0 = dst@;
    let ghost c0 = *cursor as int;
    let ok = append_json_escaped(dst, cursor, src);
    proof {
        lemma_per_byte_appended(d0, c0, escape_fn(), src@, dst@, *cursor as int, ok);
        crate::units::lemma_per_byte_wrote(d0, c0, escape_fn(), src@, dst@, *cursor as int, ok);
    }
    ok
}

/// [`write_usize`] as a step of a chain of writes.
pub fn put_usize(dst: &mut [u8], cursor: &mut usize, val: usize) -> (ok: bool)
    requires
        *old(cursor) <= old(dst)@.len(),
    ensures
        appended(
            old(dst)@,
            *old(cursor) as int,
            decimal(val as nat),
            final(dst)@,
            *final(cursor) as int,
            ok,
        ),
        wrote_units(old(dst)@, *old(cursor) as int, seq![decimal(val as nat)], final(dst)@, *final(cursor) as int, ok),
        final(dst)@.len() == old(dst)@.len(),
        *final(cursor) <= final(dst)@.len(),
{
    let digits = decimal_digits(val);
    put_bytes(dst, cursor, digits.as_slice())
}

/// [`write_url_encoded`] as a step of a chain of writes.
pub fn put_url_encoded(dst: &mut [u8], cursor: &mut usize, src: &[u8]) -> (ok: bool)
    requires
        *old(cursor) <= old(dst)@.len(),
    ensures
        appended(
            old(dst)@,
            *old(cursor) as int,
            url_encoded(src@),
            final(dst)@,
            *final(cursor) as int,
            ok,
        ),
        wrote_units(old(dst)@, *old(cursor) as int, byte_units(src@, url_fn()), final(dst)@, *final(cursor) as int, ok),
        final(dst)@.len() == old(dst)@.len(),
        *final(cursor) <= final(dst)@.len(),
{
    let ghost d0 = dst@;
    let ghost c0 = *cursor as int;
    let ok = write_url_encoded(dst, cursor, src);
    proof {
        lemma_per_byte_appended(d0, c0, url_fn(), src@, dst@, *cursor as int, ok);
        crate::units::lemma_per_byte_wrote(d0, c0, url_fn(), src@, dst@, *cursor as int, ok);
    }
    ok
}

/// Value of a run of hexadecimal digits; any other byte makes the result 0.
pub fn hex_to_u16(hex: &[u8]) -> (r: u16)
    requires
        forall|k: int|
            0 <= k <= hex@.len() && all_hex(#[trigger] hex@.take(k)) ==> hex_number(hex@.take(k))
                < 0x10000,
    ensures
        all_hex(hex@) ==> r == hex_number(hex@),
        !all_hex(hex@) ==> r == 0,
{
    let mut val: u16 = 0;
    let mut i: usize = 0;
    while i < hex.len()
        invariant
            0 <= i <= hex@.len(),
            all_hex(hex@.take(i as int)),
            val == hex_number(hex@.take(i as int)),
            forall|k: int|
                0 <= k <= hex@.len() && all_hex(#[trigger] hex@.take(k)) ==> hex_number(
                    hex@.take(k),
                ) < 0x10000,
        decreases hex@.len() - i,
    {
        let b = hex[i];
        let digit: u16 = if b >= 48 && b <= 57 {
            (b - 48) as u16
        } else if b >= 97 && b <= 102 {
            (b - 87) as u16
        } else if b >= 65 && b <= 70 {
            (b - 55) as u16
        } else {
            assert(!all_hex(hex@)) by {
                assert(hex@[i as int] == b);
            }
            return 0;
        };
        let ghost t = hex@.take(i as int + 1);
        assert(t.drop_last() =~= hex@.take(i as int));
        assert(all_hex(t)) by {
            assert forall|j: int| 0 <= j < t.len() implies is_hex(#[trigger] t[j]) by {
                if j < i {
                    assert(t[j] == hex@.take(i as int)[j]);
                }
            }
        }
        assert(hex_number(t) < 0x10000);
        val = val * 16 + digit;
        i = i + 1;
    }
    assert(hex@.take(hex@.len() as int) =~= hex@);
    val
}

/// Writes the UTF-8 form of `cp` into the front of `buf` and returns how
/// many bytes it took.
pub fn encode_utf8(cp: u32, buf: &mut [u8; 4]) -> (len: usize)
    ensures
        len == utf8_encode(cp).len(),
        1 <= len <= 4,
        final(buf)@.take(len as int) == utf8_encode(cp),
        final(buf)@.skip(len as int) == old(buf)@.skip(len as int),
{
    if cp < 0x80 {
        buf[0] = cp as u8;
        assert(buf@.take(1) =~= utf8_encode(cp));
        assert(buf@.skip(1) =~= old(buf)@.skip(1));
        1
    } else if cp < 0x800 {
        buf[0] = 0xC0 | (cp >> 6) as u8;
        buf[1] = 0x80 | (cp & 0x3F) as u8;
        assert(buf@.take(2) =~= utf8_encode(cp));
        assert(buf@.skip(2) =~= old(buf)@.skip(2));
        2
    } else if cp < 0x10000 {
        buf[0] = 0xE0 | (cp >> 12) as u8;
        buf[1] = 0x80 | ((cp >> 6) & 0x3F) as u8;
        buf[2] = 0x80 | (cp & 0x3F) as u8;
        assert(buf@.take(3) =~= utf8_encode(cp));
        assert(buf@.skip(3) =~= old(buf)@.skip(3));
        3
    } else {
        buf[0] = 0xF0 | (cp >> 18) as u8;
        buf[1] = 0x80 | ((cp >> 12) & 0x3F) as u8;
        buf[2] = 0x80 | ((cp >> 6) & 0x3F) as u8;
        buf[3] = 0x80 | (cp & 0x3F) as u8;
        assert(buf@.take(4) =~= utf8_encode(cp));
        assert(buf@.skip(4) =~= old(buf)@.skip(4));
        4
    }
}

/// Whether two byte strings are equal.
pub fn same_bytes(a: &[u8], b: &[u8]) -> (r: bool)
    ensures
        r == (a@ == b@),
{
    if a.len() != b.len() {
        return false;
    }
    let mut i: usize = 0;
    while i < a.len()
        invariant
            0 <= i <= a@.len(),
            a@.len() == b@.len(),
            forall|k: int| 0 <= k < i ==> a@[k] == b@[k],
        decreases a@.len() - i,
    {
        if a[i] != b[i] {
            return false;
        }
        i = i + 1;
    }
    assert(a@ =~= b@);
    true
}

/// Separators before an object in an array, with `[` too when
/// `open` (so that the scan may start at the array's bracket).
pub open spec fn element_sep_fn(open: bool) -> spec_fn(u8) -> bool {
    |b: u8| is_array_sep(b) || (open && b == 91)
}

/// The object found from `pos` (after separators, and `[` when `open`)
/// and the position after the scan.
pub open spec fn object_at_spec(data: Seq<u8>, pos: int, open: bool) -> (Option<Seq<u8>>, int) {
    let q = skip_while(data, pos, element_sep_fn(open));
    if q >= data.len() || data[q] != 123 {
        (None, q)
    } else {
        let (found, e) = scan_value(data, q, 0, false);
        if found {
            (Some(data.subrange(q, e)), e)
        } else {
            (None, e)
        }
    }
}

/// The next object of an array from `pos`: separators (and `[` when
/// `open`) are skipped, then a `{...}` is scanned to its closing brace,
/// strings and escapes respected. `None` at anything else or when the
/// object does not close; the position reached either way.
pub fn object_at(data: &[u8], pos: usize, open: bool) -> (r: (Option<&[u8]>, usize))
    requires
        data@.len() < usize::MAX,
        pos <= data@.len() + 1,
    ensures
        r.1 <= data@.len() + 1,
        r.1 >= pos,
        r.0 is Some ==> r.1 > pos,
        match r.0 {
            Some(v) => object_at_spec(data@, pos as int, open).0 == Some(v@),
            None => object_at_spec(data@, pos as int, open).0 is None,
        },
        r.1 == object_at_spec(data@, pos as int, open).1,
{
    let ghost sep = element_sep_fn(open);
    let mut p = pos;
    while p < data.len() && (data[p] == 32 || data[p] == 9 || data[p] == 10 || data[p] == 13
        || data[p] == 44 || (open && data[p] == 91))
        invariant
            sep == element_sep_fn(open),
            data@.len() < usize::MAX,
            pos <= p <= data@.len() + 1,
            skip_while(data@, pos as int, sep) == skip_while(data@, p as int, sep),
        decreases data@.len() - p,
    {
        p = p + 1;
    }
    if p >= data.len() || data[p] != 123 {
        return (None, p);
    }
    let start = p;
    let mut depth: usize = 0;
    let mut in_string = false;
    while p < data.len()
        invariant
            data@.len() < usize::MAX,
            start < data@.len(),
            data@[start as int] == 123,
            start == skip_while(data@, pos as int, sep),
            sep == element_sep_fn(open),
            pos <= start,
            start <= p <= data@.len() + 1,
            depth <= p - start,
            p > start ==> depth >= 1,
            p == start ==> depth == 0 && !in_string,
            scan_value(data@, start as int, 0, false) == scan_value(data@, p as int, depth as int, in_string),
        decreases data@.len() + 2 - p,
    {
        let b = data[p];
        if in_string {
            if b == 92 {
                p = p + 1;
            } else if b == 34 {
                in_string = false;
            }
        } else {
            if b == 34 {
                in_string = true;
            } else if b == 123 || b == 91 {
                depth = depth + 1;
            } else if b == 125 || b == 93 {
                depth = depth - 1;
                if depth == 0 {
                    p = p + 1;
                    return (Some(slice_subrange(data, start, p)), p);
                }
            }
        }
        p = p + 1;
    }
    (None, p)
}

/// [`append_json_unescaped_then_escaped`] as a step of a chain of writes.
pub fn put_reescaped(dst: &mut [u8], cursor: &mut usize, src: &[u8]) -> (ok: bool)
    requires
        *old(cursor) <= old(dst)@.len(),
    ensures
        appended(old(dst)@, *old(cursor) as int, reescaped(src@), final(dst)@, *final(cursor) as int, ok),
        wrote_units(old(dst)@, *old(cursor) as int, reescape_units_from(src@, 0), final(dst)@, *final(cursor) as int, ok),
        final(dst)@.len() == old(dst)@.len(),
        *final(cursor) <= final(dst)@.len(),
{
    let ghost d0 = dst@;
    let ghost c0 = *cursor as int;
    let ok = append_json_unescaped_then_escaped(dst, cursor, src);
    proof {
        if src@.len() == 0 {
            assert(reescaped(src@) =~= Seq::<u8>::empty()) by {
                reveal_with_fuel(reescape_from, 2);
            }
            assert(dst@ =~= splice(d0, c0, reescaped(src@)));
        }
        if !ok {
            assert(reescaped(src@).take(*cursor - c0).len() == *cursor - c0);
        }
    }
    ok
}

/// The position of the quote that closes a string whose body starts at
/// `start` (a backslash skips the byte after it).
pub fn string_close_exec(data: &[u8], start: usize) -> (r: Option<usize>)
    ensures
        match r {
            Some(e) => string_close(data@, start as int) == Some(e as int) && start <= e < data@.len(),
            None => string_close(data@, start as int) is None,
        },
{
    let mut i = start;
    while i < data.len()
        invariant
            start <= i,
            string_close(data@, start as int) == string_close(data@, i as int),
        decreases data@.len() + 2 - i,
    {
        let b = data[i];
        if b == 92 {
            if data.len() - i <= 2 {
                assert(string_close(data@, i + 2) is None);
                return None;
            }
            i = i + 2;
            continue;
        }
        if b == 34 {
            return Some(i);
        }
        i = i + 1;
    }
    None
}

/// Percent-decoding: `%` and two hexadecimal digits stand for the byte
/// they spell, every other byte for itself.
pub open spec fn url_decoded(t: Seq<u8>) -> Seq<u8>
    decreases t.len(),
{
    if t.len() == 0 {
        Seq::empty()
    } else if t[0] == 37 && t.len() >= 3 {
        seq![(hex_value(t[1]) * 16 + hex_value(t[2])) as u8] + url_decoded(t.skip(3))
    } else {
        seq![t[0]] + url_decoded(t.skip(1))
    }
}

proof fn lemma_hex_upper_value(n: u8)
    requires
        n < 16,
    ensures
        hex_value(hex_upper(n)) == n,
{
}

/// Decoding the encoding of one byte gives the byte back, whatever
/// follows it.
proof fn lemma_url_decode_byte(b: u8, rest: Seq<u8>)
    ensures
        url_decoded(url_encode_byte(b) + rest) == seq![b] + url_decoded(rest),
{
    let t = url_encode_byte(b) + rest;
    if is_unreserved(b) {
        assert(t[0] == b);
        assert(t.skip(1) =~= rest);
    } else {
        let hi: u8 = b >> 4;
        let lo: u8 = b & 15;
        assert(hi < 16 && lo < 16 && hi * 16 + lo == b) by (bit_vector)
            requires
                hi == b >> 4,
                lo == b & 15,
        ;
        lemma_hex_upper_value(hi);
        lemma_hex_upper_value(lo);
        assert(t[0] == 37u8);
        assert(t[1] == hex_upper(hi));
        assert(t[2] == hex_upper(lo));
        assert(t.skip(3) =~= rest);
        assert(((hex_value(t[1]) * 16 + hex_value(t[2])) as u8) == b);
    }
}

/// Percent-decoding undoes the URL encoding: the encoded text of two
/// different byte strings differs, and each is read back from its text.
pub proof fn law_url_decoding_undoes_encoding(s: Seq<u8>)
    ensures
        url_decoded(url_encoded(s)) == s,
    decreases s.len(),
{
    if s.len() == 0 {
        assert(url_encoded(s) =~= Seq::<u8>::empty());
    } else {
        let rest = s.skip(1);
        assert(s =~= seq![s[0]] + rest);
        lemma_per_byte_concat(seq![s[0]], rest, url_fn());
        assert(seq![s[0]].drop_last() =~= Seq::<u8>::empty());
        assert(per_byte(Seq::<u8>::empty(), url_fn()) =~= Seq::<u8>::empty());
        assert(seq![s[0]].last() == s[0]);
        assert(url_fn()(s[0]) == url_encode_byte(s[0]));
        assert(per_byte(seq![s[0]], url_fn()) == per_byte(seq![s[0]].drop_last(), url_fn()) + url_fn()(seq![s[0]].last()));
        assert(per_byte(seq![s[0]], url_fn()) =~= url_encode_byte(s[0]));
        lemma_url_decode_byte(s[0], url_encoded(rest));
        law_url_decoding_undoes_encoding(rest);
        assert(seq![s[0]] + rest =~= s);
    }
}

/// Writing per byte distributes over concatenation.
pub proof fn lemma_per_byte_concat(a: Seq<u8>, b: Seq<u8>, f: spec_fn(u8) -> Seq<u8>)
    ensures
        per_byte(a + b, f) == per_byte(a, f) + per_byte(b, f),
    decreases b.len(),
{
    if b.len() == 0 {
        assert(a + b =~= a);
        assert(per_byte(a, f) + per_byte(b, f) =~= per_byte(a, f));
    } else {
        lemma_per_byte_concat(a, b.drop_last(), f);
        assert((a + b).drop_last() =~= a + b.drop_last());
        assert((a + b).last() == b.last());
    }
}

/// Text without a backslash holds no escapes, so re-escaping it is
/// escaping it: the two writers of JSON string text agree on it.
/// A write that stops at the first unit that does not fit stops at one
/// place only.
pub proof fn lemma_stopped_at_unit_unique(
    d0: Seq<u8>,
    c0: int,
    f: spec_fn(u8) -> Seq<u8>,
    src: Seq<u8>,
    d1: Seq<u8>,
    c1: int,
    d2: Seq<u8>,
    c2: int,
)
    requires
        stopped_at_unit(d0, c0, f, src, d1, c1),
        stopped_at_unit(d0, c0, f, src, d2, c2),
    ensures
        d1 == d2,
        c1 == c2,
{
    let k1 = choose|k: int|
        0 <= k < src.len() && (k > 0 ==> c0 + per_byte(src.take(k), f).len() <= d0.len()) && d0.len() < c0
            + per_byte(src.take(k + 1), f).len() && d1 == splice(d0, c0, per_byte(src.take(k), f)) && c1 == c0
            + per_byte(src.take(k), f).len();
    let k2 = choose|k: int|
        0 <= k < src.len() && (k > 0 ==> c0 + per_byte(src.take(k), f).len() <= d0.len()) && d0.len() < c0
            + per_byte(src.take(k + 1), f).len() && d2 == splice(d0, c0, per_byte(src.take(k), f)) && c2 == c0
            + per_byte(src.take(k), f).len();
    if k1 < k2 {
        lemma_per_byte_prefix_len(src.take(k2), f, k1 + 1);
        assert(src.take(k2).take(k1 + 1) =~= src.take(k1 + 1));
    } else if k2 < k1 {
        lemma_per_byte_prefix_len(src.take(k1), f, k2 + 1);
        assert(src.take(k1).take(k2 + 1) =~= src.take(k2 + 1));
    }
}

/// On text without a backslash, writing it with its escapes read and
/// written anew leaves the same result, cursor and buffer as escaping it:
/// the two writers' outcomes, from the same start, are equal.
pub proof fn law_plain_reescape_writes_as_escape(
    d0: Seq<u8>,
    c0: int,
    src: Seq<u8>,
    ok1: bool,
    d1: Seq<u8>,
    c1: int,
    ok2: bool,
    d2: Seq<u8>,
    c2: int,
)
    requires
        forall|j: int| 0 <= j < src.len() ==> src[j] != 92,
        ok1 == (src.len() == 0 || c0 + escaped(src).len() <= d0.len()),
        ok1 ==> d1 == splice(d0, c0, escaped(src)) && c1 == c0 + escaped(src).len(),
        !ok1 ==> stopped_at_unit(d0, c0, escape_fn(), src, d1, c1),
        ok2 == (src.len() == 0 || c0 + reescaped(src).len() <= d0.len()),
        ok2 ==> d2 == splice(d0, c0, reescaped(src)) && c2 == c0 + reescaped(src).len(),
        !ok2 ==> stopped_at_unit(d0, c0, escape_fn(), src, d2, c2),
    ensures
        ok1 == ok2,
        d1 == d2,
        c1 == c2,
{
    lemma_reescape_plain(src);
    if !ok1 {
        lemma_stopped_at_unit_unique(d0, c0, escape_fn(), src, d1, c1, d2, c2);
    }
}

pub proof fn lemma_reescape_plain(src: Seq<u8>)
    requires
        forall|j: int| 0 <= j < src.len() ==> src[j] != 92,
    ensures
        reescaped(src) == escaped(src),
{
    lemma_reescape_plain_from(src, 0);
    assert(src.skip(0) =~= src);
}

proof fn lemma_reescape_plain_from(src: Seq<u8>, i: int)
    requires
        0 <= i <= src.len(),
        forall|j: int| 0 <= j < src.len() ==> src[j] != 92,
    ensures
        reescape_from(src, i) == escaped(src.skip(i)),
    decreases src.len() - i,
{
    if i == src.len() {
        assert(src.skip(i) =~= Seq::<u8>::empty());
    } else {
        lemma_reescape_plain_from(src, i + 1);
        assert(src.skip(i) =~= seq![src[i]] + src.skip(i + 1));
        lemma_per_byte_concat(seq![src[i]], src.skip(i + 1), escape_fn());
        let one = seq![src[i]];
        assert(one.drop_last() =~= Seq::<u8>::empty());
        assert(per_byte(one, escape_fn()) == per_byte(one.drop_last(), escape_fn()) + escape_fn()(one.last()));
        assert(per_byte(Seq::<u8>::empty(), escape_fn()) == Seq::<u8>::empty());
        assert(per_byte(one, escape_fn()) =~= escape_byte(src[i]));
    }
}

} // verus!
